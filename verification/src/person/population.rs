use vstd::prelude::*;
use rand::rngs::StdRng;
use crate::random::choose_index;
use crate::random::gen_range;
use crate::random::gen_ratio;
use crate::utility::Date;
use crate::utility::DAYS_PER_YEAR;
use super::attribute::Kind;
use super::attribute_list::consistent;
use super::attribute_list::has_kind;
use super::attribute_list::lemma_first_of_kind;
use super::attribute_list::lemma_push;
use super::attribute_list::meets;
use super::attribute_list::without_kind;
use super::person::PersonView;
use super::rates::death_by_age_probability;
use super::rates::grown_of;
use super::rates::held;
use super::rates::lemma_growth_bound;
use super::rates::logistic;
use super::rates::logistic_growth;
use super::rates::DEATH_SCALE;
use super::rates::GROWTH_LIMIT;
use super::rates::GROWTH_RATE;
use super::rates::GROWTH_UNIT;
use super::roster::after_death;
use super::roster::after_deaths;
use super::roster::born_by;
use super::roster::lemma_death;
use super::roster::lemma_one_more_death;
use super::roster::bride_ready;
use super::roster::groom_ready;
use super::roster::husband;
use super::roster::gained;
use super::roster::lemma_coherent_same_but;
use super::roster::lemma_matured;
use super::roster::lemma_roster_pointwise;
use super::roster::expecting;
use super::roster::lemma_conception;
use super::roster::lemma_same_but_twice;
use super::roster::lemma_spouse;
use super::roster::births_done;
use super::roster::delivered;
use super::roster::due_count;
use super::roster::is_child;
use super::roster::lemma_births;
use super::roster::lemma_pending_step;
use super::roster::born_to;
use super::roster::lemma_after_deaths;
use super::roster::lemma_child_tags;
use super::roster::coherent_at;
use super::roster::lemma_coherent_by_place;
use super::roster::lemma_pending_bound;
use super::roster::lemma_same_people;
use super::roster::lemma_delivered;
use super::roster::lemma_wedding;
use super::roster::lived_on;
use super::roster::same_people;
use super::roster::pair_ready;
use super::roster::same_identity;
use super::roster::newborn_of;
use super::roster::pending_births;
use super::roster::lost;
use super::roster::matured;
use super::roster::same_but;
use super::roster::same_person_but;
use super::roster::same_but_marriages;
use super::roster::widowed;
use super::roster::wife;
use super::roster::chance_to_die;
use super::roster::coherent;
use super::roster::conception_is_sure;
use super::roster::nobody_may_conceive;
use super::roster::conceived_between;
use super::roster::fertile_after;
use super::roster::lemma_one_more_pregnancy;
use super::roster::lemma_pregnancies_started;
use super::roster::lemma_survivors;
use super::roster::may_have_died;
use super::roster::none_due;
use super::roster::pregnancies_started;
use super::roster::count_with;
use super::roster::fertile_as_aged;
use super::roster::has_id;
use super::roster::ids_below;
use super::roster::ids_unique;
use super::roster::lemma_count_bound;
use super::roster::lemma_count_push;
use super::roster::lemma_count_without_place;
use super::roster::lemma_roster_at;
use super::roster::lemma_roster_member;
use super::roster::lemma_roster_push;
use super::roster::lemma_roster_without_place;
use super::roster::place_of;
use super::roster::roster;
use super::roster::wed_to;
use super::roster::without_place;
use super::Attribute;
use super::AttributeList;
use super::Person;
use super::PersonGenerator;

verus! {

/// Whether the person at the place `i` carries every kind of `wanted` and no
/// kind of `unwanted`.
pub open spec fn eligible(
    people: Seq<Person>,
    wanted: Seq<Attribute>,
    unwanted: Seq<Attribute>,
    i: int,
) -> bool {
    0 <= i < people.len() && meets(people[i]@.tags, wanted, unwanted)
}

/// Whether somebody of `people` carries every kind of `wanted` and no kind of
/// `unwanted`.
pub open spec fn any_eligible(
    people: Seq<Person>,
    wanted: Seq<Attribute>,
    unwanted: Seq<Attribute>,
) -> bool {
    exists|i: int| eligible(people, wanted, unwanted, i)
}

/// Somebody stands at an eligible place exactly if the roster holds somebody
/// whose tags meet the demands.
pub proof fn lemma_any_eligible(people: Seq<Person>, wanted: Seq<Attribute>, unwanted: Seq<Attribute>)
    requires
        ids_unique(people),
    ensures
        any_eligible(people, wanted, unwanted) == exists|id: u32| #[trigger]
            roster(people).contains_key(id) && meets(roster(people)[id].tags, wanted, unwanted),
{
    if any_eligible(people, wanted, unwanted) {
        let i = choose|i: int| eligible(people, wanted, unwanted, i);
        lemma_roster_at(people, i);
        assert(roster(people).contains_key(people[i]@.id));
    }
    if exists|id: u32| #[trigger]
        roster(people).contains_key(id) && meets(roster(people)[id].tags, wanted, unwanted) {
        let id = choose|id: u32| #[trigger]
            roster(people).contains_key(id) && meets(roster(people)[id].tags, wanted, unwanted);
        lemma_roster_member(people, id);
        assert(eligible(people, wanted, unwanted, place_of(people, id)));
    }
}

/// What it is to meet a demand for two kinds and against one.
pub proof fn lemma_meets_two(tags: Seq<Attribute>, first: Attribute, second: Attribute, banned: Attribute)
    ensures
        meets(tags, seq![first, second], seq![banned]) == (has_kind(tags, first.kind()) && has_kind(
            tags,
            second.kind(),
        ) && !has_kind(tags, banned.kind())),
{
    let wanted = seq![first, second];
    let unwanted = seq![banned];
    assert(wanted[0] == first && wanted[1] == second && unwanted[0] == banned);
}

/// What it is to meet a demand for one kind and against one.
pub proof fn lemma_meets_one(tags: Seq<Attribute>, first: Attribute, banned: Attribute)
    ensures
        meets(tags, seq![first], seq![banned]) == (has_kind(tags, first.kind()) && !has_kind(
            tags,
            banned.kind(),
        )),
        meets(tags, seq![first], Seq::empty()) == has_kind(tags, first.kind()),
{
    let wanted = seq![first];
    let unwanted = seq![banned];
    assert(wanted[0] == first && unwanted[0] == banned);
}

/// The days from a conception to the birth, give or take ten.
pub const PREGNANCY_LENGTH: u32 = 270;

/// The attempts to start a pregnancy that one tick makes at most.
pub const MAX_PREGNANCY_ATTEMPTS: u32 = 10;

/// The failed attempts in a row after which a tick stops wedding.
pub const MAX_MARRIAGE_FAILS: u32 = 3;

/// Whether `tag` is the pregnancy of a conception by the member `mother`,
/// counted from the day `today`: she is a woman who is not pregnant; the
/// father is another member, her husband if she has one, else a man; the
/// children are one to four; the birth is due 260 to 279 days after `today`.
pub open spec fn conceived(
    members: Map<u32, PersonView>,
    mother: u32,
    tag: Attribute,
    today: Date,
) -> bool {
    conceived_between(members, mother, tag, today.day_number() + 260, today.day_number() + 280)
}

/// What a tick leaves, counted from a later first new id, is what it leaves
/// counted from an earlier one.
pub proof fn lemma_after_tick_earlier(
    after: Population,
    before: Population,
    today: Date,
    later: u32,
    earlier: u32,
)
    requires
        after.after_tick(before, today, later),
        earlier <= later,
    ensures
        after.after_tick(before, today, earlier),
{
    assert forall|a: u32| #[trigger] after@.contains_key(a) implies if before@.contains_key(a) {
        lived_on(before@[a], after@[a], today)
    } else {
        earlier <= a && has_kind(after@[a].tags, Kind::Fertile) == fertile_after(
            false,
            after@[a].birthday,
            today,
        ) && exists|m: u32| #[trigger]
            before@.contains_key(m) && due_count(before@[m], today) > 0 && born_to(
                after@[a],
                before@[m],
            )
    } by {
        if !before@.contains_key(a) {
            assert(later <= a);
        }
    }
}

/// The people of a settlement, the number of people that it has room for, and
/// the growth that has built up, in millionths of a pregnancy.
#[derive(Debug)]
pub struct Population {
    population: Vec<Person>,
    capacity: u32,
    growth_accumulator: i64,
}

impl View for Population {
    type V = Map<u32, PersonView>;

    /// The members by their ids.
    open spec fn view(&self) -> Map<u32, PersonView> {
        roster(self.members())
    }
}

impl Population {
    /// The members in the order in which the population holds them.
    pub closed spec fn members(&self) -> Seq<Person> {
        self.population@
    }

    pub closed spec fn capacity(&self) -> u32 {
        self.capacity
    }

    /// The growth that has built up, in millionths of a pregnancy.
    pub closed spec fn growth(&self) -> int {
        self.growth_accumulator as int
    }

    /// What holds of a population between ticks: ids are distinct, the
    /// members are coherent, and the growth that has built up is within ten
    /// pregnancies either way.
    pub open spec fn well_formed(&self) -> bool {
        &&& ids_unique(self.members())
        &&& coherent(self@)
        &&& -GROWTH_LIMIT <= self.growth() <= GROWTH_LIMIT
    }

    /// The growth that has built up after one more tick: the logistic growth
    /// of the tick added and the sum held to ten pregnancies either way. A
    /// population without room for anybody falls to the lower limit at once.
    pub open spec fn grown(&self) -> int {
        grown_of(self.growth(), self.members().len() as u32, self.capacity())
    }

    /// What a tick on the day `today` leaves of the population `before`,
    /// whatever is drawn, where the people minted get ids from `first_new_id`
    /// on.
    ///
    /// Whoever is a member was one before, and is the same person of the
    /// same gender, or was born of a pregnancy that was due. Nobody is left
    /// who was sure to die, and whoever had no chance to die is left. No
    /// pregnancy is due any more. Everybody is fertile as the age asks, and
    /// under 14 as before. Two in three are married, or no pair is left to
    /// wed. The growth of the tick, for the members left after the deaths,
    /// has been added, and one pregnancy taken off for each that was
    /// started.
    pub open spec fn after_tick(&self, before: Population, today: Date, first_new_id: u32) -> bool {
        &&& self.capacity() == before.capacity()
        &&& forall|a: u32| #[trigger]
            self@.contains_key(a) ==> fertile_as_aged(self@[a], today) && none_due(self@[a], today)
                && chance_to_die(self@[a], today) < DEATH_SCALE
        &&& forall|a: u32| #[trigger]
            self@.contains_key(a) ==> if before@.contains_key(a) {
                lived_on(before@[a], self@[a], today)
            } else {
                first_new_id <= a && has_kind(self@[a].tags, Kind::Fertile) == fertile_after(
                    false,
                    self@[a].birthday,
                    today,
                ) && exists|m: u32| #[trigger]
                    before@.contains_key(m) && due_count(before@[m], today) > 0 && born_to(
                        self@[a],
                        before@[m],
                    )
            }
        &&& forall|a: u32| #[trigger]
            before@.contains_key(a) && chance_to_die(before@[a], today) == 0 ==> self@.contains_key(
                a,
            )
        &&& count_with(self.members(), Kind::Married) * 3 >= 2 * self.members().len()
            || !pair_ready(self@)
        &&& exists|started: int|
            0 <= started <= MAX_PREGNANCY_ATTEMPTS && self.growth() == grown_of(
                before.growth(),
                self.members().len() as u32,
                before.capacity(),
            ) - #[trigger] (started * GROWTH_UNIT)
    }

    /// A population of `size` new people with room for `capacity`: each born
    /// from five up to forty years before `today`, fertile as the age asks,
    /// and wedded at random until 66 in 100 are married or nobody is left to
    /// wed.
    pub fn new(size: u32, capacity: u32, today: Date, generator: &mut PersonGenerator, rng: &mut StdRng) -> (r: Population)
        requires
            old(generator).next_id() + size <= u32::MAX,
            40 * 360 <= today.day_number() + 1,
        ensures
            r.well_formed(),
            r.capacity() == capacity,
            r.growth() == 0,
            r.members().len() == size,
            born_by(r@, today),
            ids_below(r@, final(generator).next_id()),
            forall|a: u32| #[trigger]
                r@.contains_key(a) ==> fertile_as_aged(r@[a], today) && old(generator).next_id() <= a
                    && today.day_number() - 40 * 360 < r@[a].birthday.day_number()
                    <= today.day_number() - 5 * 360,
            forall|a: u32|
                old(generator).next_id() <= a < final(generator).next_id() ==> #[trigger] r@.contains_key(a),
            final(generator).next_id() == old(generator).next_id() + size,
            old(generator).same_pools(final(generator)),
            count_with(r.members(), Kind::Married) * 100 >= 66 * r.members().len() || !pair_ready(r@),
    {
        let mut population = Population::default();
        population.set_capacity(capacity);
        let ghost first_id = generator.next_id();
        let mut made: u32 = 0;
        proof {
            use_type_invariant(today);
        }
        while made < size
            invariant
                made <= size,
                today.valid(),
                40 * 360 <= today.day_number() + 1,
                first_id + size <= u32::MAX,
                generator.next_id() == first_id + made,
                old(generator).same_pools(generator),
                population.well_formed(),
                population.capacity() == capacity,
                population.growth() == 0,
                population.members().len() == made,
                born_by(population@, today),
                ids_below(population@, generator.next_id()),
                forall|a: u32| #[trigger]
                    population@.contains_key(a) ==> first_id <= a && !has_kind(
                        population@[a].tags,
                        Kind::Married,
                    ) && today.day_number() - 40 * 360 < population@[a].birthday.day_number()
                        <= today.day_number() - 5 * 360,
                forall|a: u32| first_id <= a < generator.next_id() ==> #[trigger] population@.contains_key(a),
            decreases size - made,
        {
            let ghost before = population@;
            let mut person = generator.generate_random_person(rng);
            let birthday = today.random_past_years_range((5, 40), rng);
            person.set_birthday(birthday);
            proof {
                lemma_child_tags(person@.tags);
                birthday.lemma_precedes_by_day_number(today);
                today.lemma_precedes_by_day_number(birthday);
            }
            population.add(person);
            proof {
                let after = population@;
                assert forall|a: u32, b: u32| #[trigger] wed_to(after, a, b) implies a != b && wed_to(
                    after,
                    b,
                    a,
                ) by {
                    lemma_spouse(after[a].tags);
                }
            }
            made += 1;
        }
        let ghost founders = population@;
        population.handle_fertility(today);
        let ghost grown = population@;
        let mut wed = true;
        while wed && population.marriages_below(66, 100)
            invariant
                !wed ==> !pair_ready(population@),
                population.well_formed(),
                population.capacity() == capacity,
                population.growth() == 0,
                population.members().len() == size,
                same_but(grown, population@, Kind::Married),
            decreases
                    population.members().len() - count_with(population.members(), Kind::Married),
                    if wed {
                        1int
                    } else {
                        0int
                    },
        {
            let ghost now = population@;
            proof {
                lemma_count_bound(population.members(), Kind::Married);
            }
            wed = population.random_marriage(rng);
            proof {
                lemma_same_but_twice(grown, now, population@, Kind::Married);
                lemma_count_bound(population.members(), Kind::Married);
            }
        }
        proof {
            assert forall|a: u32| #[trigger] population@.contains_key(a) implies fertile_as_aged(
                population@[a],
                today,
            ) && first_id <= a && population@[a].birthday == founders[a].birthday by {
                assert(grown.contains_key(a));
                assert(same_person_but(grown[a], population@[a], Kind::Married));
                assert(founders.contains_key(a));
            }
        }
        population
    }

    pub fn size(&self) -> (r: u32)
        ensures
            r == self.members().len() as u32,
            self.members().len() <= u32::MAX ==> r == self.members().len(),
    {
        #[verifier::truncate]
        (self.population.len() as u32)
    }

    /// Adds a person, whoever it is. Where the ids were distinct and the id
    /// is new, they stay distinct.
    pub fn add(&mut self, person: Person)
        ensures
            final(self).members() == old(self).members().push(person),
            final(self).capacity() == old(self).capacity(),
            final(self).growth() == old(self).growth(),
            ids_unique(old(self).members()) && !old(self)@.contains_key(person@.id) ==> ids_unique(
                final(self).members(),
            ) && final(self)@ == old(self)@.insert(person@.id, person@),
    {
        proof {
            if ids_unique(self.members()) && !self@.contains_key(person@.id) {
                lemma_roster_push(self.members(), person);
            }
        }
        self.population.push(person);
    }

    pub fn get_capacity(&self) -> (r: u32)
        ensures
            r == self.capacity(),
    {
        self.capacity
    }

    pub fn set_capacity(&mut self, new_cap: u32)
        ensures
            final(self).capacity() == new_cap,
            final(self).members() == old(self).members(),
            final(self).growth() == old(self).growth(),
    {
        self.capacity = new_cap;
    }

    /// The growth that has built up, in millionths of a pregnancy.
    pub fn get_growth_accumulator(&self) -> (r: i64)
        ensures
            r == self.growth(),
    {
        self.growth_accumulator
    }

    pub fn get_population(&self) -> (r: &[Person])
        ensures
            r@ == self.members(),
    {
        self.population.as_slice()
    }

    /// How many members carry a tag of the kind of `tag`.
    fn count_tagged(&self, tag: &Attribute) -> (r: usize)
        ensures
            r == count_with(self.members(), tag.kind()),
    {
        let mut count: usize = 0;
        let mut i: usize = 0;
        while i < self.population.len()
            invariant
                i <= self.population@.len(),
                count == count_with(self.population@.take(i as int), tag.kind()),
                count <= i,
            decreases self.population@.len() - i,
        {
            proof {
                assert(self.population@.take(i + 1).drop_last() =~= self.population@.take(i as int));
            }
            if self.population[i].get_attr().has_attribute(tag) {
                count += 1;
            }
            i += 1;
        }
        proof {
            assert(self.population@.take(i as int) =~= self.population@);
        }
        count
    }

    /// How many members are female, and how many members there are.
    pub fn get_female_ratio(&self) -> (r: (usize, usize))
        ensures
            r.0 == count_with(self.members(), Kind::Female),
            r.1 == self.members().len(),
    {
        (self.count_tagged(&Attribute::Female), self.population.len())
    }

    /// How many members are fertile, and how many members there are.
    pub fn get_fertility_ratio(&self) -> (r: (usize, usize))
        ensures
            r.0 == count_with(self.members(), Kind::Fertile),
            r.1 == self.members().len(),
    {
        (self.count_tagged(&Attribute::Fertile), self.population.len())
    }

    /// How many members are married, and how many members there are.
    pub fn get_marriage_ratio(&self) -> (r: (usize, usize))
        ensures
            r.0 == count_with(self.members(), Kind::Married),
            r.1 == self.members().len(),
            r.0 <= r.1,
    {
        proof {
            lemma_count_bound(self.members(), Kind::Married);
        }
        (self.count_tagged(&Attribute::Married(0)), self.population.len())
    }

    /// One of the members that carry every kind of `wanted` and no kind of
    /// `unwanted`, drawn from them; `None` exactly where there is none.
    pub fn get_random_by_attribute_list(&self, wanted: &AttributeList, unwanted: &AttributeList, rng: &mut StdRng) -> (r: Option<&Person>)
        ensures
            r is None <==> !any_eligible(self.members(), wanted@, unwanted@),
            r matches Some(person) ==> exists|i: int|
                eligible(self.members(), wanted@, unwanted@, i) && self.members()[i] == *person,
    {
        match self.get_random_index_by_attribute_list(wanted, unwanted, rng) {
            Some(index) => Some(&self.population[index]),
            None => None,
        }
    }

    /// Takes out one of the members that carry every kind of `wanted` and no
    /// kind of `unwanted`, drawn from them; `None`, and nothing changed,
    /// exactly where there is none.
    pub fn pop_random_by_attribute_list(&mut self, wanted: &AttributeList, unwanted: &AttributeList, rng: &mut StdRng) -> (r: Option<Person>)
        ensures
            r is None <==> !any_eligible(old(self).members(), wanted@, unwanted@),
            final(self).capacity() == old(self).capacity(),
            final(self).growth() == old(self).growth(),
            match r {
                Some(person) => exists|i: int|
                    {
                        &&& eligible(old(self).members(), wanted@, unwanted@, i)
                        &&& old(self).members()[i] == person
                        &&& final(self).members() == without_place(old(self).members(), i)
                    },
                None => final(self).members() == old(self).members(),
            },
            ids_unique(old(self).members()) ==> ids_unique(final(self).members()) && match r {
                Some(person) => old(self)@.contains_key(person@.id) && old(self)@[person@.id]
                    == person@ && final(self)@ == old(self)@.remove(person@.id),
                None => true,
            },
    {
        match self.get_random_index_by_attribute_list(wanted, unwanted, rng) {
            Some(index) => Some(self.pop_by_index(index)),
            None => None,
        }
    }

    /// Takes out every member who carries every kind of `wanted` and no kind
    /// of `unwanted`, and returns them.
    pub fn pop_by_attribute_list(&mut self, wanted: &AttributeList, unwanted: &AttributeList) -> (r: Vec<Person>)
        ensures
            forall|k: int| 0 <= k < r@.len() ==> meets((#[trigger] r@[k])@.tags, wanted@, unwanted@),
            !any_eligible(final(self).members(), wanted@, unwanted@),
            final(self).members().len() + r@.len() == old(self).members().len(),
            final(self).capacity() == old(self).capacity(),
            final(self).growth() == old(self).growth(),
            ids_unique(old(self).members()) ==> {
                &&& ids_unique(final(self).members())
                &&& ids_unique(r@)
                &&& forall|a: u32| #[trigger]
                    old(self)@.contains_key(a) ==> if meets(old(self)@[a].tags, wanted@, unwanted@) {
                        !final(self)@.contains_key(a) && roster(r@).contains_key(a) && roster(r@)[a]
                            == old(self)@[a]
                    } else {
                        final(self)@.contains_key(a) && !roster(r@).contains_key(a) && final(self)@[a] == old(self)@[a]
                    }
                &&& forall|a: u32| #[trigger]
                    final(self)@.contains_key(a) || roster(r@).contains_key(a) ==> old(self)@.contains_key(a)
            },
    {
        let mut chosen: Vec<Person> = Vec::new();
        let ghost before = self@;
        let ghost unique = ids_unique(self.members());
        let mut next = self.get_first_index_by_attribute_list(wanted, unwanted);
        while next.is_some()
            invariant
                next is None <==> !any_eligible(self.members(), wanted@, unwanted@),
                next matches Some(i) ==> eligible(self.members(), wanted@, unwanted@, i as int),
                forall|k: int|
                    0 <= k < chosen@.len() ==> meets((#[trigger] chosen@[k])@.tags, wanted@, unwanted@),
                self.members().len() + chosen@.len() == old(self).members().len(),
                self.capacity() == old(self).capacity(),
                self.growth() == old(self).growth(),
                unique == ids_unique(old(self).members()),
                before == old(self)@,
                unique ==> {
                    &&& ids_unique(self.members())
                    &&& ids_unique(chosen@)
                    &&& forall|a: u32| #[trigger]
                        before.contains_key(a) ==> if roster(chosen@).contains_key(a) {
                            !self@.contains_key(a) && roster(chosen@)[a] == before[a]
                        } else {
                            self@.contains_key(a) && self@[a] == before[a]
                        }
                    &&& forall|a: u32| #[trigger]
                        self@.contains_key(a) || roster(chosen@).contains_key(a) ==> before.contains_key(a)
                },
            decreases self.members().len(),
        {
            let index = next.unwrap();
            let ghost now = self@;
            let ghost picked = chosen@;
            let person = self.pop_by_index(index);
            proof {
                if unique {
                    assert(!roster(picked).contains_key(person@.id));
                    lemma_roster_push(picked, person);
                }
            }
            chosen.push(person);
            next = self.get_first_index_by_attribute_list(wanted, unwanted);
        }
        proof {
            if unique {
                assert forall|a: u32| #[trigger] before.contains_key(a) implies (meets(
                    before[a].tags,
                    wanted@,
                    unwanted@,
                ) <==> roster(chosen@).contains_key(a)) by {
                    if roster(chosen@).contains_key(a) {
                        lemma_roster_member(chosen@, a);
                    } else {
                        lemma_any_eligible(self.members(), wanted@, unwanted@);
                    }
                }
            }
        }
        chosen
    }

    /// The first member with the id `id`.
    pub fn get_by_id(&self, id: u32) -> (r: Option<&Person>)
        ensures
            r is Some <==> self@.contains_key(id),
            r matches Some(person) ==> person@.id == id && exists|i: int|
                0 <= i < self.members().len() && self.members()[i] == *person,
            ids_unique(self.members()) ==> (r matches Some(person) ==> self@[id] == person@),
    {
        let mut i: usize = 0;
        while i < self.population.len()
            invariant
                i <= self.population@.len(),
                forall|j: int| 0 <= j < i ==> (#[trigger] self.population@[j])@.id != id,
            decreases self.population@.len() - i,
        {
            if self.population[i].get_id() == id {
                proof {
                    if ids_unique(self.members()) {
                        lemma_roster_at(self.members(), i as int);
                    }
                }
                return Some(&self.population[i]);
            }
            i += 1;
        }
        None
    }

    /// Takes out the first member with the id `id`, which must be present.
    fn pop_by_id(&mut self, id: u32) -> (r: Person)
        requires
            old(self)@.contains_key(id),
        ensures
            r@.id == id,
            final(self).capacity() == old(self).capacity(),
            final(self).growth() == old(self).growth(),
            exists|i: int|
                0 <= i < old(self).members().len() && old(self).members()[i] == r && final(self).members() == without_place(old(self).members(), i),
            ids_unique(old(self).members()) ==> ids_unique(final(self).members()) && old(self)@[id]
                == r@ && final(self)@ == old(self)@.remove(id),
    {
        let mut i: usize = 0;
        while i < self.population.len()
            invariant
                i <= self.population@.len(),
                self.population@ == old(self).population@,
                self.capacity == old(self).capacity,
                self.growth_accumulator == old(self).growth_accumulator,
                forall|j: int| 0 <= j < i ==> (#[trigger] self.population@[j])@.id != id,
            decreases self.population@.len() - i,
        {
            if self.population[i].get_id() == id {
                let person = self.pop_by_index(i);
                proof {
                    assert(old(self).members()[i as int] == person);
                    assert(self.members() == without_place(old(self).members(), i as int));
                }
                return person;
            }
            i += 1;
        }
        proof {
            let p = place_of(self.members(), id);
            assert(self.members()[p]@.id == id);
        }
        vstd::pervasive::unreached()
    }

    /// Takes out the member at `index`; the last member takes the place.
    fn pop_by_index(&mut self, index: usize) -> (r: Person)
        requires
            index < old(self).members().len(),
        ensures
            r == old(self).members()[index as int],
            final(self).members() == without_place(old(self).members(), index as int),
            final(self).capacity() == old(self).capacity(),
            final(self).growth() == old(self).growth(),
            ids_unique(old(self).members()) ==> ids_unique(final(self).members()) && old(self)@.contains_key(r@.id) && old(self)@[r@.id] == r@ && final(self)@ == old(self)@.remove(
                r@.id,
            ),
    {
        proof {
            if ids_unique(self.members()) {
                lemma_roster_without_place(self.members(), index as int);
                lemma_roster_at(self.members(), index as int);
            }
        }
        self.population.swap_remove(index)
    }

    /// A place drawn from the places of the members that carry every kind of
    /// `wanted` and no kind of `unwanted`.
    fn get_random_index_by_attribute_list(&self, wanted: &AttributeList, unwanted: &AttributeList, rng: &mut StdRng) -> (r: Option<usize>)
        ensures
            r is None <==> !any_eligible(self.members(), wanted@, unwanted@),
            r matches Some(i) ==> eligible(self.members(), wanted@, unwanted@, i as int),
    {
        let mut candidates: Vec<usize> = Vec::new();
        let mut i: usize = 0;
        while i < self.population.len()
            invariant
                i <= self.population@.len(),
                forall|k: int|
                    0 <= k < candidates@.len() ==> eligible(
                        self.population@,
                        wanted@,
                        unwanted@,
                        (#[trigger] candidates@[k]) as int,
                    ),
                forall|j: int|
                    0 <= j < i && eligible(self.population@, wanted@, unwanted@, j)
                        ==> candidates@.contains(j as usize),
            decreases self.population@.len() - i,
        {
            if self.population[i].satisfies(wanted, unwanted) {
                let ghost before = candidates@;
                candidates.push(i);
                proof {
                    assert(candidates@[before.len() as int] == i);
                    assert forall|j: int|
                        0 <= j < i + 1 && eligible(
                            self.population@,
                            wanted@,
                            unwanted@,
                            j,
                        ) implies candidates@.contains(j as usize) by {
                        if j < i {
                            let k = choose|k: int| 0 <= k < before.len() && before[k] == j as usize;
                            assert(candidates@[k] == j as usize);
                        }
                    }
                }
            }
            i += 1;
        }
        let picked = choose_index(rng, &candidates);
        proof {
            if candidates@.len() == 0 {
                if any_eligible(self.members(), wanted@, unwanted@) {
                    let j = choose|j: int| eligible(self.members(), wanted@, unwanted@, j);
                    assert(candidates@.contains(j as usize));
                }
            } else {
                assert(eligible(self.members(), wanted@, unwanted@, candidates@[0] as int));
            }
        }
        picked
    }

    /// The first place of a member that carries every kind of `wanted` and no
    /// kind of `unwanted`.
    fn get_first_index_by_attribute_list(&self, wanted: &AttributeList, unwanted: &AttributeList) -> (r: Option<usize>)
        ensures
            r is None <==> !any_eligible(self.members(), wanted@, unwanted@),
            r matches Some(i) ==> eligible(self.members(), wanted@, unwanted@, i as int) && forall|
                j: int,
            |
                0 <= j < i ==> !eligible(self.members(), wanted@, unwanted@, j),
    {
        let mut i: usize = 0;
        while i < self.population.len()
            invariant
                i <= self.population@.len(),
                forall|j: int| 0 <= j < i ==> !eligible(self.population@, wanted@, unwanted@, j),
            decreases self.population@.len() - i,
        {
            if self.population[i].satisfies(wanted, unwanted) {
                proof {
                    assert(eligible(self.members(), wanted@, unwanted@, i as int));
                }
                return Some(i);
            }
            i += 1;
        }
        None
    }

    /// One tick, on the day `today`: the births that are due, the deaths, the
    /// growth and the pregnancies that it starts, the fertility by age, and
    /// the weddings, in this order. The population stays well formed, and is
    /// afterwards what `after_tick` says.
    pub fn update(&mut self, today: Date, person_generator: &mut PersonGenerator, rng: &mut StdRng)
        requires
            old(self).well_formed(),
            born_by(old(self)@, today),
            ids_below(old(self)@, old(person_generator).next_id()),
            old(person_generator).next_id() + pending_births(old(self).members(), today) <= u32::MAX,
            Date::representable(today.day_number() + 359 + 279),
        ensures
            final(self).well_formed(),
            born_by(final(self)@, today),
            ids_below(final(self)@, final(person_generator).next_id()),
            final(self).after_tick(*old(self), today, old(person_generator).next_id()),
            old(person_generator).same_pools(final(person_generator)),
            final(person_generator).next_id() == old(person_generator).next_id() + pending_births(
                old(self).members(),
                today,
            ),
    {
        let ghost before = self@;
        proof {
            use_type_invariant(today);
        }
        self.handle_births(today, person_generator, rng);
        let ghost born = self@;
        self.handle_deaths(today, rng);
        let ghost left = self@;
        let ghost target = self.grown();
        let ghost folk = self.members();
        let ghost dead = choose|dead: Set<u32>|
            may_have_died(born, dead, today) && #[trigger] after_deaths(born, dead) == left;
        proof {
            lemma_after_deaths(born, dead);
            lemma_survivors(born, dead, today);
        }
        self.handle_growth(today, rng);
        let ghost grown = self@;
        proof {
            lemma_pregnancies_started(
                left,
                grown,
                today.day_number() + 260,
                today.day_number() + 359 + 280,
                today,
            );
            let started = choose|started: int|
                {
                    &&& 0 <= started <= MAX_PREGNANCY_ATTEMPTS
                    &&& self.growth() == target - #[trigger] (started * GROWTH_UNIT)
                    &&& count_with(self.members(), Kind::Pregnant) == count_with(
                        folk,
                        Kind::Pregnant,
                    ) + started
                    &&& target > GROWTH_UNIT && conception_is_sure(left) ==> started >= 1
                };
            assert(self.growth() == grown_of(
                old(self).growth(),
                self.members().len() as u32,
                old(self).capacity(),
            ) - started * GROWTH_UNIT);
        }
        let ghost growth = self.growth();
        self.handle_fertility(today);
        let ghost ripe = self@;
        self.handle_marriages(rng);
        proof {
            let after = self@;
            assert forall|a: u32| #[trigger] after.contains_key(a) implies {
                &&& born.contains_key(a)
                &&& same_identity(born[a], after[a])
                &&& fertile_as_aged(after[a], today)
                &&& none_due(after[a], today)
                &&& chance_to_die(after[a], today) < DEATH_SCALE
                &&& has_kind(after[a].tags, Kind::Male) == has_kind(born[a].tags, Kind::Male)
                &&& has_kind(after[a].tags, Kind::Female) == has_kind(born[a].tags, Kind::Female)
                &&& has_kind(after[a].tags, Kind::Fertile) == fertile_after(
                    has_kind(born[a].tags, Kind::Fertile),
                    born[a].birthday,
                    today,
                )
            } by {
                assert(ripe.contains_key(a));
                assert(same_person_but(ripe[a], after[a], Kind::Married));
                assert(grown.contains_key(a));
                assert(same_person_but(grown[a], ripe[a], Kind::Fertile));
                assert(left.contains_key(a));
                assert(same_person_but(left[a], grown[a], Kind::Pregnant));
                assert(born.contains_key(a));
                assert(same_person_but(born[a], left[a], Kind::Married));
                assert(none_due(born[a], today));
                assert(none_due(left[a], today));
                assert(none_due(grown[a], today));
                assert(none_due(ripe[a], today));
                assert(chance_to_die(left[a], today) < DEATH_SCALE);
            }
            assert forall|a: u32| #[trigger] after.contains_key(a) implies if before.contains_key(
                a,
            ) {
                lived_on(before[a], after[a], today)
            } else {
                old(person_generator).next_id() <= a && has_kind(after[a].tags, Kind::Fertile)
                    == fertile_after(false, after[a].birthday, today) && exists|m: u32| #[trigger]
                    before.contains_key(m) && due_count(before[m], today) > 0 && born_to(
                        after[a],
                        before[m],
                    )
            } by {
                assert(born.contains_key(a));
                if before.contains_key(a) {
                    lemma_delivered(before[a], today);
                } else {
                    let m = choose|m: u32| #[trigger]
                        before.contains_key(m) && due_count(before[m], today) > 0 && newborn_of(
                            born[a],
                            before[m],
                        );
                    lemma_child_tags(born[a].tags);
                    assert(born_to(after[a], before[m]));
                }
            }
            assert forall|a: u32| #[trigger]
                before.contains_key(a) && chance_to_die(before[a], today)
                    == 0 implies after.contains_key(a) by {
                assert(born.contains_key(a));
                lemma_delivered(before[a], today);
                assert(left.contains_key(a));
                assert(grown.contains_key(a));
                assert(ripe.contains_key(a));
            }
            assert(self.growth() == growth);
        }
    }

    /// The births of the day `today`, after which no pregnancy is due. Every
    /// pregnant member whose birth is due loses the `Pregnant` tag and bears the children of the pregnancy:
    /// new members with her last name, her and the father of the pregnancy
    /// as parents, and the due day as birthday. A pregnancy that is not due
    /// stays, its tag moved to the end of the tags.
    pub fn handle_births(&mut self, today: Date, person_generator: &mut PersonGenerator, rng: &mut StdRng)
        requires
            old(self).well_formed(),
            ids_below(old(self)@, old(person_generator).next_id()),
            old(person_generator).next_id() + pending_births(old(self).members(), today) <= u32::MAX,
        ensures
            final(self).well_formed(),
            final(self).capacity() == old(self).capacity(),
            final(self).growth() == old(self).growth(),
            old(person_generator).same_pools(final(person_generator)),
            final(person_generator).next_id() == old(person_generator).next_id() + pending_births(
                old(self).members(),
                today,
            ),
            ids_below(final(self)@, final(person_generator).next_id()),
            born_by(old(self)@, today) ==> born_by(final(self)@, today),
            exists|mothers: Seq<int>| #[trigger]
                births_done(
                    old(self).members(),
                    final(self).members(),
                    mothers,
                    old(self).members().len() as int,
                    today,
                    old(person_generator).next_id(),
                ),
            forall|a: u32| #[trigger]
                old(self)@.contains_key(a) ==> final(self)@.contains_key(a) && final(self)@[a]
                    == delivered(old(self)@[a], today),
            forall|c: u32| #[trigger]
                final(self)@.contains_key(c) && !old(self)@.contains_key(c) ==> old(person_generator).next_id() <= c && exists|m: u32| #[trigger]
                    old(self)@.contains_key(m) && due_count(old(self)@[m], today) > 0 && newborn_of(
                        final(self)@[c],
                        old(self)@[m],
                    ),
            forall|a: u32| #[trigger]
                final(self)@.contains_key(a) ==> none_due(final(self)@[a], today),
    {
        let ghost before = self.members();
        let ghost first_id = person_generator.next_id();
        let ghost mut mothers: Seq<int> = Seq::empty();
        let size = self.population.len();
        let mut i: usize = 0;
        proof {
            assert(before.take(0) =~= Seq::<Person>::empty());
        }
        while i < size
            invariant
                i <= size,
                size == before.len(),
                first_id + pending_births(before, today) <= u32::MAX,
                births_done(before, self.population@, mothers, i as int, today, first_id),
                person_generator.next_id() == first_id + mothers.len(),
                old(person_generator).same_pools(person_generator),
                self.capacity == old(self).capacity,
                self.growth_accumulator == old(self).growth_accumulator,
            decreases size - i,
        {
            let ghost now = self.population@;
            let ghost mother = before[i as int]@;
            proof {
                lemma_pending_step(before, i as int, today);
                if has_kind(mother.tags, Kind::Pregnant) {
                    lemma_first_of_kind(mother.tags, Kind::Pregnant);
                }
            }
            let pregnancy = self.population[i].get_attr_mut().pop_pregnancy();
            match pregnancy {
                Some(Attribute::Pregnant { father_id, birth, count }) => {
                    if today >= birth {
                        let mother_id = self.population[i].get_id();
                        let last_name = self.population[i].get_last_name().to_owned();
                        let ghost grown = self.population@;
                        self.deliver(
                            mother_id,
                            last_name.as_str(),
                            father_id,
                            birth,
                            count,
                            person_generator,
                            rng,
                        );
                        proof {
                            let run = Seq::new(count as nat, |k: int| i as int);
                            let start = mothers.len();
                            let old_mothers = mothers;
                            mothers = mothers + run;
                            assert forall|t: int| 0 <= t < mothers.len() implies {
                                &&& 0 <= #[trigger] mothers[t] < i + 1
                                &&& self.population@[before.len() + t]@.id == first_id + t
                                &&& newborn_of(
                                    self.population@[before.len() + t]@,
                                    before[mothers[t]]@,
                                )
                                &&& due_count(before[mothers[t]]@, today) > 0
                                &&& pending_births(before.take(mothers[t]), today) <= t
                                    < pending_births(before.take(mothers[t]), today) + due_count(
                                    before[mothers[t]]@,
                                    today,
                                )
                            } by {
                                if t < start {
                                    assert(mothers[t] == old_mothers[t]);
                                    assert(grown[before.len() + t] == now[before.len() + t]);
                                    assert(self.population@[before.len() + t] == grown[before.len()
                                        + t]);
                                } else {
                                    let k = t - start;
                                    assert(mothers[t] == i);
                                    assert(grown.len() == before.len() + start);
                                    let child = self.population@[grown.len() + k]@;
                                    assert(child.id == first_id + start + k);
                                    assert(is_child(child, mother_id, father_id, birth, last_name@));
                                    assert(grown[i as int]@.id == mother.id);
                                    assert(grown[i as int]@.last_name == mother.last_name);
                                    assert(newborn_of(child, mother));
                                    assert(due_count(mother, today) == count);
                                }
                            }
                        }
                    } else {
                        self.population[i].get_attr_mut().add(
                            Attribute::Pregnant { father_id, birth, count },
                        );
                    }
                },
                _ => {},
            }
            i += 1;
        }
        proof {
            assert(before.take(size as int) =~= before);
            lemma_births(before, self.population@, mothers, today, first_id);
            assert forall|a: u32| #[trigger] self@.contains_key(a) implies none_due(
                self@[a],
                today,
            ) by {
                if old(self)@.contains_key(a) {
                    lemma_delivered(old(self)@[a], today);
                } else {
                    let m = choose|m: u32| #[trigger]
                        old(self)@.contains_key(m) && due_count(old(self)@[m], today) > 0
                            && newborn_of(self@[a], old(self)@[m]);
                    lemma_child_tags(self@[a].tags);
                }
            }
        }
    }

    /// Mints the `count` children of one birth and makes them members: each
    /// with the next id, the parents, the day of birth and the last name
    /// given, and a drawn gender and first name.
    fn deliver(
        &mut self,
        mother_id: u32,
        last_name: &str,
        father_id: u32,
        birth: Date,
        count: u32,
        person_generator: &mut PersonGenerator,
        rng: &mut StdRng,
    )
        requires
            old(person_generator).next_id() + count <= u32::MAX,
        ensures
            final(self).members().len() == old(self).members().len() + count,
            forall|j: int|
                0 <= j < old(self).members().len() ==> #[trigger] final(self).members()[j] == old(self).members()[j],
            forall|k: int|
                0 <= k < count ==> (#[trigger] final(self).members()[old(self).members().len() + k])@.id
                    == old(person_generator).next_id() + k && is_child(
                    final(self).members()[old(self).members().len() + k]@,
                    mother_id,
                    father_id,
                    birth,
                    last_name@,
                ),
            final(person_generator).next_id() == old(person_generator).next_id() + count,
            old(person_generator).same_pools(final(person_generator)),
            final(self).capacity() == old(self).capacity(),
            final(self).growth() == old(self).growth(),
    {
        let ghost before = self.members();
        let ghost first_id = person_generator.next_id();
        let mut born: u32 = 0;
        while born < count
            invariant
                born <= count,
                first_id + count <= u32::MAX,
                person_generator.next_id() == first_id + born,
                old(person_generator).same_pools(person_generator),
                self.population@.len() == before.len() + born,
                forall|j: int| 0 <= j < before.len() ==> #[trigger] self.population@[j] == before[j],
                forall|k: int|
                    0 <= k < born ==> (#[trigger] self.population@[before.len() + k])@.id == first_id
                        + k && is_child(
                        self.population@[before.len() + k]@,
                        mother_id,
                        father_id,
                        birth,
                        last_name@,
                    ),
                self.capacity == old(self).capacity,
                self.growth_accumulator == old(self).growth_accumulator,
            decreases count - born,
        {
            let mut child = person_generator.generate_random_person(rng);
            child.set_last_name(last_name);
            child.set_father(father_id);
            child.set_mother(mother_id);
            child.set_birthday(birth);
            self.population.push(child);
            born += 1;
        }
    }

    /// Draws for every member, at the chance of the member's age, whether
    /// the member dies on the day `today`, and takes the dead out; whoever of
    /// the others was married to one of them is widowed. Nobody dies whose
    /// chance is nil, and everybody whose chance is the whole scale.
    pub fn handle_deaths(&mut self, today: Date, rng: &mut StdRng)
        requires
            old(self).well_formed(),
            born_by(old(self)@, today),
        ensures
            final(self).well_formed(),
            exists|dead: Set<u32>|
                may_have_died(old(self)@, dead, today) && #[trigger] after_deaths(old(self)@, dead)
                    == final(self)@,
            final(self).capacity() == old(self).capacity(),
            final(self).growth() == old(self).growth(),
    {
        self.handle_death_by_age(today, rng);
    }

    fn handle_death_by_age(&mut self, today: Date, rng: &mut StdRng)
        requires
            old(self).well_formed(),
            born_by(old(self)@, today),
        ensures
            final(self).well_formed(),
            exists|dead: Set<u32>|
                may_have_died(old(self)@, dead, today) && #[trigger] after_deaths(old(self)@, dead)
                    == final(self)@,
            final(self).capacity() == old(self).capacity(),
            final(self).growth() == old(self).growth(),
    {
        let mut death_list: Vec<u32> = Vec::new();
        let mut i: usize = 0;
        while i < self.population.len()
            invariant
                i <= self.population@.len(),
                ids_unique(self.population@),
                born_by(roster(self.population@), today),
                forall|k: int|
                    0 <= k < death_list@.len() ==> exists|j: int|
                        0 <= j < i && (#[trigger] self.population@[j])@.id == #[trigger] death_list@[k]
                            && chance_to_die(self.population@[j]@, today) > 0,
                forall|j: int|
                    0 <= j < i && chance_to_die((#[trigger] self.population@[j])@, today)
                        == DEATH_SCALE ==> death_list@.contains(self.population@[j]@.id),
                death_list@.no_duplicates(),
            decreases self.population@.len() - i,
        {
            proof {
                lemma_roster_at(self.population@, i as int);
            }
            let person = &self.population[i];
            let age = person.get_age(&today);
            let die = gen_ratio(rng, death_by_age_probability(age), DEATH_SCALE);
            let ghost listed = death_list@;
            if die {
                death_list.push(person.get_id());
                proof {
                    assert forall|k: int| 0 <= k < death_list@.len() implies exists|j: int|
                        0 <= j < i + 1 && (#[trigger] self.population@[j])@.id
                            == #[trigger] death_list@[k] && chance_to_die(
                            self.population@[j]@,
                            today,
                        ) > 0 by {
                        if k < listed.len() {
                            assert(death_list@[k] == listed[k]);
                            let j = choose|j: int|
                                0 <= j < i && (#[trigger] self.population@[j])@.id == listed[k]
                                    && chance_to_die(self.population@[j]@, today) > 0;
                            assert(self.population@[j]@.id == death_list@[k]);
                        } else {
                            assert(self.population@[i as int]@.id == death_list@[k]);
                        }
                    }
                    assert forall|a: int, b: int|
                        0 <= a < death_list@.len() && 0 <= b < death_list@.len() && a
                            != b implies death_list@[a] != death_list@[b] by {
                        if a < listed.len() && b < listed.len() {
                            assert(listed[a] != listed[b]);
                        } else if a < listed.len() {
                            let j = choose|j: int|
                                0 <= j < i && (#[trigger] self.population@[j])@.id == listed[a]
                                    && chance_to_die(self.population@[j]@, today) > 0;
                            assert(self.population@[j]@.id != self.population@[i as int]@.id);
                        } else if b < listed.len() {
                            let j = choose|j: int|
                                0 <= j < i && (#[trigger] self.population@[j])@.id == listed[b]
                                    && chance_to_die(self.population@[j]@, today) > 0;
                            assert(self.population@[j]@.id != self.population@[i as int]@.id);
                        }
                    }
                }
            }
            proof {
                assert forall|j: int|
                    0 <= j < i + 1 && chance_to_die((#[trigger] self.population@[j])@, today)
                        == DEATH_SCALE implies death_list@.contains(self.population@[j]@.id) by {
                    if j < i {
                        let k = choose|k: int|
                            0 <= k < listed.len() && listed[k] == self.population@[j]@.id;
                        assert(death_list@[k] == listed[k]);
                    } else {
                        assert(die);
                        assert(death_list@[listed.len() as int] == self.population@[j]@.id);
                    }
                }
            }
            i += 1;
        }
        let ghost dead = death_list@.to_set();
        proof {
            assert forall|k: int| 0 <= k < death_list@.len() implies self@.contains_key(
                #[trigger] death_list@[k],
            ) by {
                let j = choose|j: int|
                    0 <= j < i && (#[trigger] self.population@[j])@.id == death_list@[k]
                        && chance_to_die(self.population@[j]@, today) > 0;
                lemma_roster_at(self.population@, j);
            }
            assert forall|a: u32| #[trigger] dead.contains(a) implies self@.contains_key(a)
                && chance_to_die(self@[a], today) > 0 by {
                let k = choose|k: int| 0 <= k < death_list@.len() && death_list@[k] == a;
                let j = choose|j: int|
                    0 <= j < i && (#[trigger] self.population@[j])@.id == death_list@[k]
                        && chance_to_die(self.population@[j]@, today) > 0;
                lemma_roster_at(self.population@, j);
            }
            assert forall|a: u32| #[trigger]
                self@.contains_key(a) && chance_to_die(self@[a], today)
                    == DEATH_SCALE implies dead.contains(a) by {
                lemma_roster_member(self.population@, a);
                let j = place_of(self.population@, a);
                assert(self.population@[j]@.id == a);
            }
            assert(may_have_died(self@, dead, today));
        }
        self.kill_people(&death_list);
        proof {
            assert(after_deaths(old(self)@, dead) == self@);
        }
    }

    /// Takes the members of `death_list` out, one after the other; whoever
    /// of the others was married to one of them is widowed. The list must
    /// name members, each once.
    pub fn kill_people(&mut self, death_list: &Vec<u32>)
        requires
            old(self).well_formed(),
            death_list@.no_duplicates(),
            forall|k: int| 0 <= k < death_list@.len() ==> old(self)@.contains_key(#[trigger] death_list@[k]),
        ensures
            final(self).well_formed(),
            final(self)@ == after_deaths(old(self)@, death_list@.to_set()),
            final(self).capacity() == old(self).capacity(),
            final(self).growth() == old(self).growth(),
    {
        let ghost before = self@;
        let mut k: usize = 0;
        proof {
            assert(death_list@.take(0).to_set() =~= Set::<u32>::empty());
            assert(self@ =~= after_deaths(before, Set::<u32>::empty()));
        }
        while k < death_list.len()
            invariant
                k <= death_list@.len(),
                coherent(before),
                death_list@.no_duplicates(),
                forall|j: int| 0 <= j < death_list@.len() ==> before.contains_key(#[trigger] death_list@[j]),
                self.well_formed(),
                self@ == after_deaths(before, death_list@.take(k as int).to_set()),
                self.capacity() == old(self).capacity(),
                self.growth() == old(self).growth(),
            decreases death_list@.len() - k,
        {
            let id = death_list[k];
            proof {
                let dead = death_list@.take(k as int).to_set();
                assert(!dead.contains(id)) by {
                    let listed = death_list@.take(k as int);
                    if listed.contains(id) {
                        let j = choose|j: int| 0 <= j < listed.len() && listed[j] == id;
                        assert(death_list@[j] == death_list@[k as int]);
                    }
                }
                lemma_one_more_death(before, dead, id);
                let fewer = death_list@.take(k as int);
                let more = death_list@.take(k + 1);
                assert(more.to_set() =~= dead.insert(id)) by {
                    assert forall|x: u32| more.to_set().contains(x) == dead.insert(id).contains(
                        x,
                    ) by {
                        if more.contains(x) {
                            let j = choose|j: int| 0 <= j < more.len() && more[j] == x;
                            if j < k {
                                assert(fewer[j] == x);
                            }
                        }
                        if dead.contains(x) {
                            let j = choose|j: int| 0 <= j < fewer.len() && fewer[j] == x;
                            assert(more[j] == x);
                        }
                        if x == id {
                            assert(more[k as int] == x);
                        }
                    }
                }
            }
            self.kill_person(id);
            k += 1;
        }
        proof {
            assert(death_list@.take(k as int) =~= death_list@);
        }
    }

    /// Takes the member `id` out; the spouse, if there is one, is widowed.
    pub fn kill_person(&mut self, id: u32)
        requires
            old(self).well_formed(),
            old(self)@.contains_key(id),
        ensures
            final(self).well_formed(),
            final(self)@ == after_death(old(self)@, id),
            final(self).capacity() == old(self).capacity(),
            final(self).growth() == old(self).growth(),
    {
        let ghost before = self@;
        proof {
            lemma_death(before, id);
        }
        let person = self.pop_by_id(id);
        match person.get_spouse() {
            Some(spouse_id) => {
                proof {
                    assert(wed_to(before, id, spouse_id));
                    assert(wed_to(before, spouse_id, id));
                }
                let mut spouse = self.pop_by_id(spouse_id);
                spouse.get_attr_mut().pop_marriage();
                self.add(spouse);
                proof {
                    assert(self@ =~= after_death(before, id));
                }
            },
            None => {},
        }
    }

    /// Whether more than one pregnancy of growth has built up.
    pub fn can_grow(&self) -> (r: bool)
        ensures
            r == (self.growth() > GROWTH_UNIT),
    {
        self.growth_accumulator > GROWTH_UNIT
    }

    /// The logistic growth of one tick in millionths of a pregnancy; `None`
    /// for a capacity of zero, where the growth is no number.
    pub fn calculate_growth(&self) -> (r: Option<i128>)
        ensures
            self.capacity() == 0 ==> r is None,
            self.capacity() > 0 ==> (r matches Some(growth) && growth == logistic_growth(
                self.members().len() as u32,
                self.capacity(),
                GROWTH_RATE,
            )),
    {
        if self.capacity == 0 {
            None
        } else {
            Some(logistic(self.size(), self.capacity, GROWTH_RATE))
        }
    }

    /// Adds the logistic growth of one tick to the growth that has built up.
    pub fn apply_growth(&mut self)
        ensures
            final(self).growth() == old(self).grown(),
            -GROWTH_LIMIT <= final(self).growth() <= GROWTH_LIMIT,
            final(self).members() == old(self).members(),
            final(self).capacity() == old(self).capacity(),
    {
        let total: i128 = match self.calculate_growth() {
            Some(growth) => {
                assert(-0x1_0000_0000_0000_0000_0000_0000 <= growth
                    <= 0x1_0000_0000_0000_0000_0000_0000) by {
                    lemma_growth_bound(self.members().len() as u32, self.capacity(), GROWTH_RATE);
                }
                self.growth_accumulator as i128 + growth
            },
            None => if self.size() > 0 {
                -(GROWTH_LIMIT as i128)
            } else {
                self.growth_accumulator as i128
            },
        };
        if total > GROWTH_LIMIT as i128 {
            self.growth_accumulator = GROWTH_LIMIT;
        } else if total < -(GROWTH_LIMIT as i128) {
            self.growth_accumulator = -GROWTH_LIMIT;
        } else {
            self.growth_accumulator = total as i64;
        }
    }

    /// Adds the growth of one tick to the growth that has built up, and
    /// tries to start a pregnancy for each whole pregnancy above one that has
    /// built up: at a day drawn from the 360 days from `today` on, until an
    /// attempt finds no mother, and for ten attempts at most. Each pregnancy
    /// started takes one pregnancy off the growth. Nothing is started where
    /// no more than one pregnancy has built up or where no woman is without
    /// a pregnancy; one at least is started where the first attempt cannot
    /// fail.
    pub fn handle_growth(&mut self, today: Date, rng: &mut StdRng)
        requires
            old(self).well_formed(),
            Date::representable(today.day_number() + 359 + 279),
        ensures
            final(self).well_formed(),
            final(self).capacity() == old(self).capacity(),
            final(self).members().len() == old(self).members().len(),
            pregnancies_started(
                old(self)@,
                final(self)@,
                today.day_number() + 260,
                today.day_number() + 359 + 280,
            ),
            same_but(old(self)@, final(self)@, Kind::Pregnant),
            forall|a: u32| #[trigger]
                final(self)@.contains_key(a) ==> final(self)@[a].last_name == old(self)@[a].last_name,
            exists|started: int|
                {
                    &&& 0 <= started <= MAX_PREGNANCY_ATTEMPTS
                    &&& final(self).growth() == old(self).grown() - #[trigger] (started
                        * GROWTH_UNIT)
                    &&& count_with(final(self).members(), Kind::Pregnant) == count_with(
                        old(self).members(),
                        Kind::Pregnant,
                    ) + started
                    &&& old(self).grown() > GROWTH_UNIT && conception_is_sure(old(self)@)
                        ==> started >= 1
                },
            old(self).grown() <= GROWTH_UNIT || nobody_may_conceive(old(self)@) ==> final(self).growth() == old(self).grown() && final(self)@ == old(self)@,
    {
        let ghost before = self@;
        let ghost people = self.members();
        let ghost earliest = today.day_number() + 260;
        let ghost latest = today.day_number() + 359 + 280;
        self.apply_growth();
        let mut attempts: u32 = 0;
        let ghost mut started: int = 0;
        proof {
            use_type_invariant(today);
            assert(self.growth() == old(self).grown() - 0 * GROWTH_UNIT);
        }
        while self.can_grow() && attempts < MAX_PREGNANCY_ATTEMPTS
            invariant
                self.well_formed(),
                self.capacity() == old(self).capacity(),
                self.members().len() == old(self).members().len(),
                coherent(before),
                before == old(self)@,
                people == old(self).members(),
                earliest == today.day_number() + 260,
                latest == today.day_number() + 359 + 280,
                today.valid(),
                pregnancies_started(before, self@, earliest, latest),
                0 <= started <= attempts,
                self.growth() == old(self).grown() - started * GROWTH_UNIT,
                count_with(self.members(), Kind::Pregnant) == count_with(people, Kind::Pregnant)
                    + started,
                attempts == 0 ==> self@ == before,
                nobody_may_conceive(before) ==> self@ == before && started == 0,
                old(self).grown() <= GROWTH_UNIT ==> attempts == 0,
                attempts > 0 && conception_is_sure(before) ==> started >= 1,
                Date::representable(today.day_number() + 359 + 279),
                attempts <= MAX_PREGNANCY_ATTEMPTS,
            ensures
                attempts > 0 || self.growth() <= GROWTH_UNIT,
            decreases MAX_PREGNANCY_ATTEMPTS - attempts,
        {
            attempts += 1;
            let ghost now = self@;
            let ghost growth = self.growth();
            let preg_start = today + gen_range(rng, 0, DAYS_PER_YEAR);
            let found = self.random_pregnancy(preg_start, rng);
            proof {
                if self.growth() != growth {
                    started = started + 1;
                    let (mother, tag) = choose|mother: u32, tag: Attribute| #[trigger]
                        conceived(now, mother, tag, preg_start) && self@ == now.insert(
                            mother,
                            expecting(now[mother], tag),
                        ) && self.growth() == growth - GROWTH_UNIT;
                    assert(conceived_between(now, mother, tag, earliest, latest));
                    lemma_one_more_pregnancy(before, now, mother, tag, earliest, latest);
                } else {
                    assert(self@ == now);
                }
            }
            if !found {
                break ;
            }
        }
        proof {
            lemma_pregnancies_started(before, self@, earliest, latest, today);
            assert(0 <= started <= MAX_PREGNANCY_ATTEMPTS && self.growth() == old(self).grown()
                - started * GROWTH_UNIT && count_with(self.members(), Kind::Pregnant)
                == count_with(old(self).members(), Kind::Pregnant) + started && (old(self).grown()
                > GROWTH_UNIT && conception_is_sure(old(self)@) ==> started >= 1));
        }
    }

    /// Tries to start one pregnancy, counted from the day `today`.
    ///
    /// A mother is drawn from the women who are not pregnant: with a chance
    /// of three in five from the married ones alone. Without one, nothing
    /// happens and the answer is `false`. The father is her husband. For an
    /// unmarried mother he is drawn from the men: with a chance of four in
    /// five from all of them, else from the unmarried ones. Without one,
    /// nothing happens, and the answer is `true` all the same. With both,
    /// she becomes pregnant with one child, or with a chance of one in
    /// twenty with two to four, the birth is due 260 to 279 days after
    /// `today`, and one pregnancy is taken off the growth that has built up.
    pub fn random_pregnancy(&mut self, today: Date, rng: &mut StdRng) -> (r: bool)
        requires
            old(self).well_formed(),
            Date::representable(today.day_number() + 279),
        ensures
            ids_unique(final(self).members()),
            coherent(final(self)@),
            old(self).growth() >= GROWTH_UNIT - GROWTH_LIMIT ==> final(self).well_formed(),
            final(self).capacity() == old(self).capacity(),
            final(self).members().len() == old(self).members().len(),
            same_but(old(self)@, final(self)@, Kind::Pregnant),
            (forall|a: u32| #[trigger]
                old(self)@.contains_key(a) ==> !(has_kind(old(self)@[a].tags, Kind::Female)
                    && !has_kind(old(self)@[a].tags, Kind::Pregnant))) ==> !r,
            !r ==> forall|a: u32| #[trigger]
                old(self)@.contains_key(a) ==> !(has_kind(old(self)@[a].tags, Kind::Female)
                    && has_kind(old(self)@[a].tags, Kind::Married) && !has_kind(
                    old(self)@[a].tags,
                    Kind::Pregnant,
                )),
            !r ==> final(self)@ == old(self)@ && final(self).growth() == old(self).growth(),
            r && final(self).growth() == old(self).growth() ==> (exists|a: u32| #[trigger]
                old(self)@.contains_key(a) && has_kind(old(self)@[a].tags, Kind::Female)
                    && !has_kind(old(self)@[a].tags, Kind::Pregnant) && !has_kind(
                    old(self)@[a].tags,
                    Kind::Married,
                )) && (forall|a: u32| #[trigger]
                old(self)@.contains_key(a) ==> !(has_kind(old(self)@[a].tags, Kind::Male)
                    && !has_kind(old(self)@[a].tags, Kind::Married))),
            r ==> (final(self)@ == old(self)@ && final(self).growth() == old(self).growth())
                || exists|mother: u32, tag: Attribute| #[trigger]
                conceived(old(self)@, mother, tag, today) && final(self)@ == old(self)@.insert(
                    mother,
                    expecting(old(self)@[mother], tag),
                ) && final(self).growth() == old(self).growth() - GROWTH_UNIT,
            count_with(final(self).members(), Kind::Pregnant) == count_with(
                old(self).members(),
                Kind::Pregnant,
            ) + if final(self).growth() == old(self).growth() {
                0nat
            } else {
                1nat
            },
    {
        let strict = gen_ratio(rng, 3, 5);
        let wanted_mother = if strict {
            AttributeList::builder().set_female().set_married().build()
        } else {
            AttributeList::builder().set_female().build()
        };
        let unwanted_mother = AttributeList::builder().set_pregnant().build();
        let wanted_father = AttributeList::builder().set_male().build();
        let any_man = gen_ratio(rng, 4, 5);
        let unwanted_father = if any_man {
            AttributeList::default()
        } else {
            AttributeList::builder().set_married().build()
        };
        let ghost before = self@;
        let ghost people = self.members();
        proof {
            if strict {
                assert(wanted_mother@ =~= seq![Attribute::Female, Attribute::Married(0)]);
            } else {
                assert(wanted_mother@ =~= seq![Attribute::Female]);
            }
            assert(unwanted_mother@ =~= seq![unwanted_mother@[0]]);
            assert(unwanted_mother@[0].kind() == Kind::Pregnant);
            assert(wanted_father@ =~= seq![Attribute::Male]);
            lemma_any_eligible(people, wanted_mother@, unwanted_mother@);
            assert forall|a: u32| #[trigger] before.contains_key(a) implies meets(
                before[a].tags,
                wanted_mother@,
                unwanted_mother@,
            ) == (has_kind(before[a].tags, Kind::Female) && (strict ==> has_kind(
                before[a].tags,
                Kind::Married,
            )) && !has_kind(before[a].tags, Kind::Pregnant)) by {
                lemma_meets_two(
                    before[a].tags,
                    Attribute::Female,
                    Attribute::Married(0),
                    unwanted_mother@[0],
                );
                lemma_meets_one(before[a].tags, Attribute::Female, unwanted_mother@[0]);
            }
            assert(same_but(before, before, Kind::Pregnant));
        }
        let opt_mother = self.pop_random_by_attribute_list(&wanted_mother, &unwanted_mother, rng);
        match opt_mother {
            Some(mother) => {
                let ghost m = mother@.id;
                let ghost others = self.members();
                proof {
                    let i = choose|i: int|
                        eligible(people, wanted_mother@, unwanted_mother@, i) && people[i] == mother
                            && others == without_place(people, i);
                    lemma_count_without_place(people, i, Kind::Pregnant);
                    lemma_meets_two(
                        mother@.tags,
                        Attribute::Female,
                        Attribute::Married(0),
                        unwanted_mother@[0],
                    );
                    lemma_meets_one(mother@.tags, Attribute::Female, unwanted_mother@[0]);
                    lemma_spouse(mother@.tags);
                }
                let opt_father: Option<u32> = match mother.get_spouse() {
                    Some(spouse_id) => {
                        proof {
                            assert(wed_to(before, m, spouse_id));
                            assert(wed_to(before, spouse_id, m));
                        }
                        match self.get_by_id(spouse_id) {
                            Some(father) => Some(father.get_id()),
                            None => None,
                        }
                    },
                    None => match self.get_random_by_attribute_list(
                        &wanted_father,
                        &unwanted_father,
                        rng,
                    ) {
                        Some(father) => {
                            proof {
                                let i = choose|i: int|
                                    eligible(others, wanted_father@, unwanted_father@, i)
                                        && others[i] == *father;
                                lemma_roster_at(others, i);
                                assert(wanted_father@[0] == Attribute::Male);
                            }
                            Some(father.get_id())
                        },
                        None => {
                            proof {
                                lemma_any_eligible(others, wanted_father@, unwanted_father@);
                                if !any_man {
                                    assert(unwanted_father@ =~= seq![Attribute::Married(0)]);
                                }
                                assert forall|a: u32| #[trigger] before.contains_key(a) implies !(
                                has_kind(before[a].tags, Kind::Male) && !has_kind(
                                    before[a].tags,
                                    Kind::Married,
                                )) by {
                                    lemma_meets_one(
                                        before[a].tags,
                                        Attribute::Male,
                                        Attribute::Married(0),
                                    );
                                    if a != m {
                                        assert(roster(others).contains_key(a));
                                        assert(!meets(
                                            roster(others)[a].tags,
                                            wanted_father@,
                                            unwanted_father@,
                                        ));
                                    }
                                }
                                assert(before.contains_key(m));
                            }
                            None
                        },
                    },
                };
                match opt_father {
                    Some(father_id) => {
                        let birthday = today + gen_range(
                            rng,
                            PREGNANCY_LENGTH - 10,
                            PREGNANCY_LENGTH + 10,
                        );
                        let count: u32 = if gen_ratio(rng, 1, 20) {
                            gen_range(rng, 2, 5)
                        } else {
                            1
                        };
                        let ghost tag = Attribute::Pregnant {
                            father_id: father_id,
                            birth: birthday,
                            count: count,
                        };
                        proof {
                            lemma_conception(before, m, tag);
                        }
                        self.conceive(mother, father_id, birthday, count);
                        proof {
                            assert(self@ =~= before.insert(m, expecting(before[m], tag)));
                            assert(conceived(before, m, tag, today));
                        }
                        true
                    },
                    None => {
                        proof {
                            lemma_count_push(others, mother, Kind::Pregnant);
                        }
                        self.add(mother);
                        proof {
                            assert(self@ =~= before);
                        }
                        true
                    },
                }
            },
            None => false,
        }
    }

    /// Makes `mother`, who is no member at the moment, pregnant and a member
    /// again, and takes one pregnancy off the growth that has built up.
    pub fn conceive(&mut self, mother: Person, father_id: u32, birth: Date, count: u32)
        requires
            old(self).growth() - GROWTH_UNIT >= i64::MIN,
        ensures
            final(self).members().len() == old(self).members().len() + 1,
            final(self).members().drop_last() == old(self).members(),
            final(self).members().last()@ == expecting(
                mother@,
                Attribute::Pregnant { father_id: father_id, birth: birth, count: count },
            ),
            final(self).growth() == old(self).growth() - GROWTH_UNIT,
            final(self).capacity() == old(self).capacity(),
            ids_unique(old(self).members()) && !old(self)@.contains_key(mother@.id) ==> ids_unique(
                final(self).members(),
            ) && final(self)@ == old(self)@.insert(
                mother@.id,
                expecting(
                    mother@,
                    Attribute::Pregnant { father_id: father_id, birth: birth, count: count },
                ),
            ),
            count_with(final(self).members(), Kind::Pregnant) == count_with(
                old(self).members(),
                Kind::Pregnant,
            ) + 1,
    {
        let mut mother = mother;
        mother.get_attr_mut().set_pregnant(father_id, birth, count);
        proof {
            assert(self.members().push(mother).drop_last() =~= self.members());
            lemma_count_push(self.members(), mother, Kind::Pregnant);
        }
        self.add(mother);
        self.growth_accumulator -= GROWTH_UNIT;
    }

    /// Sets the fertility of every member by the age on the day `today`:
    /// gained from 14 up to 40, lost from 40 on.
    pub fn handle_fertility(&mut self, today: Date)
        requires
            old(self).well_formed(),
            born_by(old(self)@, today),
        ensures
            final(self).well_formed(),
            born_by(final(self)@, today),
            final(self).members().len() == old(self).members().len(),
            forall|i: int|
                0 <= i < final(self).members().len() ==> (#[trigger] final(self).members()[i])@
                    == matured(old(self).members()[i]@, today),
            final(self)@.dom() == old(self)@.dom(),
            forall|a: u32| #[trigger]
                final(self)@.contains_key(a) ==> final(self)@[a] == matured(old(self)@[a], today)
                    && fertile_as_aged(final(self)@[a], today) && final(self)@[a].last_name == old(self)@[a].last_name && has_kind(final(self)@[a].tags, Kind::Fertile) == fertile_after(
                    has_kind(old(self)@[a].tags, Kind::Fertile),
                    old(self)@[a].birthday,
                    today,
                ),
            same_but(old(self)@, final(self)@, Kind::Fertile),
            final(self).capacity() == old(self).capacity(),
            final(self).growth() == old(self).growth(),
    {
        let ghost before = self.members();
        self.handle_fertility_gain(today);
        proof {
            assert forall|i: int| 0 <= i < self.members().len() implies (
            #[trigger] self.members()[i])@.birthday.not_after(today) by {
                lemma_roster_at(before, i);
                assert(self.members()[i]@ == gained(before[i]@, today));
            }
        }
        self.handle_fertility_lose(today);
        proof {
            let after = self.members();
            lemma_roster_pointwise(before, after);
            assert forall|a: u32| #[trigger] self@.contains_key(a) implies self@[a] == matured(
                old(self)@[a],
                today,
            ) && fertile_as_aged(self@[a], today) && same_person_but(
                old(self)@[a],
                self@[a],
                Kind::Fertile,
            ) && consistent(self@[a].tags) && self@[a].birthday.not_after(today)
                && self@[a].last_name == old(self)@[a].last_name && has_kind(
                self@[a].tags,
                Kind::Fertile,
            ) == fertile_after(
                has_kind(old(self)@[a].tags, Kind::Fertile),
                old(self)@[a].birthday,
                today,
            ) by {
                let k = place_of(before, a);
                assert(after[k]@ == matured(before[k]@, today));
                lemma_matured(old(self)@[a], today);
            }
            lemma_coherent_same_but(old(self)@, self@, Kind::Fertile);
        }
    }

    /// Gives every member between 14 and 40 who lacks it a `Fertile` tag.
    fn handle_fertility_gain(&mut self, today: Date)
        requires
            ids_unique(old(self).members()),
            born_by(old(self)@, today),
        ensures
            final(self).members().len() == old(self).members().len(),
            forall|i: int|
                0 <= i < final(self).members().len() ==> (#[trigger] final(self).members()[i])@
                    == gained(old(self).members()[i]@, today),
            final(self).capacity() == old(self).capacity(),
            final(self).growth() == old(self).growth(),
    {
        let ghost before = self.members();
        let mut i: usize = 0;
        while i < self.population.len()
            invariant
                i <= self.population@.len(),
                self.population@.len() == before.len(),
                ids_unique(before),
                born_by(roster(before), today),
                forall|j: int| 0 <= j < i ==> (#[trigger] self.population@[j])@ == gained(before[j]@, today),
                forall|j: int| i <= j < before.len() ==> #[trigger] self.population@[j] == before[j],
                self.capacity == old(self).capacity,
                self.growth_accumulator == old(self).growth_accumulator,
            decreases self.population@.len() - i,
        {
            proof {
                lemma_roster_at(before, i as int);
            }
            if !self.population[i].get_attr().is_fertile() {
                let age = self.population[i].get_age(&today);
                if age >= 14 && age < 40 {
                    self.population[i].get_attr_mut().set_fertile();
                }
            }
            i += 1;
        }
    }

    /// Takes the `Fertile` tag from every member of 40 or more.
    fn handle_fertility_lose(&mut self, today: Date)
        requires
            forall|i: int|
                0 <= i < old(self).members().len() ==> (#[trigger] old(self).members()[i])@.birthday.not_after(today),
        ensures
            final(self).members().len() == old(self).members().len(),
            forall|i: int|
                0 <= i < final(self).members().len() ==> (#[trigger] final(self).members()[i])@
                    == lost(old(self).members()[i]@, today),
            final(self).capacity() == old(self).capacity(),
            final(self).growth() == old(self).growth(),
    {
        let ghost before = self.members();
        let mut i: usize = 0;
        while i < self.population.len()
            invariant
                i <= self.population@.len(),
                self.population@.len() == before.len(),
                forall|j: int| 0 <= j < before.len() ==> (#[trigger] before[j])@.birthday.not_after(today),
                forall|j: int| 0 <= j < i ==> (#[trigger] self.population@[j])@ == lost(before[j]@, today),
                forall|j: int| i <= j < before.len() ==> #[trigger] self.population@[j] == before[j],
                self.capacity == old(self).capacity,
                self.growth_accumulator == old(self).growth_accumulator,
            decreases self.population@.len() - i,
        {
            if self.population[i].get_attr().is_fertile() {
                if self.population[i].get_age(&today) >= 40 {
                    self.population[i].get_attr_mut().clear_fertile();
                }
            }
            i += 1;
        }
    }

    /// Weds drawn pairs while fewer than two in three of the members are
    /// married, until three attempts in a row have found no pair.
    pub fn handle_marriages(&mut self, rng: &mut StdRng)
        requires
            old(self).well_formed(),
        ensures
            final(self).well_formed(),
            final(self).capacity() == old(self).capacity(),
            final(self).growth() == old(self).growth(),
            final(self).members().len() == old(self).members().len(),
            same_but(old(self)@, final(self)@, Kind::Married),
            count_with(final(self).members(), Kind::Married) >= count_with(
                old(self).members(),
                Kind::Married,
            ),
            count_with(final(self).members(), Kind::Married) * 3 >= 2 * final(self).members().len()
                || !pair_ready(final(self)@),
            count_with(old(self).members(), Kind::Married) * 3 >= 2 * old(self).members().len()
                || !pair_ready(old(self)@) ==> final(self)@ == old(self)@,
    {
        let ghost before = self@;
        let mut fails: u32 = 0;
        proof {
            assert(same_but(before, before, Kind::Married));
        }
        while self.marriages_below(2, 3) && fails < MAX_MARRIAGE_FAILS
            invariant
                fails > 0 ==> !pair_ready(self@),
                count_with(old(self).members(), Kind::Married) * 3 >= 2 * old(self).members().len()
                    || !pair_ready(old(self)@) ==> self@ == old(self)@ && self.members().len()
                    == old(self).members().len() && count_with(self.members(), Kind::Married)
                    == count_with(old(self).members(), Kind::Married),
                before == old(self)@,
                self.well_formed(),
                self.capacity() == old(self).capacity(),
                self.growth() == old(self).growth(),
                self.members().len() == old(self).members().len(),
                same_but(before, self@, Kind::Married),
                count_with(self.members(), Kind::Married) >= count_with(
                    old(self).members(),
                    Kind::Married,
                ),
                fails <= MAX_MARRIAGE_FAILS,
            decreases
                    self.members().len() - count_with(self.members(), Kind::Married),
                    MAX_MARRIAGE_FAILS - fails,
        {
            let ghost now = self@;
            proof {
                lemma_count_bound(self.members(), Kind::Married);
            }
            if self.random_marriage(rng) {
                fails = 0;
            } else {
                fails += 1;
            }
            proof {
                lemma_same_but_twice(before, now, self@, Kind::Married);
                lemma_count_bound(self.members(), Kind::Married);
            }
        }
    }

    /// Whether fewer than `numerator` in `denominator` of the members are
    /// married.
    fn marriages_below(&self, numerator: u32, denominator: u32) -> (r: bool)
        ensures
            r == (count_with(self.members(), Kind::Married) * denominator < numerator
                * self.members().len()),
    {
        let ratio = self.get_marriage_ratio();
        assert(ratio.0 * denominator <= 0xffff_ffff_ffff_ffff * 0xffff_ffff) by (nonlinear_arith)
            requires
                ratio.0 <= 0xffff_ffff_ffff_ffff,
                denominator <= 0xffff_ffff,
        ;
        assert(numerator * ratio.1 <= 0xffff_ffff * 0xffff_ffff_ffff_ffff) by (nonlinear_arith)
            requires
                ratio.1 <= 0xffff_ffff_ffff_ffff,
                numerator <= 0xffff_ffff,
        ;
        (ratio.0 as u128) * (denominator as u128) < (numerator as u128) * (ratio.1 as u128)
    }

    /// Weds a drawn groom to a drawn bride, where the members hold both: a
    /// fertile man and a fertile woman, neither of them married. Tells
    /// whether there was a wedding; without one the members are who they
    /// were.
    pub fn random_marriage(&mut self, rng: &mut StdRng) -> (r: bool)
        requires
            old(self).well_formed(),
        ensures
            final(self).well_formed(),
            final(self).capacity() == old(self).capacity(),
            final(self).growth() == old(self).growth(),
            final(self).members().len() == old(self).members().len(),
            r == pair_ready(old(self)@),
            !r ==> final(self)@ == old(self)@,
            r ==> exists|g: u32, b: u32|
                {
                    &&& #[trigger] old(self)@.contains_key(g) && #[trigger] old(self)@.contains_key(b)
                    &&& groom_ready(old(self)@[g])
                    &&& bride_ready(old(self)@[b])
                    &&& final(self)@ == old(self)@.insert(
                        g,
                        husband(old(self)@[g], old(self)@[b]),
                    ).insert(b, wife(old(self)@[b], old(self)@[g]))
                },
            same_but_marriages(old(self)@, final(self)@),
            count_with(final(self).members(), Kind::Married) == count_with(
                old(self).members(),
                Kind::Married,
            ) + if r {
                2nat
            } else {
                0nat
            },
    {
        let wanted_male = AttributeList::builder().set_male().set_fertile().build();
        let wanted_female = AttributeList::builder().set_female().set_fertile().build();
        let unwanted = AttributeList::builder().set_married().build();
        let ghost before = self@;
        let ghost people = self.members();
        proof {
            assert(wanted_male@ =~= seq![Attribute::Male, Attribute::Fertile]);
            assert(wanted_female@ =~= seq![Attribute::Female, Attribute::Fertile]);
            assert(unwanted@ =~= seq![Attribute::Married(0)]);
            lemma_any_eligible(people, wanted_male@, unwanted@);
            assert forall|a: u32| #[trigger] before.contains_key(a) implies (groom_ready(before[a])
                == meets(before[a].tags, wanted_male@, unwanted@)) && (bride_ready(before[a])
                == meets(before[a].tags, wanted_female@, unwanted@)) by {
                lemma_meets_two(
                    before[a].tags,
                    Attribute::Male,
                    Attribute::Fertile,
                    Attribute::Married(0),
                );
                lemma_meets_two(
                    before[a].tags,
                    Attribute::Female,
                    Attribute::Fertile,
                    Attribute::Married(0),
                );
            }
        }
        match self.pop_random_by_attribute_list(&wanted_male, &unwanted, rng) {
            Some(groom) => {
                let ghost g = groom@.id;
                let ghost bachelors = self.members();
                proof {
                    let i = choose|i: int|
                        eligible(people, wanted_male@, unwanted@, i) && people[i] == groom
                            && bachelors == without_place(people, i);
                    lemma_count_without_place(people, i, Kind::Married);
                    lemma_meets_two(
                        groom@.tags,
                        Attribute::Male,
                        Attribute::Fertile,
                        Attribute::Married(0),
                    );
                    lemma_any_eligible(bachelors, wanted_female@, unwanted@);
                    assert(before.contains_key(g) && groom_ready(before[g]));
                    assert(!bride_ready(before[g]));
                }
                match self.pop_random_by_attribute_list(&wanted_female, &unwanted, rng) {
                    Some(bride) => {
                        let ghost b = bride@.id;
                        let ghost rest = self.members();
                        proof {
                            let k = choose|k: int|
                                eligible(bachelors, wanted_female@, unwanted@, k) && bachelors[k]
                                    == bride && rest == without_place(bachelors, k);
                            lemma_count_without_place(bachelors, k, Kind::Married);
                            lemma_meets_two(
                                bride@.tags,
                                Attribute::Female,
                                Attribute::Fertile,
                                Attribute::Married(0),
                            );
                            assert(before.contains_key(b) && bride_ready(before[b]));
                            lemma_wedding(before, g, b);
                        }
                        self.marry(groom, bride);
                        proof {
                            assert(self@ =~= before.insert(g, husband(before[g], before[b])).insert(
                                b,
                                wife(before[b], before[g]),
                            ));
                        }
                        true
                    },
                    None => {
                        proof {
                            lemma_count_push(bachelors, groom, Kind::Married);
                            assert forall|c: u32| #[trigger] before.contains_key(c) implies !bride_ready(
                                before[c],
                            ) by {
                                if c != g {
                                    assert(roster(bachelors).contains_key(c));
                                }
                            }
                        }
                        self.add(groom);
                        proof {
                            assert(self@ =~= before);
                        }
                        false
                    },
                }
            },
            None => {
                proof {
                    assert forall|c: u32| #[trigger] before.contains_key(c) implies !groom_ready(
                        before[c],
                    ) by {}
                }
                false
            },
        }
    }

    /// Weds a groom and a bride who are no members yet: each gets a `Married`
    /// tag that names the other, the bride gets the last name of the groom,
    /// and both become members, the groom first.
    pub fn marry(&mut self, groom: Person, bride: Person)
        ensures
            final(self).members().len() == old(self).members().len() + 2,
            final(self).members().take(old(self).members().len() as int) == old(self).members(),
            final(self).members()[old(self).members().len() as int]@ == husband(groom@, bride@),
            final(self).members()[old(self).members().len() as int + 1]@ == wife(bride@, groom@),
            final(self).capacity() == old(self).capacity(),
            final(self).growth() == old(self).growth(),
            ids_unique(old(self).members()) && !old(self)@.contains_key(groom@.id) && !old(self)@.contains_key(bride@.id) && groom@.id != bride@.id ==> ids_unique(
                final(self).members(),
            ) && final(self)@ == old(self)@.insert(groom@.id, husband(groom@, bride@)).insert(
                bride@.id,
                wife(bride@, groom@),
            ),
            count_with(final(self).members(), Kind::Married) == count_with(
                old(self).members(),
                Kind::Married,
            ) + 2,
    {
        let ghost groom_before = groom@;
        let ghost bride_before = bride@;
        let mut man = groom;
        let mut woman = bride;
        man.get_attr_mut().set_married(woman.get_id());
        woman.get_attr_mut().set_married(man.get_id());
        woman.set_last_name(man.get_last_name());
        proof {
            lemma_push(
                without_kind(groom_before.tags, Kind::Married),
                Attribute::Married(bride_before.id),
                Kind::Married,
            );
            lemma_push(
                without_kind(bride_before.tags, Kind::Married),
                Attribute::Married(groom_before.id),
                Kind::Married,
            );
            lemma_count_push(self.members(), man, Kind::Married);
            lemma_count_push(self.members().push(man), woman, Kind::Married);
            if ids_unique(self.members()) && !self@.contains_key(man@.id) && !self@.contains_key(
                woman@.id,
            ) && man@.id != woman@.id {
                lemma_roster_push(self.members(), man);
                lemma_roster_push(self.members().push(man), woman);
            }
            assert(self.members().push(man).push(woman).take(self.members().len() as int)
                =~= self.members());
        }
        self.add(man);
        self.add(woman);
    }

    /// Whether the population is well formed.
    pub fn is_well_formed(&self) -> (r: bool)
        ensures
            r == self.well_formed(),
    {
        if self.growth_accumulator < -GROWTH_LIMIT || self.growth_accumulator > GROWTH_LIMIT {
            return false;
        }
        let size = self.population.len();
        let mut i: usize = 0;
        while i < size
            invariant
                i <= size,
                size == self.population@.len(),
                forall|a: int, b: int|
                    0 <= a < i && a < b < size ==> (#[trigger] self.population@[a])@.id != (
                    #[trigger] self.population@[b])@.id,
            decreases size - i,
        {
            let id = self.population[i].get_id();
            let mut j: usize = i + 1;
            while j < size
                invariant
                    i < j <= size,
                    size == self.population@.len(),
                    id == self.population@[i as int]@.id,
                    forall|b: int| i < b < j ==> (#[trigger] self.population@[b])@.id != id,
                decreases size - j,
            {
                if self.population[j].get_id() == id {
                    proof {
                        assert(self.members()[i as int]@.id == self.members()[j as int]@.id);
                    }
                    return false;
                }
                j += 1;
            }
            i += 1;
        }
        proof {
            assert forall|a: int, b: int|
                0 <= a < self.members().len() && 0 <= b < self.members().len() && a != b implies (
            #[trigger] self.members()[a])@.id != (#[trigger] self.members()[b])@.id by {
                if a < b {
                    assert(self.population@[a]@.id != self.population@[b]@.id);
                } else {
                    assert(self.population@[b]@.id != self.population@[a]@.id);
                }
            }
            lemma_coherent_by_place(self.members());
        }
        let mut k: usize = 0;
        while k < size
            invariant
                k <= size,
                size == self.population@.len(),
                ids_unique(self.members()),
                forall|i: int| 0 <= i < k ==> #[trigger] coherent_at(self.members(), i),
            decreases size - k,
        {
            let person = &self.population[k];
            if !person.get_attr().is_consistent() {
                proof {
                    lemma_coherent_by_place(self.members());
                    assert(!coherent_at(self.members(), k as int));
                }
                return false;
            }
            match person.get_spouse() {
                Some(spouse_id) => {
                    if spouse_id == person.get_id() {
                        proof {
                            lemma_coherent_by_place(self.members());
                            assert(!coherent_at(self.members(), k as int));
                        }
                        return false;
                    }
                    match self.get_by_id(spouse_id) {
                        Some(spouse) => {
                            let back = spouse.get_spouse();
                            if back != Some(person.get_id()) {
                                proof {
                                    lemma_coherent_by_place(self.members());
                                    assert(!coherent_at(self.members(), k as int));
                                }
                                return false;
                            }
                        },
                        None => {
                            proof {
                                lemma_coherent_by_place(self.members());
                                assert(!coherent_at(self.members(), k as int));
                            }
                            return false;
                        },
                    }
                },
                None => {},
            }
            k += 1;
        }
        proof {
            lemma_coherent_by_place(self.members());
        }
        true
    }

    /// Whether every member was born on the day `today` or before.
    pub fn is_born_by(&self, today: Date) -> (r: bool)
        ensures
            ids_unique(self.members()) ==> r == born_by(self@, today),
            r == forall|i: int|
                0 <= i < self.members().len() ==> (#[trigger] self.members()[i])@.birthday.not_after(today),
    {
        let mut i: usize = 0;
        while i < self.population.len()
            invariant
                i <= self.population@.len(),
                forall|j: int| 0 <= j < i ==> (#[trigger] self.population@[j])@.birthday.not_after(today),
            decreases self.population@.len() - i,
        {
            if !self.population[i].is_born_by(&today) {
                proof {
                    if ids_unique(self.members()) {
                        lemma_roster_at(self.members(), i as int);
                    }
                }
                return false;
            }
            i += 1;
        }
        proof {
            if ids_unique(self.members()) {
                assert forall|a: u32| #[trigger] self@.contains_key(a) implies self@[a].birthday.not_after(
                    today,
                ) by {
                    lemma_roster_member(self.members(), a);
                }
            }
        }
        true
    }

    /// Whether every member has an id below `next_id`.
    pub fn has_ids_below(&self, next_id: u32) -> (r: bool)
        ensures
            r == ids_below(self@, next_id),
    {
        let mut i: usize = 0;
        while i < self.population.len()
            invariant
                i <= self.population@.len(),
                forall|j: int| 0 <= j < i ==> (#[trigger] self.population@[j])@.id < next_id,
            decreases self.population@.len() - i,
        {
            if self.population[i].get_id() >= next_id {
                proof {
                    assert(has_id(self.members(), self.population@[i as int]@.id));
                    assert(self@.contains_key(self.population@[i as int]@.id));
                }
                return false;
            }
            i += 1;
        }
        proof {
            assert forall|a: u32| #[trigger] self@.contains_key(a) implies a < next_id by {
                lemma_roster_member(self.members(), a);
            }
        }
        true
    }

    /// How many children the members bear on the day `today`.
    pub fn count_pending_births(&self, today: Date) -> (r: u128)
        ensures
            r == pending_births(self.members(), today),
    {
        let mut total: u128 = 0;
        let mut i: usize = 0;
        while i < self.population.len()
            invariant
                i <= self.population@.len(),
                total == pending_births(self.population@.take(i as int), today),
                total <= i * 0xffff_ffff,
            decreases self.population@.len() - i,
        {
            proof {
                lemma_pending_step(self.population@, i as int, today);
                lemma_pending_bound(self.population@.take(i + 1), today);
            }
            match self.population[i].get_attr().get_pregnancy() {
                Some(Attribute::Pregnant { father_id, birth, count }) => {
                    if birth <= today {
                        total += count as u128;
                    }
                },
                _ => {},
            }
            i += 1;
        }
        proof {
            assert(self.population@.take(i as int) =~= self.population@);
        }
        total
    }

    /// Whether a tick on the day `today`, with new people from `generator`,
    /// can be made: the population is well formed, nobody was born after
    /// `today`, every id lies below the next id of the generator, the ids
    /// for the children that are due can be counted in 32 bits, and so can
    /// the year of a day 638 days after `today`.
    pub fn can_update(&self, today: Date, generator: &PersonGenerator) -> (r: bool)
        ensures
            r == (self.well_formed() && born_by(self@, today) && ids_below(
                self@,
                generator.next_id(),
            ) && generator.next_id() + pending_births(self.members(), today) <= u32::MAX
                && Date::representable(today.day_number() + 359 + 279)),
    {
        self.is_well_formed() && self.is_born_by(today) && self.has_ids_below(
            generator.get_next_id(),
        ) && self.count_pending_births(today) <= (u32::MAX - generator.get_next_id()) as u128
            && today.get_day_number() + 638 < 360 * 0x1_0000_0000
    }
}

impl Clone for Population {
    /// A population of the same people at the same places, with the same
    /// capacity and growth: a value of its own, to be advanced while this
    /// one stays as it is.
    fn clone(&self) -> (r: Population)
        ensures
            same_people(self.members(), r.members()),
            r.capacity() == self.capacity(),
            r.growth() == self.growth(),
            ids_unique(self.members()) ==> r@ == self@,
            r.well_formed() == self.well_formed(),
    {
        let population = self.population.clone();
        proof {
            assert forall|i: int| 0 <= i < self.population@.len() implies (
            #[trigger] self.population@[i])@ == population@[i]@ by {
                assert(cloned(self.population@[i], population@[i]));
            }
            lemma_same_people(self.population@, population@, Date::start(), Kind::Male);
        }
        Population {
            population: population,
            capacity: self.capacity,
            growth_accumulator: self.growth_accumulator,
        }
    }
}

impl Default for Population {
    /// Nobody, room for fifty, and no growth built up.
    fn default() -> (r: Population)
        ensures
            r.members() == Seq::<Person>::empty(),
            r.capacity() == 50,
            r.growth() == 0,
            r.well_formed(),
    {
        Population { population: Vec::new(), capacity: 50, growth_accumulator: 0 }
    }
}

} // verus!
