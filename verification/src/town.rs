use vstd::prelude::*;
use rand::rngs::StdRng;
use crate::person::attribute::Kind;
use crate::person::person::PersonView;
use crate::person::roster::born_by;
use crate::person::roster::ids_below;
use crate::person::roster::ids_unique;
use crate::person::roster::lemma_same_people;
use crate::person::population::lemma_after_tick_earlier;
use crate::person::roster::pending_births;
use crate::person::roster::same_people;
use crate::person::PersonGenerator;
use crate::person::Population;
use crate::random::copy_rng;
use crate::random::derive_rng;
use crate::random::gen_range;
use crate::utility::text::decimal;
use crate::utility::text::decimal_text;
use crate::utility::Date;
use crate::utility::DAYS_PER_YEAR;

verus! {

/// The days that must follow a day for a tick to be made on it: a pregnancy
/// may start up to 359 days later and be due up to 279 days after that.
pub const DAYS_AHEAD: u32 = 638;

/// A settlement: its name, the day that it lives in, its people, and a
/// generator of its own.
pub struct Town {
    rng: StdRng,
    name: String,
    date: Date,
    population: Population,
}

impl Town {
    pub closed spec fn name(&self) -> Seq<char> {
        self.name@
    }

    pub closed spec fn date(&self) -> Date {
        self.date
    }

    pub closed spec fn population(&self) -> Population {
        self.population
    }

    /// What holds of a town between years: the population is well formed
    /// and nobody was born after the day that the town lives in.
    pub open spec fn well_formed(&self) -> bool {
        &&& self.date().valid()
        &&& self.population().well_formed()
        &&& born_by(self.population()@, self.date())
    }

    /// Whether the town can be advanced by a year, with new people from
    /// `generator`: it is well formed, every id lies below the next id of
    /// the generator, the ids for the children that are due by then can be
    /// counted in 32 bits, and so can the years of the days ahead.
    pub open spec fn can_progress(&self, generator: &PersonGenerator) -> bool {
        &&& self.well_formed()
        &&& Date::representable(self.date().day_number() + DAYS_PER_YEAR + DAYS_AHEAD)
        &&& ids_below(self.population()@, generator.next_id())
        &&& generator.next_id() + pending_births(
            self.population().members(),
            self.date().days_after(DAYS_PER_YEAR),
        ) <= u32::MAX
    }

    /// What a town is after a year, whatever was drawn: the same name, a
    /// year later; well formed; and its population what a tick on the new
    /// day leaves of the population of before.
    pub open spec fn a_year_after(&self, before: &Town, first_new_id: u32) -> bool {
        &&& self.well_formed()
        &&& self.name() == before.name()
        &&& self.date() == before.date().days_after(DAYS_PER_YEAR)
        &&& self.population().after_tick(before.population(), self.date(), first_new_id)
    }

    /// A new town on the day `date`: ten to nineteen people, room for twice
    /// to five times as many, and two or three more attempts to wed a pair.
    /// The town draws from a generator of its own, seeded from `rng`.
    pub fn found(name: &str, date: Date, person_generator: &mut PersonGenerator, rng: &mut StdRng) -> (r: Town)
        requires
            old(person_generator).next_id() + 19 <= u32::MAX,
            40 * 360 <= date.day_number() + 1,
        ensures
            r.well_formed(),
            r.name() == name@,
            r.date() == date,
            10 <= r.population().members().len() < 20,
            2 * r.population().members().len() <= r.population().capacity() < 5
                * r.population().members().len(),
            r.population().growth() == 0,
            ids_below(r.population()@, final(person_generator).next_id()),
            final(person_generator).next_id() == old(person_generator).next_id()
                + r.population().members().len(),
            old(person_generator).same_pools(final(person_generator)),
    {
        let mut local_rng = derive_rng(rng);
        let initial_pop_size: u32 = gen_range(&mut local_rng, 10, 20);
        let capacity: u32 = gen_range(&mut local_rng, initial_pop_size * 2, initial_pop_size * 5);
        let mut population = Population::new(
            initial_pop_size,
            capacity,
            date,
            person_generator,
            &mut local_rng,
        );
        let marriage_count: u32 = gen_range(&mut local_rng, 2, 4);
        let mut attempt: u32 = 0;
        proof {
            use_type_invariant(date);
        }
        while attempt < marriage_count
            invariant
                population.well_formed(),
                born_by(population@, date),
                ids_below(population@, person_generator.next_id()),
                population.members().len() == initial_pop_size,
                population.capacity() == capacity,
                population.growth() == 0,
            decreases marriage_count - attempt,
        {
            population.random_marriage(&mut local_rng);
            attempt += 1;
        }
        Town { rng: local_rng, name: name.to_owned(), date: date, population: population }
    }

    /// Whether the town is well formed.
    pub fn is_well_formed(&self) -> (r: bool)
        ensures
            r == self.well_formed(),
    {
        proof {
            use_type_invariant(self.date);
        }
        self.population.is_well_formed() && self.population.is_born_by(self.date)
    }

    /// Whether the town can be advanced by a year.
    pub fn can_progress_year(&self, person_generator: &PersonGenerator) -> (r: bool)
        ensures
            r == self.can_progress(person_generator),
    {
        proof {
            use_type_invariant(self.date);
        }
        if self.date.get_day_number() + (DAYS_PER_YEAR as u64) + (DAYS_AHEAD as u64) >= 360
            * 0x1_0000_0000 {
            return false;
        }
        let next = self.date + DAYS_PER_YEAR;
        self.is_well_formed() && self.population.has_ids_below(person_generator.get_next_id())
            && self.population.count_pending_births(next) <= (u32::MAX
            - person_generator.get_next_id()) as u128
    }

    /// The town a year later: a copy of this town that has been advanced by
    /// 360 days and has lived through one tick on the new day. This town
    /// stays as it is.
    pub fn progress_year(&self, person_generator: &mut PersonGenerator) -> (r: Town)
        requires
            self.can_progress(old(person_generator)),
        ensures
            r.a_year_after(self, old(person_generator).next_id()),
            ids_below(r.population()@, final(person_generator).next_id()),
            old(person_generator).same_pools(final(person_generator)),
            final(person_generator).next_id() == old(person_generator).next_id() + pending_births(
                self.population().members(),
                self.date().days_after(DAYS_PER_YEAR),
            ),
    {
        let mut next_town = self.clone();
        proof {
            lemma_same_people(
                self.population.members(),
                next_town.population.members(),
                self.date.days_after(DAYS_PER_YEAR),
                Kind::Male,
            );
        }
        next_town.forward_date_one_year();
        next_town.handle_population(person_generator);
        next_town
    }

    /// Moves the day that the town lives in on by a year.
    fn forward_date_one_year(&mut self)
        requires
            old(self).well_formed(),
            Date::representable(old(self).date().day_number() + DAYS_PER_YEAR),
        ensures
            final(self).well_formed(),
            final(self).date() == old(self).date().days_after(DAYS_PER_YEAR),
            final(self).date().day_number() == old(self).date().day_number() + DAYS_PER_YEAR,
            final(self).name() == old(self).name(),
            final(self).population() == old(self).population(),
    {
        let ghost before = self.date;
        self.date = self.date + DAYS_PER_YEAR;
        proof {
            Date::lemma_day_number_of(before.day_number() + DAYS_PER_YEAR);
            before.lemma_later(self.date);
            assert forall|a: u32| #[trigger]
                self.population@.contains_key(a) implies self.population@[a].birthday.not_after(
                self.date,
            ) by {
                Date::lemma_order_transitive(self.population@[a].birthday, before, self.date);
            }
        }
    }

    /// One tick of the population on the day that the town lives in.
    fn handle_population(&mut self, person_generator: &mut PersonGenerator)
        requires
            old(self).well_formed(),
            ids_below(old(self).population()@, old(person_generator).next_id()),
            old(person_generator).next_id() + pending_births(
                old(self).population().members(),
                old(self).date(),
            ) <= u32::MAX,
            Date::representable(old(self).date().day_number() + DAYS_AHEAD),
        ensures
            final(self).well_formed(),
            final(self).name() == old(self).name(),
            final(self).date() == old(self).date(),
            final(self).population().after_tick(
                old(self).population(),
                old(self).date(),
                old(person_generator).next_id(),
            ),
            ids_below(final(self).population()@, final(person_generator).next_id()),
            old(person_generator).same_pools(final(person_generator)),
            final(person_generator).next_id() == old(person_generator).next_id() + pending_births(
                old(self).population().members(),
                old(self).date(),
            ),
    {
        self.population.update(self.date, person_generator, &mut self.rng);
    }

    pub fn get_name(&self) -> (r: &str)
        ensures
            r@ == self.name(),
    {
        self.name.as_str()
    }

    pub fn get_date(&self) -> (r: &Date)
        ensures
            *r == self.date(),
    {
        &self.date
    }

    pub fn get_population(&self) -> (r: &Population)
        ensures
            *r == self.population(),
    {
        &self.population
    }

    /// The town as text: the name, the day that it lives in, and the number
    /// of its people.
    pub fn to_string(&self) -> (r: String)
        ensures
            r@ == "Town "@ + self.name() + " in "@ + self.date().text() + ", inhabitants: "@
                + decimal((self.population().members().len() as u32) as nat),
    {
        let mut text = "Town ".to_owned();
        text.append(self.name.as_str());
        text.append(" in ");
        text.append(self.date.to_string().as_str());
        text.append(", inhabitants: ");
        text.append(decimal_text(self.population.size() as u64).as_str());
        text
    }
}

/// Ids below a bound lie below every greater bound.
pub proof fn lemma_ids_below_more(members: Map<u32, PersonView>, bound: u32, more: u32)
    requires
        ids_below(members, bound),
        bound <= more,
    ensures
        ids_below(members, more),
{
    assert forall|a: u32| #[trigger] members.contains_key(a) implies a < more by {
        assert(a < bound);
    }
}

/// Whether a town can be advanced depends on the free ids alone, and fewer
/// free ids do not help: with the ids of the town below the next id of
/// both generators, what can be advanced with the later one can be advanced
/// with the earlier one.
pub proof fn lemma_can_progress_earlier(town: &Town, earlier: &PersonGenerator, later: &PersonGenerator)
    requires
        earlier.next_id() <= later.next_id(),
        ids_below(town.population()@, earlier.next_id()),
        town.can_progress(later),
    ensures
        town.can_progress(earlier),
{
}

/// A year after, counted from a later first new id, is a year after counted
/// from an earlier one.
pub proof fn lemma_a_year_after_earlier(after: &Town, before: &Town, later: u32, earlier: u32)
    requires
        after.a_year_after(before, later),
        earlier <= later,
    ensures
        after.a_year_after(before, earlier),
{
    lemma_after_tick_earlier(
        after.population(),
        before.population(),
        after.date(),
        later,
        earlier,
    );
}

impl Clone for Town {
    /// A town of its own with the same name, day and people, and a
    /// generator in the same state.
    fn clone(&self) -> (r: Town)
        ensures
            r.name() == self.name(),
            r.date() == self.date(),
            same_people(self.population().members(), r.population().members()),
            r.population().capacity() == self.population().capacity(),
            r.population().growth() == self.population().growth(),
            ids_unique(self.population().members()) ==> r.population()@ == self.population()@,
            r.well_formed() == self.well_formed(),
    {
        Town {
            rng: copy_rng(&self.rng),
            name: self.name.clone(),
            date: self.date,
            population: self.population.clone(),
        }
    }
}

} // verus!
