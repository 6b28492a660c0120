use vstd::prelude::*;
use rand::rngs::StdRng;
use crate::random::choose_name;
use crate::random::gen_ratio;
use crate::utility::Date;
use super::person::PersonView;
use super::Attribute;
use super::Person;

verus! {

/// The pieces into which line feeds cut a text: one more than it has line
/// feeds, the last of them what follows the last line feed.
pub open spec fn lines_of(text: Seq<char>) -> Seq<Seq<char>>
    decreases text.len(),
{
    if text.len() == 0 {
        seq![Seq::empty()]
    } else if text.last() == '\n' {
        lines_of(text.drop_last()).push(Seq::empty())
    } else {
        let before = lines_of(text.drop_last());
        before.update(before.len() - 1, before.last().push(text.last()))
    }
}

/// `str::split` at line feeds: the pieces between them, in order, each as a
/// `String` of its own.
#[verifier::external_body]
fn split_lines(text: &str) -> (r: Vec<String>)
    ensures
        r@.len() == lines_of(text@).len(),
        forall|i: int| 0 <= i < r@.len() ==> (#[trigger] r@[i])@ == lines_of(text@)[i],
{
    text.split("\n").map(String::from).collect()
}

/// Whether `name` is one of the names of `pool`.
pub open spec fn pool_has(pool: Seq<String>, name: Seq<char>) -> bool {
    exists|i: int| 0 <= i < pool.len() && (#[trigger] pool[i])@ == name
}

/// Whether `pool` holds the lines of `text`, in order.
pub open spec fn pool_of(pool: Seq<String>, text: Seq<char>) -> bool {
    &&& pool.len() == lines_of(text).len()
    &&& forall|i: int| 0 <= i < pool.len() ==> (#[trigger] pool[i])@ == lines_of(text)[i]
}

/// What a drawn name may be: one of the pool, or the fallback where the pool
/// is empty.
pub open spec fn drawn_from(pool: Seq<String>, fallback: Seq<char>, name: Seq<char>) -> bool {
    if pool.len() == 0 {
        name == fallback
    } else {
        pool_has(pool, name)
    }
}

/// Mints people: the next free id, the date that newcomers are born on, and
/// the pools that their names are drawn from.
pub struct PersonGenerator {
    next_id: u32,
    curr_date: Date,
    first_names_male: Vec<String>,
    first_names_female: Vec<String>,
    last_names: Vec<String>,
}

impl PersonGenerator {
    /// The id that the next person gets.
    pub closed spec fn next_id(&self) -> u32 {
        self.next_id
    }

    /// The birthday that the next person gets.
    pub closed spec fn date(&self) -> Date {
        self.curr_date
    }

    pub closed spec fn male_names(&self) -> Seq<String> {
        self.first_names_male@
    }

    pub closed spec fn female_names(&self) -> Seq<String> {
        self.first_names_female@
    }

    pub closed spec fn surnames(&self) -> Seq<String> {
        self.last_names@
    }

    /// Whether `other` differs from `self` in the next id at most.
    pub open spec fn same_pools(&self, other: &PersonGenerator) -> bool {
        &&& self.date() == other.date()
        &&& self.male_names() == other.male_names()
        &&& self.female_names() == other.female_names()
        &&& self.surnames() == other.surnames()
    }

    /// A generator that starts at id 0 and the default date. Each pool holds
    /// the lines of its text: male first names, female first names and
    /// surnames.
    pub fn new(first_names_male: &str, first_names_female: &str, last_names: &str) -> (r: PersonGenerator)
        ensures
            r.next_id() == 0,
            r.date() == Date::start(),
            pool_of(r.male_names(), first_names_male@),
            pool_of(r.female_names(), first_names_female@),
            pool_of(r.surnames(), last_names@),
    {
        let mut pg = PersonGenerator {
            next_id: 0,
            curr_date: Date::default(),
            first_names_male: Vec::new(),
            first_names_female: Vec::new(),
            last_names: Vec::new(),
        };
        pg.load_names(first_names_male, first_names_female, last_names);
        pg
    }

    /// The id that the next person gets.
    pub fn get_next_id(&self) -> (r: u32)
        ensures
            r == self.next_id(),
    {
        self.next_id
    }

    /// The birthday that the next person gets.
    pub fn get_date(&self) -> (r: Date)
        ensures
            r == self.date(),
    {
        self.curr_date
    }

    pub fn set_date(&mut self, new_date: Date)
        ensures
            final(self).date() == new_date,
            final(self).next_id() == old(self).next_id(),
            final(self).male_names() == old(self).male_names(),
            final(self).female_names() == old(self).female_names(),
            final(self).surnames() == old(self).surnames(),
    {
        self.curr_date = new_date;
    }

    /// The person that a draw of a gender, a first name and a surname
    /// gives: the next id, the generator's date as birthday, the one gender
    /// tag, and the fallback name where the draw of a name gave none.
    pub fn make_person(&mut self, male: bool, first_name: Option<&String>, last_name: Option<&String>) -> (r: Person)
        requires
            old(self).next_id() < u32::MAX,
        ensures
            final(self).next_id() == old(self).next_id() + 1,
            old(self).same_pools(final(self)),
            r@ == (PersonView {
                id: old(self).next_id(),
                birthday: old(self).date(),
                first_name: match first_name {
                    Some(name) => name@,
                    None => "Nameless"@,
                },
                last_name: match last_name {
                    Some(name) => name@,
                    None => "McNamelessFace"@,
                },
                father: None,
                mother: None,
                tags: seq![if male { Attribute::Male } else { Attribute::Female }],
            }),
    {
        let mut p = Person::new(self.next_id);
        self.next_id += 1;
        if male {
            p.set_male();
        } else {
            p.set_female();
        }
        match first_name {
            Some(name) => p.set_first_name(name.as_str()),
            None => p.set_first_name("Nameless"),
        }
        p.set_birthday(self.curr_date);
        match last_name {
            Some(name) => p.set_last_name(name.as_str()),
            None => p.set_last_name("McNamelessFace"),
        }
        proof {
            let tag = if male { Attribute::Male } else { Attribute::Female };
            assert(Seq::<Attribute>::empty().push(tag) =~= seq![tag]);
        }
        p
    }

    /// A new person: the next id, the generator's date as birthday, a gender
    /// drawn with even chances, a first name drawn from the pool of that
    /// gender and a surname drawn from the pool of surnames.
    pub fn generate_random_person(&mut self, rng: &mut StdRng) -> (r: Person)
        requires
            old(self).next_id() < u32::MAX,
        ensures
            final(self).next_id() == old(self).next_id() + 1,
            old(self).same_pools(final(self)),
            r@.id == old(self).next_id(),
            r@.birthday == old(self).date(),
            r@.father is None,
            r@.mother is None,
            r@.tags == seq![Attribute::Male] || r@.tags == seq![Attribute::Female],
            r@.tags == seq![Attribute::Male] ==> drawn_from(
                old(self).male_names(),
                "Nameless"@,
                r@.first_name,
            ),
            r@.tags == seq![Attribute::Female] ==> drawn_from(
                old(self).female_names(),
                "Nameless"@,
                r@.first_name,
            ),
            drawn_from(old(self).surnames(), "McNamelessFace"@, r@.last_name),
    {
        let male = gen_ratio(rng, 1, 2);
        let first_name = if male {
            choose_name(rng, &self.first_names_male)
        } else {
            choose_name(rng, &self.first_names_female)
        };
        let last_name = choose_name(rng, &self.last_names);
        let first_name = match first_name {
            Some(name) => Some(name.clone()),
            None => None,
        };
        let last_name = match last_name {
            Some(name) => Some(name.clone()),
            None => None,
        };
        proof {
            assert(seq![Attribute::Male][0] != seq![Attribute::Female][0]);
        }
        self.make_person(male, first_name.as_ref(), last_name.as_ref())
    }

    /// Fills the three pools with the lines of the three texts.
    fn load_names(&mut self, first_names_male: &str, first_names_female: &str, last_names: &str)
        ensures
            final(self).next_id() == old(self).next_id(),
            final(self).date() == old(self).date(),
            pool_of(final(self).male_names(), first_names_male@),
            pool_of(final(self).female_names(), first_names_female@),
            pool_of(final(self).surnames(), last_names@),
    {
        self.first_names_male = split_lines(first_names_male);
        self.first_names_female = split_lines(first_names_female);
        self.last_names = split_lines(last_names);
    }
}

} // verus!
