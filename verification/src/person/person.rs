use vstd::prelude::*;
use crate::utility::text::decimal;
use crate::utility::text::decimal_text;
use crate::utility::Date;
use super::attribute::Kind;
use super::attribute_list::has_kind;
use super::attribute_list::meets;
use super::attribute_list::without_kind;
use super::attribute_list::spouse_of;
use super::Attribute;
use super::AttributeList;

verus! {

/// What a person is, as plain values.
pub struct PersonView {
    pub id: u32,
    pub birthday: Date,
    pub first_name: Seq<char>,
    pub last_name: Seq<char>,
    pub father: Option<u32>,
    pub mother: Option<u32>,
    pub tags: Seq<Attribute>,
}

/// The age in whole years of somebody born on `birthday`, on the day `today`:
/// the difference of the years, less one while the month and day of the
/// birthday have not come yet in the year of `today`.
pub open spec fn age_at(birthday: Date, today: Date) -> int {
    let had_birthday = today.month() > birthday.month() || (today.month() == birthday.month()
        && today.day() >= birthday.day());
    today.year() - birthday.year() - if had_birthday {
        0int
    } else {
        1int
    }
}

/// Nobody has a negative age on or after the day of birth.
pub proof fn lemma_age_not_negative(birthday: Date, today: Date)
    ensures
        birthday.not_after(today) <==> 0 <= age_at(birthday, today),
{
}

/// An individual: identity, day of birth, names, parents and tags.
#[derive(Debug)]
pub struct Person {
    id: u32,
    birthday: Date,
    first_name: String,
    last_name: String,
    father: Option<u32>,
    mother: Option<u32>,
    attributes: AttributeList,
}

impl View for Person {
    type V = PersonView;

    closed spec fn view(&self) -> PersonView {
        PersonView {
            id: self.id,
            birthday: self.birthday,
            first_name: self.first_name@,
            last_name: self.last_name@,
            father: self.father,
            mother: self.mother,
            tags: self.attributes@,
        }
    }
}

impl Clone for Person {
    /// Somebody with the same id, names, dates, parents and tags.
    fn clone(&self) -> (r: Person)
        ensures
            r@ == self@,
    {
        Person {
            id: self.id,
            birthday: self.birthday,
            first_name: self.first_name.clone(),
            last_name: self.last_name.clone(),
            father: self.father,
            mother: self.mother,
            attributes: self.attributes.clone(),
        }
    }
}

impl Person {
    /// A person without tags or parents, born on the default date.
    pub fn new(id: u32) -> (r: Person)
        ensures
            r@ == (PersonView {
                id: id,
                birthday: Date::start(),
                first_name: "Unknown"@,
                last_name: "McUnknownFace"@,
                father: None,
                mother: None,
                tags: Seq::empty(),
            }),
    {
        Person {
            id: id,
            birthday: Date::default(),
            first_name: "Unknown".to_owned(),
            last_name: "McUnknownFace".to_owned(),
            father: None,
            mother: None,
            attributes: AttributeList::default(),
        }
    }

    pub fn get_id(&self) -> (r: u32)
        ensures
            r == self@.id,
    {
        self.id
    }

    pub fn get_first_name(&self) -> (r: &str)
        ensures
            r@ == self@.first_name,
    {
        self.first_name.as_str()
    }

    pub fn get_last_name(&self) -> (r: &str)
        ensures
            r@ == self@.last_name,
    {
        self.last_name.as_str()
    }

    /// The first name, a space and the last name.
    pub fn get_full_name(&self) -> (r: String)
        ensures
            r@ == self@.first_name + " "@ + self@.last_name,
    {
        let mut name = self.first_name.clone();
        name.append(" ");
        name.append(self.last_name.as_str());
        name
    }

    /// The person as text: the id, the full name and the birthday.
    pub fn to_string(&self) -> (r: String)
        ensures
            r@ == "id = "@ + decimal(self@.id as nat) + ", name = "@ + self@.first_name + " "@
                + self@.last_name + ", birthday = "@ + self@.birthday.text(),
    {
        let mut text = "id = ".to_owned();
        text.append(decimal_text(self.id as u64).as_str());
        text.append(", name = ");
        text.append(self.first_name.as_str());
        text.append(" ");
        text.append(self.last_name.as_str());
        text.append(", birthday = ");
        text.append(self.birthday.to_string().as_str());
        text
    }

    pub fn get_birthday(&self) -> (r: Date)
        ensures
            r == self@.birthday,
    {
        self.birthday
    }

    /// The partner that the first `Married` tag names.
    pub fn get_spouse(&self) -> (r: Option<u32>)
        ensures
            r == spouse_of(self@.tags),
    {
        self.attributes.get_spouse()
    }

    /// The age in whole years on the day `curr_date`, which must not lie
    /// before the birthday.
    pub fn get_age(&self, curr_date: &Date) -> (r: u32)
        requires
            self@.birthday.not_after(*curr_date),
        ensures
            r == age_at(self@.birthday, *curr_date),
    {
        let had_birthday = curr_date.get_month() > self.birthday.get_month() || (
        curr_date.get_month() == self.birthday.get_month() && curr_date.get_day()
            >= self.birthday.get_day());
        let years: u32 = curr_date.get_year() - self.birthday.get_year();
        if had_birthday {
            years
        } else {
            years - 1
        }
    }

    pub fn set_birthday(&mut self, birthday: Date)
        ensures
            final(self)@ == (PersonView { birthday: birthday, ..old(self)@ }),
    {
        self.birthday = birthday;
    }

    pub fn set_first_name(&mut self, first_name: &str)
        ensures
            final(self)@ == (PersonView { first_name: first_name@, ..old(self)@ }),
    {
        self.first_name = first_name.to_owned();
    }

    pub fn set_last_name(&mut self, last_name: &str)
        ensures
            final(self)@ == (PersonView { last_name: last_name@, ..old(self)@ }),
    {
        self.last_name = last_name.to_owned();
    }

    pub fn set_father(&mut self, father_id: u32)
        ensures
            final(self)@ == (PersonView { father: Some(father_id), ..old(self)@ }),
    {
        self.father = Some(father_id);
    }

    pub fn set_mother(&mut self, mother_id: u32)
        ensures
            final(self)@ == (PersonView { mother: Some(mother_id), ..old(self)@ }),
    {
        self.mother = Some(mother_id);
    }

    /// Whether the person was born on the day `today` or before.
    pub fn is_born_by(&self, today: &Date) -> (r: bool)
        ensures
            r == self@.birthday.not_after(*today),
    {
        self.birthday <= *today
    }

    pub fn get_father(&self) -> (r: Option<u32>)
        ensures
            r == self@.father,
    {
        self.father
    }

    pub fn get_mother(&self) -> (r: Option<u32>)
        ensures
            r == self@.mother,
    {
        self.mother
    }

    /// Makes the person male; see `AttributeList::set_male`.
    pub fn set_male(&mut self)
        ensures
            final(self)@ == (PersonView {
                tags: if has_kind(old(self)@.tags, Kind::Male) {
                    old(self)@.tags
                } else {
                    without_kind(old(self)@.tags, Kind::Female).push(Attribute::Male)
                },
                ..old(self)@
            }),
    {
        self.attributes.set_male();
    }

    /// Makes the person female; see `AttributeList::set_female`.
    pub fn set_female(&mut self)
        ensures
            final(self)@ == (PersonView {
                tags: if has_kind(old(self)@.tags, Kind::Female) {
                    old(self)@.tags
                } else {
                    without_kind(old(self)@.tags, Kind::Male).push(Attribute::Female)
                },
                ..old(self)@
            }),
    {
        self.attributes.set_female();
    }

    pub fn satisfies(&self, wanted_attributes: &AttributeList, unwanted_attributes: &AttributeList) -> (r: bool)
        ensures
            r == meets(self@.tags, wanted_attributes@, unwanted_attributes@),
    {
        self.attributes.satisfies(wanted_attributes, unwanted_attributes)
    }

    pub fn get_attr(&self) -> (r: &AttributeList)
        ensures
            r@ == self@.tags,
    {
        &self.attributes
    }

    /// The tags, to be changed in place: what the person is afterwards
    /// differs from before in the tags alone.
    pub fn get_attr_mut(&mut self) -> (r: &mut AttributeList)
        ensures
            r@ == old(self)@.tags,
            final(self)@ == (PersonView { tags: final(r)@, ..old(self)@ }),
    {
        &mut self.attributes
    }
}

} // verus!
