use procedural_towns::person::attribute::Kind;
use procedural_towns::person::Attribute;
use procedural_towns::person::AttributeList;
use procedural_towns::utility::Date;

fn pregnant(father_id: u32, count: u32) -> Attribute {
    Attribute::Pregnant { father_id, birth: Date::default() + 100, count }
}

#[test]
fn tags_are_equal_by_kind_alone() {
    assert_eq!(Attribute::Male, Attribute::Male);
    assert_eq!(Attribute::Married(1), Attribute::Married(2));
    assert_eq!(pregnant(1, 1), pregnant(9, 3));
    assert_eq!(Attribute::Fertile, Attribute::Fertile);
    assert_ne!(Attribute::Male, Attribute::Female);
    assert_ne!(Attribute::Married(1), Attribute::Fertile);
    assert_ne!(pregnant(1, 1), Attribute::Married(1));
    assert_ne!(Kind::Male, Kind::Female);
}

#[test]
fn new_list_holds_nothing() {
    let list = AttributeList::default();
    assert!(list.get_list().is_empty());
    assert!(!list.is_male());
    assert!(!list.is_female());
    assert!(!list.is_married());
    assert!(!list.is_fertile());
    assert_eq!(list.get_spouse(), None);
}

#[test]
fn add_appends_whatever_it_is_given() {
    let mut list = AttributeList::default();
    list.add(Attribute::Married(4));
    list.add(Attribute::Married(5));
    assert_eq!(list.get_list().len(), 2);
    assert!(list.has_attribute(&Attribute::Married(0)));
    assert_eq!(list.get_spouse(), Some(4));
}

#[test]
fn remove_returns_the_first_tag_of_the_kind_with_what_it_carries() {
    let mut list = AttributeList::default();
    list.add(Attribute::Male);
    list.add(Attribute::Married(4));
    list.add(Attribute::Married(5));
    list.add(Attribute::Fertile);
    match list.remove_attribute(&Attribute::Married(0)) {
        Some(Attribute::Married(partner)) => assert_eq!(partner, 4),
        _ => panic!("a Married tag was due"),
    }
    assert_eq!(list.get_list().len(), 3);
    assert_eq!(list.get_spouse(), Some(5));
    assert!(list.is_male());
    assert!(list.is_fertile());
    assert!(list.remove_attribute(&Attribute::Female).is_none());
    assert_eq!(list.get_list().len(), 3);
}

#[test]
fn set_male_and_set_female_keep_one_gender() {
    let mut list = AttributeList::default();
    list.set_male();
    assert!(list.is_male() && !list.is_female());
    list.set_male();
    assert!(list.is_male() && !list.is_female());
    assert_eq!(list.get_list().len(), 1);
    list.set_female();
    assert!(!list.is_male() && list.is_female());
    assert_eq!(list.get_list().len(), 1);
    list.set_female();
    assert_eq!(list.get_list().len(), 1);
    list.set_male();
    assert!(list.is_male() && !list.is_female());
    assert_eq!(list.get_list().len(), 1);
}

#[test]
fn set_gender_leaves_other_tags() {
    let mut list = AttributeList::default();
    list.set_female();
    list.set_fertile();
    list.set_married(3);
    list.set_male();
    assert!(list.is_male() && !list.is_female());
    assert!(list.is_fertile());
    assert_eq!(list.get_spouse(), Some(3));
}

#[test]
fn set_married_keeps_one_slot() {
    let mut list = AttributeList::default();
    list.set_married(3);
    assert!(list.is_married());
    assert_eq!(list.get_spouse(), Some(3));
    list.set_married(8);
    assert_eq!(list.get_spouse(), Some(8));
    assert_eq!(list.get_list().len(), 1);
}

#[test]
fn pop_marriage_returns_the_tag() {
    let mut list = AttributeList::default();
    assert!(list.pop_marriage().is_none());
    list.set_female();
    list.set_married(12);
    match list.pop_marriage() {
        Some(Attribute::Married(partner)) => assert_eq!(partner, 12),
        _ => panic!("a Married tag was due"),
    }
    assert!(!list.is_married());
    assert!(list.is_female());
    assert!(list.pop_marriage().is_none());
}

#[test]
fn pregnancy_is_set_and_popped_with_what_it_carries() {
    let due = Date::default() + 270;
    let mut list = AttributeList::default();
    list.set_female();
    assert!(list.pop_pregnancy().is_none());
    list.set_pregnant(7, due, 2);
    assert!(list.has_attribute(&pregnant(0, 0)));
    match list.pop_pregnancy() {
        Some(Attribute::Pregnant { father_id, birth, count }) => {
            assert_eq!(father_id, 7);
            assert_eq!(birth, due);
            assert_eq!(count, 2);
        }
        _ => panic!("a Pregnant tag was due"),
    }
    assert!(!list.has_attribute(&pregnant(0, 0)));
    assert!(list.is_female());
}

#[test]
fn set_pregnant_keeps_one_slot() {
    let first = Date::default() + 270;
    let second = Date::default() + 300;
    let mut list = AttributeList::default();
    list.set_female();
    list.set_fertile();
    list.set_pregnant(7, first, 2);
    list.set_married(7);
    assert_eq!(list.get_list().len(), 4);
    list.set_pregnant(9, second, 3);
    assert_eq!(list.get_list().len(), 4);
    let tags = list.get_list().iter().filter(|tag| **tag == pregnant(0, 0)).count();
    assert_eq!(tags, 1);
    match list.get_pregnancy() {
        Some(Attribute::Pregnant { father_id, birth, count }) => {
            assert_eq!(father_id, 9);
            assert_eq!(birth, second);
            assert_eq!(count, 3);
        }
        _ => panic!("a Pregnant tag was due"),
    }
    assert!(list.is_female() && !list.is_male());
    assert!(list.is_fertile());
    assert_eq!(list.get_spouse(), Some(7));
    assert!(list.pop_pregnancy().is_some());
    assert!(list.pop_pregnancy().is_none());
}

#[test]
fn fertility_is_a_toggle() {
    let mut list = AttributeList::default();
    list.clear_fertile();
    assert!(!list.is_fertile());
    list.set_fertile();
    list.set_fertile();
    assert!(list.is_fertile());
    assert_eq!(list.get_list().len(), 1);
    list.clear_fertile();
    assert!(!list.is_fertile());
    assert!(list.get_list().is_empty());
}

#[test]
fn satisfies_wants_all_and_none_of_the_unwanted() {
    let mut list = AttributeList::default();
    list.set_female();
    list.set_fertile();
    list.set_married(77);

    let nothing = AttributeList::default();
    let female_fertile = AttributeList::builder().set_female().set_fertile().build();
    let male = AttributeList::builder().set_male().build();
    let married = AttributeList::builder().set_married().build();
    let pregnant_list = AttributeList::builder().set_pregnant().build();

    assert!(list.satisfies(&nothing, &nothing));
    assert!(list.satisfies(&female_fertile, &nothing));
    assert!(list.satisfies(&female_fertile, &pregnant_list));
    assert!(list.satisfies(&married, &male));
    assert!(!list.satisfies(&male, &nothing));
    assert!(!list.satisfies(&female_fertile, &married));
    assert!(!list.satisfies(&pregnant_list, &nothing));
    assert!(!list.satisfies(&nothing, &female_fertile));
}

#[test]
fn builder_builds_lists_to_match_by_kind() {
    let list = AttributeList::builder().set_male().set_female().build();
    assert!(list.is_female() && !list.is_male());
    let list = AttributeList::builder().set_married().set_pregnant().set_fertile().build();
    assert_eq!(list.get_list().len(), 3);
    assert_eq!(list.get_spouse(), Some(0));
    assert!(list.is_fertile());
    match list.get_list()[1] {
        Attribute::Pregnant { father_id, birth, count } => {
            assert_eq!(father_id, 0);
            assert_eq!(birth, Date::default());
            assert_eq!(count, 0);
        }
        _ => panic!("a Pregnant tag was due"),
    }
    let empty = AttributeList::builder().build();
    assert!(empty.get_list().is_empty());
}

#[test]
fn set_male_cannot_mend_a_list_with_two_female_tags() {
    let mut list = AttributeList::default();
    list.add(Attribute::Female);
    list.add(Attribute::Female);
    list.set_male();
    assert!(list.is_male());
    assert!(list.is_female());
}
