use procedural_towns::person::{Attribute, AttributeList, Person, PersonGenerator};
use procedural_towns::utility::Date;
use rand::rngs::StdRng;
use rand::SeedableRng;

fn day(year: u32, month: u32, day: u32) -> Date {
    let mut d = Date::default();
    d.set_year(year);
    d.set_month(month);
    d.set_day(day);
    d
}

#[test]
fn new_person_has_defaults() {
    let p = Person::new(42);
    assert_eq!(p.get_id(), 42);
    assert_eq!(p.get_first_name(), "Unknown");
    assert_eq!(p.get_last_name(), "McUnknownFace");
    assert_eq!(p.get_full_name(), "Unknown McUnknownFace");
    assert_eq!(p.get_birthday(), Date::default());
    assert_eq!(p.get_spouse(), None);
    assert_eq!(p.get_father(), None);
    assert_eq!(p.get_mother(), None);
    assert!(p.get_attr().get_list().is_empty());
}

#[test]
fn person_setters() {
    let mut p = Person::new(1);
    p.set_first_name("Ada");
    p.set_last_name("Miller");
    p.set_father(10);
    p.set_mother(11);
    p.set_birthday(day(990, 3, 4));
    assert_eq!(p.get_full_name(), "Ada Miller");
    assert_eq!(p.get_father(), Some(10));
    assert_eq!(p.get_mother(), Some(11));
    assert_eq!(p.get_birthday(), day(990, 3, 4));
    assert_eq!(p.get_id(), 1);
}

#[test]
fn person_gender_and_tags() {
    let mut p = Person::new(1);
    p.set_female();
    assert!(p.get_attr().is_female());
    p.set_male();
    assert!(p.get_attr().is_male() && !p.get_attr().is_female());
    p.get_attr_mut().set_married(9);
    assert_eq!(p.get_spouse(), Some(9));
    p.get_attr_mut().set_fertile();
    let wanted = AttributeList::builder().set_male().set_fertile().build();
    let unwanted = AttributeList::builder().set_married().build();
    assert!(p.satisfies(&wanted, &AttributeList::default()));
    assert!(!p.satisfies(&wanted, &unwanted));
    p.get_attr_mut().pop_marriage();
    assert!(p.satisfies(&wanted, &unwanted));
    assert_eq!(p.get_id(), 1);
}

#[test]
fn age_counts_whole_years() {
    let mut p = Person::new(1);
    p.set_birthday(day(1000, 5, 10));
    assert_eq!(p.get_age(&day(1000, 5, 10)), 0);
    assert_eq!(p.get_age(&day(1000, 11, 29)), 0);
    assert_eq!(p.get_age(&day(1001, 5, 9)), 0);
    assert_eq!(p.get_age(&day(1001, 5, 10)), 1);
    assert_eq!(p.get_age(&day(1030, 5, 9)), 29);
    assert_eq!(p.get_age(&day(1030, 5, 10)), 30);
    assert_eq!(p.get_age(&day(1030, 4, 29)), 29);
    assert_eq!(p.get_age(&day(1030, 6, 0)), 30);
    assert_eq!(p.get_age(&day(1040, 0, 0)), 39);
}

#[test]
fn generator_pools_hold_the_lines_of_the_texts() {
    let mut rng = StdRng::seed_from_u64(5);
    let mut generator = PersonGenerator::new("Adam\nBert\nCarl", "Dora\nEve", "Smith\nJones");
    let male = ["Adam", "Bert", "Carl"];
    let female = ["Dora", "Eve"];
    let last = ["Smith", "Jones"];
    let mut first_names = std::collections::BTreeSet::new();
    let mut last_names = std::collections::BTreeSet::new();
    let mut men = 0;
    let mut women = 0;
    for _ in 0..200 {
        let p = generator.generate_random_person(&mut rng);
        if p.get_attr().is_male() {
            assert!(male.contains(&p.get_first_name()));
            assert!(!p.get_attr().is_female());
            men += 1;
        } else {
            assert!(p.get_attr().is_female());
            assert!(female.contains(&p.get_first_name()));
            women += 1;
        }
        assert!(last.contains(&p.get_last_name()));
        assert_eq!(p.get_attr().get_list().len(), 1);
        first_names.insert(p.get_first_name().to_string());
        last_names.insert(p.get_last_name().to_string());
    }
    assert!(men > 0 && women > 0);
    assert_eq!(first_names.len(), 5);
    assert_eq!(last_names.len(), 2);
}

#[test]
fn generator_counts_ids_up_and_stamps_the_date() {
    let mut rng = StdRng::seed_from_u64(6);
    let mut generator = PersonGenerator::new("A", "B", "C");
    assert_eq!(generator.get_next_id(), 0);
    assert_eq!(generator.get_date(), Date::default());
    for expected in 0..10u32 {
        let p = generator.generate_random_person(&mut rng);
        assert_eq!(p.get_id(), expected);
        assert_eq!(p.get_birthday(), Date::default());
        assert_eq!(p.get_father(), None);
        assert_eq!(p.get_mother(), None);
    }
    generator.set_date(day(1200, 1, 2));
    assert_eq!(generator.get_next_id(), 10);
    let p = generator.generate_random_person(&mut rng);
    assert_eq!(p.get_id(), 10);
    assert_eq!(p.get_birthday(), day(1200, 1, 2));
    assert_eq!(generator.get_next_id(), 11);
}

#[test]
fn a_text_without_line_feed_is_one_name() {
    let mut rng = StdRng::seed_from_u64(7);
    let mut generator = PersonGenerator::new("", "", "Only");
    for _ in 0..20 {
        let p = generator.generate_random_person(&mut rng);
        assert_eq!(p.get_first_name(), "");
        assert_eq!(p.get_last_name(), "Only");
    }
}

#[test]
fn a_trailing_line_feed_makes_an_empty_name() {
    let mut rng = StdRng::seed_from_u64(8);
    let mut generator = PersonGenerator::new("X", "Y", "Smith\n");
    let mut seen = std::collections::BTreeSet::new();
    for _ in 0..100 {
        seen.insert(generator.generate_random_person(&mut rng).get_last_name().to_string());
    }
    assert!(seen.contains("Smith"));
    assert!(seen.contains(""));
    assert_eq!(seen.len(), 2);
}

#[test]
fn make_person_uses_what_was_drawn() {
    let mut generator = PersonGenerator::new("A", "B", "C");
    generator.set_date(day(1100, 2, 3));
    let first = String::from("Gwen");
    let last = String::from("Hall");
    let p = generator.make_person(false, Some(&first), Some(&last));
    assert_eq!(p.get_id(), 0);
    assert_eq!(p.get_full_name(), "Gwen Hall");
    assert_eq!(p.get_birthday(), day(1100, 2, 3));
    assert!(p.get_attr().is_female() && !p.get_attr().is_male());
    let q = generator.make_person(true, None, None);
    assert_eq!(q.get_id(), 1);
    assert_eq!(q.get_first_name(), "Nameless");
    assert_eq!(q.get_last_name(), "McNamelessFace");
    assert!(q.get_attr().is_male() && !q.get_attr().is_female());
    assert_eq!(q.get_attr().get_list().len(), 1);
    match q.get_attr().get_list()[0] {
        Attribute::Male => {}
        _ => panic!("a Male tag was due"),
    }
}
