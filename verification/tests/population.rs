use procedural_towns::person::rates::{death_by_age_probability, DEATH_SCALE};
use procedural_towns::person::rates::{GROWTH_LIMIT, GROWTH_UNIT};
use procedural_towns::person::{Attribute, AttributeList, Person, PersonGenerator, Population};
use procedural_towns::utility::Date;
use rand::rngs::StdRng;
use rand::SeedableRng;

fn on(year: u32, month: u32, day: u32) -> Date {
    let mut d = Date::default();
    d.set_year(year);
    d.set_month(month);
    d.set_day(day);
    d
}

fn names() -> PersonGenerator {
    PersonGenerator::new("Adam\nBert\nCarl", "Dora\nEve\nFay", "Smith\nJones\nHall")
}

fn pregnant_kind() -> Attribute {
    Attribute::Pregnant { father_id: 0, birth: Date::default(), count: 0 }
}

fn man(generator: &mut PersonGenerator, last: &str, born: Date) -> Person {
    let first = String::from("Adam");
    let last = String::from(last);
    let mut p = generator.make_person(true, Some(&first), Some(&last));
    p.set_birthday(born);
    p
}

fn woman(generator: &mut PersonGenerator, last: &str, born: Date) -> Person {
    let first = String::from("Eve");
    let last = String::from(last);
    let mut p = generator.make_person(false, Some(&first), Some(&last));
    p.set_birthday(born);
    p
}

fn count_of(person: &Person, kind: &Attribute) -> usize {
    person.get_attr().get_list().iter().filter(|tag| *tag == kind).count()
}

fn find(population: &Population, id: u32) -> Person {
    population.get_by_id(id).expect("the member was due").clone()
}

fn assert_coherent(population: &Population) {
    let members = population.get_population();
    for (i, p) in members.iter().enumerate() {
        for q in members.iter().skip(i + 1) {
            assert_ne!(p.get_id(), q.get_id());
        }
        assert_eq!(count_of(p, &Attribute::Male) + count_of(p, &Attribute::Female), 1);
        assert!(count_of(p, &Attribute::Married(0)) <= 1);
        assert!(count_of(p, &pregnant_kind()) <= 1);
        assert!(count_of(p, &Attribute::Fertile) <= 1);
        if count_of(p, &pregnant_kind()) == 1 {
            assert!(p.get_attr().is_female());
        }
        if let Some(spouse_id) = p.get_spouse() {
            assert_ne!(spouse_id, p.get_id());
            let spouse = population.get_by_id(spouse_id).expect("the spouse is a member");
            assert_eq!(spouse.get_spouse(), Some(p.get_id()));
        }
    }
    assert!(population.get_growth_accumulator() >= -GROWTH_LIMIT);
    assert!(population.get_growth_accumulator() <= GROWTH_LIMIT);
}

fn assert_fertile_as_aged(population: &Population, today: Date) {
    for p in population.get_population() {
        let age = p.get_age(&today);
        if age >= 14 && age < 40 {
            assert!(p.get_attr().is_fertile());
        }
        if age >= 40 {
            assert!(!p.get_attr().is_fertile());
        }
    }
}

fn pair_is_ready(population: &Population) -> bool {
    let members = population.get_population();
    let single = |p: &&Person| p.get_attr().is_fertile() && !p.get_attr().is_married();
    members.iter().filter(single).any(|p| p.get_attr().is_male())
        && members.iter().filter(single).any(|p| p.get_attr().is_female())
}

fn pregnancies(population: &Population) -> usize {
    population.get_population().iter().filter(|p| p.get_attr().get_pregnancy().is_some()).count()
}

fn assert_after_tick(before: &Population, after: &Population, today: Date, first_new_id: u32) {
    for p in after.get_population() {
        if let Some(Attribute::Pregnant { father_id: _, birth, count: _ }) = p.get_attr().get_pregnancy() {
            assert!(birth > today);
        }
        let age = p.get_age(&today);
        assert!(death_by_age_probability(age) < DEATH_SCALE);
        match before.get_by_id(p.get_id()) {
            Some(earlier) => {
                assert_eq!(p.get_birthday(), earlier.get_birthday());
                assert_eq!(p.get_first_name(), earlier.get_first_name());
                assert_eq!(p.get_father(), earlier.get_father());
                assert_eq!(p.get_mother(), earlier.get_mother());
                assert_eq!(p.get_attr().is_male(), earlier.get_attr().is_male());
                assert_eq!(p.get_attr().is_female(), earlier.get_attr().is_female());
                if age < 14 {
                    assert_eq!(p.get_attr().is_fertile(), earlier.get_attr().is_fertile());
                }
            }
            None => {
                assert!(p.get_id() >= first_new_id);
                let mother = before.get_by_id(p.get_mother().expect("a mother was due"));
                match mother.expect("the mother was a member").get_attr().get_pregnancy() {
                    Some(Attribute::Pregnant { father_id, birth, count: _ }) => {
                        assert_eq!(p.get_father(), Some(father_id));
                        assert_eq!(p.get_birthday(), birth);
                        assert!(birth <= today);
                    }
                    _ => panic!("the mother was pregnant"),
                }
                assert_eq!(p.get_attr().is_fertile(), age >= 14 && age < 40);
            }
        }
    }
    for p in before.get_population() {
        if death_by_age_probability(p.get_age(&today)) == 0 {
            assert!(after.get_by_id(p.get_id()).is_some());
        }
    }
    let (married, size) = after.get_marriage_ratio();
    assert!(3 * married >= 2 * size || !pair_is_ready(after));
}

#[test]
fn default_population_is_empty_with_room_for_fifty() {
    let population = Population::default();
    assert_eq!(population.size(), 0);
    assert_eq!(population.get_capacity(), 50);
    assert_eq!(population.get_growth_accumulator(), 0);
    assert!(population.get_population().is_empty());
    assert!(!population.can_grow());
    assert_eq!(population.get_marriage_ratio(), (0, 0));
    assert_eq!(population.get_female_ratio(), (0, 0));
    assert_eq!(population.get_fertility_ratio(), (0, 0));
}

#[test]
fn add_size_and_lookup() {
    let mut generator = names();
    let mut population = Population::default();
    population.set_capacity(9);
    assert_eq!(population.get_capacity(), 9);
    let a = man(&mut generator, "Smith", on(980, 0, 0));
    let b = woman(&mut generator, "Jones", on(981, 0, 0));
    let (a_id, b_id) = (a.get_id(), b.get_id());
    population.add(a);
    population.add(b);
    assert_eq!(population.size(), 2);
    assert_eq!(population.get_population().len(), 2);
    assert_eq!(population.get_by_id(a_id).map(|p| p.get_last_name().to_string()), Some("Smith".to_string()));
    assert_eq!(population.get_by_id(b_id).map(|p| p.get_last_name().to_string()), Some("Jones".to_string()));
    assert!(population.get_by_id(777).is_none());
}

#[test]
fn ratios_count_the_tagged_members() {
    let mut generator = names();
    let mut population = Population::default();
    for i in 0..6u32 {
        let mut p = if i % 3 == 0 {
            woman(&mut generator, "Hall", on(980, 0, 0))
        } else {
            man(&mut generator, "Hall", on(980, 0, 0))
        };
        if i < 5 {
            p.get_attr_mut().set_fertile();
        }
        population.add(p);
    }
    assert_eq!(population.get_female_ratio(), (2, 6));
    assert_eq!(population.get_fertility_ratio(), (5, 6));
    assert_eq!(population.get_marriage_ratio(), (0, 6));
    population.marry(man(&mut generator, "Smith", on(970, 0, 0)), woman(&mut generator, "Jones", on(970, 0, 0)));
    assert_eq!(population.get_marriage_ratio(), (2, 8));
    assert_eq!(population.get_female_ratio(), (3, 8));
}

#[test]
fn growth_follows_the_logistic_curve() {
    let mut generator = names();
    let mut population = Population::default();
    for _ in 0..10 {
        population.add(man(&mut generator, "Hall", on(980, 0, 0)));
    }
    assert_eq!(population.calculate_growth(), Some(800_000));
    population.apply_growth();
    assert_eq!(population.get_growth_accumulator(), 800_000);
    assert!(!population.can_grow());
    population.apply_growth();
    assert_eq!(population.get_growth_accumulator(), 1_600_000);
    assert!(population.can_grow());
    population.set_capacity(5);
    assert_eq!(population.calculate_growth(), Some(-1_000_000));
    population.apply_growth();
    assert_eq!(population.get_growth_accumulator(), 600_000);
}

#[test]
fn growth_is_held_to_ten_either_way() {
    let mut generator = names();
    let mut population = Population::default();
    population.set_capacity(1000);
    for _ in 0..500 {
        population.add(man(&mut generator, "Hall", on(980, 0, 0)));
    }
    assert_eq!(population.calculate_growth(), Some(25_000_000));
    population.apply_growth();
    assert_eq!(population.get_growth_accumulator(), GROWTH_LIMIT);
    population.apply_growth();
    assert_eq!(population.get_growth_accumulator(), GROWTH_LIMIT);
    population.set_capacity(100);
    assert_eq!(population.calculate_growth(), Some(-200_000_000));
    population.apply_growth();
    assert_eq!(population.get_growth_accumulator(), -GROWTH_LIMIT);
    population.apply_growth();
    assert_eq!(population.get_growth_accumulator(), -GROWTH_LIMIT);
}

#[test]
fn growth_without_room() {
    let mut generator = names();
    let mut population = Population::default();
    population.set_capacity(0);
    assert_eq!(population.calculate_growth(), None);
    population.apply_growth();
    assert_eq!(population.get_growth_accumulator(), 0);
    population.add(man(&mut generator, "Hall", on(980, 0, 0)));
    assert_eq!(population.calculate_growth(), None);
    population.apply_growth();
    assert_eq!(population.get_growth_accumulator(), -GROWTH_LIMIT);
}

#[test]
fn a_full_population_does_not_grow() {
    let mut generator = names();
    let mut population = Population::default();
    population.set_capacity(3);
    for _ in 0..3 {
        population.add(man(&mut generator, "Hall", on(980, 0, 0)));
    }
    assert_eq!(population.calculate_growth(), Some(0));
    population.apply_growth();
    assert_eq!(population.get_growth_accumulator(), 0);
}

#[test]
fn marry_tags_both_and_renames_the_bride() {
    let mut generator = names();
    let mut population = Population::default();
    let groom = man(&mut generator, "Smith", on(970, 0, 0));
    let bride = woman(&mut generator, "Jones", on(971, 0, 0));
    let (g, b) = (groom.get_id(), bride.get_id());
    population.marry(groom, bride);
    assert_eq!(population.size(), 2);
    assert_eq!(find(&population, g).get_spouse(), Some(b));
    assert_eq!(find(&population, b).get_spouse(), Some(g));
    assert_eq!(find(&population, g).get_last_name(), "Smith");
    assert_eq!(find(&population, b).get_last_name(), "Smith");
    assert_eq!(find(&population, b).get_first_name(), "Eve");
    assert_coherent(&population);
}

#[test]
fn random_marriage_weds_a_fertile_pair() {
    let mut rng = StdRng::seed_from_u64(11);
    let mut generator = names();
    let mut population = Population::default();
    let mut groom = man(&mut generator, "Smith", on(970, 0, 0));
    groom.get_attr_mut().set_fertile();
    let mut bride = woman(&mut generator, "Jones", on(971, 0, 0));
    bride.get_attr_mut().set_fertile();
    let child = woman(&mut generator, "Hall", on(999, 0, 0));
    let (g, b, c) = (groom.get_id(), bride.get_id(), child.get_id());
    population.add(groom);
    population.add(bride);
    population.add(child);
    assert!(population.random_marriage(&mut rng));
    assert_eq!(population.size(), 3);
    assert_eq!(find(&population, g).get_spouse(), Some(b));
    assert_eq!(find(&population, b).get_spouse(), Some(g));
    assert_eq!(find(&population, b).get_last_name(), "Smith");
    assert_eq!(find(&population, c).get_spouse(), None);
    assert_eq!(find(&population, c).get_last_name(), "Hall");
    assert_eq!(population.get_marriage_ratio(), (2, 3));
    assert_coherent(&population);
    assert!(!population.random_marriage(&mut rng));
    assert_eq!(population.get_marriage_ratio(), (2, 3));
}

#[test]
fn marriage_phase_ends_when_nobody_is_left_to_wed() {
    let mut rng = StdRng::seed_from_u64(12);
    let mut generator = names();
    let mut population = Population::default();
    let mut bachelor = man(&mut generator, "Smith", on(970, 0, 0));
    bachelor.get_attr_mut().set_fertile();
    let girl = woman(&mut generator, "Jones", on(999, 0, 0));
    let (a, b) = (bachelor.get_id(), girl.get_id());
    population.add(bachelor);
    population.add(girl);
    assert!(!population.random_marriage(&mut rng));
    population.handle_marriages(&mut rng);
    assert_eq!(population.size(), 2);
    assert_eq!(population.get_marriage_ratio(), (0, 2));
    assert_eq!(population.get_growth_accumulator(), 0);
    assert_eq!(find(&population, a).get_spouse(), None);
    assert_eq!(find(&population, b).get_spouse(), None);
    assert!(find(&population, a).get_attr().is_fertile());
    assert_eq!(find(&population, a).get_last_name(), "Smith");
    assert_coherent(&population);
}

#[test]
fn marriage_phase_stops_at_two_thirds() {
    let mut rng = StdRng::seed_from_u64(13);
    let mut generator = names();
    let mut population = Population::default();
    for _ in 0..3 {
        let mut m = man(&mut generator, "Smith", on(970, 0, 0));
        m.get_attr_mut().set_fertile();
        population.add(m);
        let mut w = woman(&mut generator, "Jones", on(970, 0, 0));
        w.get_attr_mut().set_fertile();
        population.add(w);
    }
    population.handle_marriages(&mut rng);
    assert_eq!(population.get_marriage_ratio(), (4, 6));
    assert_coherent(&population);
}

#[test]
fn death_widows_the_spouse() {
    let mut generator = names();
    let mut population = Population::default();
    let mut husband = man(&mut generator, "Smith", on(970, 0, 0));
    husband.get_attr_mut().set_fertile();
    let mut bride = woman(&mut generator, "Jones", on(971, 0, 0));
    bride.get_attr_mut().set_fertile();
    let (a, b) = (husband.get_id(), bride.get_id());
    population.marry(husband, bride);
    population.add(man(&mut generator, "Hall", on(960, 0, 0)));
    population.kill_person(a);
    assert_eq!(population.size(), 2);
    assert!(population.get_by_id(a).is_none());
    let widow = find(&population, b);
    assert_eq!(widow.get_spouse(), None);
    assert!(!widow.get_attr().is_married());
    assert!(widow.get_attr().is_female());
    assert!(widow.get_attr().is_fertile());
    assert_eq!(widow.get_last_name(), "Smith");
    assert_coherent(&population);
}

#[test]
fn death_of_both_spouses_in_one_list() {
    let mut generator = names();
    let mut population = Population::default();
    let husband = man(&mut generator, "Smith", on(970, 0, 0));
    let bride = woman(&mut generator, "Jones", on(971, 0, 0));
    let other = man(&mut generator, "Hall", on(960, 0, 0));
    let (a, b, c) = (husband.get_id(), bride.get_id(), other.get_id());
    population.marry(husband, bride);
    population.add(other);
    population.kill_people(&vec![a, b]);
    assert_eq!(population.size(), 1);
    assert!(population.get_by_id(a).is_none());
    assert!(population.get_by_id(b).is_none());
    assert_eq!(find(&population, c).get_last_name(), "Hall");
    population.kill_people(&vec![]);
    assert_eq!(population.size(), 1);
    assert_coherent(&population);
}

#[test]
fn death_of_an_unmarried_member_changes_nobody_else() {
    let mut generator = names();
    let mut population = Population::default();
    let husband = man(&mut generator, "Smith", on(970, 0, 0));
    let bride = woman(&mut generator, "Jones", on(971, 0, 0));
    let other = man(&mut generator, "Hall", on(960, 0, 0));
    let (a, b, c) = (husband.get_id(), bride.get_id(), other.get_id());
    population.marry(husband, bride);
    population.add(other);
    population.kill_person(c);
    assert_eq!(population.size(), 2);
    assert_eq!(find(&population, a).get_spouse(), Some(b));
    assert_eq!(find(&population, b).get_spouse(), Some(a));
    assert_coherent(&population);
}

#[test]
fn nobody_dies_at_the_safest_age_alone() {
    let mut rng = StdRng::seed_from_u64(14);
    let mut generator = names();
    let mut population = Population::default();
    let today = on(1026, 0, 0);
    for _ in 0..50 {
        population.add(man(&mut generator, "Hall", on(1000, 0, 0)));
    }
    for _ in 0..20 {
        population.handle_deaths(today, &mut rng);
    }
    assert_eq!(population.size(), 50);
}

#[test]
fn the_very_old_die() {
    let mut rng = StdRng::seed_from_u64(15);
    let mut generator = names();
    let mut population = Population::default();
    let today = on(100_000, 0, 0);
    for _ in 0..50 {
        population.add(man(&mut generator, "Hall", on(1000, 0, 0)));
    }
    population.handle_deaths(today, &mut rng);
    assert_eq!(population.size(), 0);
}

#[test]
fn deaths_thin_out_and_keep_the_rest_coherent() {
    let mut rng = StdRng::seed_from_u64(16);
    let mut generator = names();
    let today = on(1100, 0, 0);
    let mut population = Population::new(200, 400, today, &mut generator, &mut rng);
    let later = on(1160, 0, 0);
    population.handle_deaths(later, &mut rng);
    assert!(population.size() < 200);
    assert!(population.size() > 0);
    assert_coherent(&population);
}

#[test]
fn fertility_follows_the_age() {
    let mut generator = names();
    let mut population = Population::default();
    let today = on(1040, 0, 0);
    let child = man(&mut generator, "Hall", on(1027, 0, 0));
    let young = man(&mut generator, "Hall", on(1026, 0, 0));
    let grown = woman(&mut generator, "Hall", on(1000, 0, 1));
    let mut old = woman(&mut generator, "Hall", on(1000, 0, 0));
    old.get_attr_mut().set_fertile();
    let mut early = man(&mut generator, "Hall", on(1035, 0, 0));
    early.get_attr_mut().set_fertile();
    let ids = [child.get_id(), young.get_id(), grown.get_id(), old.get_id(), early.get_id()];
    population.add(child);
    population.add(young);
    population.add(grown);
    population.add(old);
    population.add(early);
    population.handle_fertility(today);
    assert!(!find(&population, ids[0]).get_attr().is_fertile());
    assert!(find(&population, ids[1]).get_attr().is_fertile());
    assert!(find(&population, ids[2]).get_attr().is_fertile());
    assert!(!find(&population, ids[3]).get_attr().is_fertile());
    assert!(find(&population, ids[4]).get_attr().is_fertile());
    assert_eq!(population.size(), 5);
    assert_fertile_as_aged(&population, today);
    assert_coherent(&population);
}

#[test]
fn birth_that_is_due() {
    let mut rng = StdRng::seed_from_u64(17);
    let mut generator = names();
    let mut population = Population::default();
    let due = on(1030, 4, 5);
    let father = man(&mut generator, "Smith", on(1000, 0, 0));
    let mut mother = woman(&mut generator, "Jones", on(1001, 0, 0));
    let bystander = woman(&mut generator, "Hall", on(1002, 0, 0));
    for _ in 0..5 {
        generator.make_person(true, None, None);
    }
    mother.get_attr_mut().set_pregnant(7, due, 2);
    let (m, other) = (mother.get_id(), bystander.get_id());
    population.add(father);
    population.add(mother);
    population.add(bystander);
    let first_new = generator.get_next_id();
    population.handle_births(due, &mut generator, &mut rng);
    assert_eq!(population.size(), 5);
    assert_eq!(generator.get_next_id(), first_new + 2);
    assert!(!find(&population, m).get_attr().has_attribute(&pregnant_kind()));
    assert!(find(&population, m).get_attr().is_female());
    let children: Vec<Person> = population
        .get_population()
        .iter()
        .filter(|p| p.get_mother() == Some(m))
        .cloned()
        .collect();
    assert_eq!(children.len(), 2);
    for child in children.iter() {
        assert_eq!(child.get_father(), Some(7));
        assert_eq!(child.get_birthday(), due);
        assert_eq!(child.get_last_name(), "Jones");
        assert!(child.get_id() >= first_new && child.get_id() < first_new + 2);
        assert_eq!(child.get_attr().get_list().len(), 1);
        assert!(child.get_attr().is_male() != child.get_attr().is_female());
    }
    assert_ne!(children[0].get_id(), children[1].get_id());
    assert_eq!(find(&population, other).get_mother(), None);
    assert_coherent(&population);
}

#[test]
fn birth_that_is_overdue_and_birth_that_is_not_due() {
    let mut rng = StdRng::seed_from_u64(18);
    let mut generator = names();
    let mut population = Population::default();
    let today = on(1030, 4, 5);
    let mut early = woman(&mut generator, "Jones", on(1001, 0, 0));
    early.get_attr_mut().set_pregnant(3, today + 1, 4);
    let mut late = woman(&mut generator, "Smith", on(1001, 0, 0));
    late.get_attr_mut().set_pregnant(5, today - 100, 1);
    let (e, l) = (early.get_id(), late.get_id());
    population.add(early);
    population.add(late);
    population.handle_births(today, &mut generator, &mut rng);
    assert_eq!(population.size(), 3);
    match find(&population, e).get_attr().get_list().iter().find(|t| **t == pregnant_kind()) {
        Some(Attribute::Pregnant { father_id, birth, count }) => {
            assert_eq!(*father_id, 3);
            assert_eq!(*birth, today + 1);
            assert_eq!(*count, 4);
        }
        _ => panic!("the pregnancy was to stay"),
    }
    assert!(!find(&population, l).get_attr().has_attribute(&pregnant_kind()));
    let child = population.get_population().iter().find(|p| p.get_mother() == Some(l)).expect("a child was due");
    assert_eq!(child.get_father(), Some(5));
    assert_eq!(child.get_birthday(), today - 100);
    assert_eq!(child.get_last_name(), "Smith");
    assert!(population.get_population().iter().all(|p| p.get_mother() != Some(e)));
    assert_coherent(&population);
}

#[test]
fn no_woman_no_pregnancy() {
    let mut rng = StdRng::seed_from_u64(19);
    let mut generator = names();
    let mut population = Population::default();
    population.set_capacity(1000);
    for _ in 0..30 {
        let mut m = man(&mut generator, "Hall", on(1000, 0, 0));
        m.get_attr_mut().set_fertile();
        population.add(m);
    }
    let today = on(1030, 0, 0);
    for _ in 0..20 {
        assert!(!population.random_pregnancy(today, &mut rng));
    }
    assert_eq!(population.get_growth_accumulator(), 0);
    population.handle_growth(today, &mut rng);
    assert_eq!(population.get_growth_accumulator(), 2_910_000);
    assert_eq!(population.size(), 30);
    assert!(population.get_population().iter().all(|p| !p.get_attr().has_attribute(&pregnant_kind())));
}

#[test]
fn growth_starts_nothing_below_one_pregnancy() {
    let mut rng = StdRng::seed_from_u64(26);
    let mut generator = names();
    let mut population = Population::default();
    for _ in 0..5 {
        population.marry(man(&mut generator, "Smith", on(1000, 0, 0)), woman(&mut generator, "Jones", on(1001, 0, 0)));
    }
    let today = on(1030, 0, 0);
    assert_eq!(population.calculate_growth(), Some(800_000));
    population.handle_growth(today, &mut rng);
    assert_eq!(population.get_growth_accumulator(), 800_000);
    assert_eq!(pregnancies(&population), 0);
    assert_eq!(population.size(), 10);
}

#[test]
fn growth_starts_a_pregnancy_for_each_that_has_built_up() {
    for seed in 0..20u64 {
        let mut rng = StdRng::seed_from_u64(200 + seed);
        let mut generator = names();
        let mut population = Population::default();
        population.set_capacity(10_000);
        for _ in 0..40 {
            population.marry(man(&mut generator, "Smith", on(1000, 0, 0)), woman(&mut generator, "Jones", on(1001, 0, 0)));
        }
        let today = on(1030, 0, 0);
        let names_before: Vec<String> = population.get_population().iter().map(|p| p.to_string()).collect();
        assert_eq!(population.calculate_growth(), Some(7_936_000));
        population.handle_growth(today, &mut rng);
        assert_eq!(pregnancies(&population), 7);
        assert_eq!(population.get_growth_accumulator(), 936_000);
        assert_eq!(population.size(), 80);
        for p in population.get_population() {
            assert!(names_before.contains(&p.to_string()));
            assert!(p.get_attr().is_married());
            if let Some(Attribute::Pregnant { father_id, birth, count }) = p.get_attr().get_pregnancy() {
                assert!(p.get_attr().is_female());
                assert_eq!(p.get_spouse(), Some(father_id));
                assert!(count >= 1 && count <= 4);
                let days = birth.get_day_number() - today.get_day_number();
                assert!(days >= 260 && days < 639);
            }
        }
        assert_coherent(&population);
    }
}

#[test]
fn growth_stops_when_one_pregnancy_is_left() {
    let mut rng = StdRng::seed_from_u64(27);
    let mut generator = names();
    let mut population = Population::default();
    population.set_capacity(10_000);
    for _ in 0..200 {
        population.marry(man(&mut generator, "Smith", on(1000, 0, 0)), woman(&mut generator, "Jones", on(1001, 0, 0)));
    }
    let today = on(1030, 0, 0);
    population.handle_growth(today, &mut rng);
    assert_eq!(population.get_growth_accumulator(), 1_000_000);
    assert_eq!(pregnancies(&population), 9);
    population.handle_growth(today, &mut rng);
    assert_eq!(population.get_growth_accumulator(), 1_000_000);
    assert_eq!(pregnancies(&population), 18);
}

#[test]
fn married_mother_conceives_from_her_husband() {
    let mut rng = StdRng::seed_from_u64(20);
    let mut generator = names();
    let mut population = Population::default();
    let husband = man(&mut generator, "Smith", on(1000, 0, 0));
    let bride = woman(&mut generator, "Jones", on(1001, 0, 0));
    let (h, w) = (husband.get_id(), bride.get_id());
    population.marry(husband, bride);
    for _ in 0..5 {
        population.add(man(&mut generator, "Hall", on(1000, 0, 0)));
    }
    let today = on(1030, 0, 0);
    assert!(population.random_pregnancy(today, &mut rng));
    assert_eq!(population.get_growth_accumulator(), -GROWTH_UNIT);
    assert_eq!(population.size(), 7);
    match find(&population, w).get_attr().get_list().iter().find(|t| **t == pregnant_kind()) {
        Some(Attribute::Pregnant { father_id, birth, count }) => {
            assert_eq!(*father_id, h);
            assert!(*count >= 1 && *count <= 4);
            let days = birth.get_day_number() - today.get_day_number();
            assert!(days >= 260 && days < 280);
        }
        _ => panic!("a pregnancy was due"),
    }
    assert_eq!(find(&population, w).get_spouse(), Some(h));
    assert!(!population.random_pregnancy(today, &mut rng));
    assert_eq!(population.get_growth_accumulator(), -GROWTH_UNIT);
    assert_coherent(&population);
}

#[test]
fn mother_without_any_man_stays_as_she_is() {
    let mut rng = StdRng::seed_from_u64(21);
    let mut generator = names();
    let mut population = Population::default();
    population.add(woman(&mut generator, "Jones", on(1001, 0, 0)));
    let today = on(1030, 0, 0);
    let mut found_mother = 0;
    for _ in 0..40 {
        if population.random_pregnancy(today, &mut rng) {
            found_mother += 1;
        }
        assert_eq!(population.get_growth_accumulator(), 0);
        assert_eq!(population.size(), 1);
        assert!(!population.get_population()[0].get_attr().has_attribute(&pregnant_kind()));
    }
    assert!(found_mother > 0);
    assert!(found_mother < 40);
}

#[test]
fn litters_are_mostly_single() {
    let mut rng = StdRng::seed_from_u64(22);
    let mut generator = names();
    let mut population = Population::default();
    population.add(man(&mut generator, "Smith", on(1000, 0, 0)));
    for _ in 0..400 {
        population.add(woman(&mut generator, "Jones", on(1001, 0, 0)));
    }
    let today = on(1030, 0, 0);
    let mut conceived = 0;
    for _ in 0..400 {
        population.apply_growth();
        if population.random_pregnancy(today, &mut rng) {
            conceived += 1;
        }
    }
    assert!(conceived > 100);
    let mut counts = [0usize; 5];
    let mut dues = std::collections::BTreeSet::new();
    for p in population.get_population() {
        if let Some(Attribute::Pregnant { father_id: _, birth, count }) =
            p.get_attr().get_list().iter().find(|t| **t == pregnant_kind())
        {
            assert!(*count >= 1 && *count <= 4);
            counts[*count as usize] += 1;
            dues.insert(birth.get_day_number());
        }
    }
    assert!(counts[1] > counts[2] + counts[3] + counts[4]);
    assert!(dues.len() > 1);
    assert!(dues.iter().all(|d| *d >= today.get_day_number() + 260 && *d < today.get_day_number() + 280));
}

#[test]
fn pop_by_attribute_list_takes_all_who_match() {
    let mut generator = names();
    let mut population = Population::default();
    for i in 0..9u32 {
        if i % 2 == 0 {
            population.add(woman(&mut generator, "Jones", on(1001, 0, 0)));
        } else {
            population.add(man(&mut generator, "Smith", on(1001, 0, 0)));
        }
    }
    let women = AttributeList::builder().set_female().build();
    let nobody = AttributeList::default();
    let taken = population.pop_by_attribute_list(&women, &nobody);
    assert_eq!(taken.len(), 5);
    assert!(taken.iter().all(|p| p.get_attr().is_female()));
    assert_eq!(population.size(), 4);
    assert!(population.get_population().iter().all(|p| p.get_attr().is_male()));
    let again = population.pop_by_attribute_list(&women, &nobody);
    assert!(again.is_empty());
    assert_eq!(population.size(), 4);
}

#[test]
fn random_picks_match_and_vary() {
    let mut rng = StdRng::seed_from_u64(23);
    let mut generator = names();
    let mut population = Population::default();
    for i in 0..20u32 {
        if i % 2 == 0 {
            population.add(woman(&mut generator, "Jones", on(1001, 0, 0)));
        } else {
            population.add(man(&mut generator, "Smith", on(1001, 0, 0)));
        }
    }
    let women = AttributeList::builder().set_female().build();
    let men = AttributeList::builder().set_male().build();
    let nobody = AttributeList::default();
    let mut picked = std::collections::BTreeSet::new();
    for _ in 0..100 {
        let p = population.get_random_by_attribute_list(&women, &nobody, &mut rng).expect("a woman was due");
        assert!(p.get_attr().is_female());
        picked.insert(p.get_id());
    }
    assert!(picked.len() > 1);
    assert!(population.get_random_by_attribute_list(&women, &women, &mut rng).is_none());
    assert!(population.pop_random_by_attribute_list(&men, &men, &mut rng).is_none());
    let p = population.pop_random_by_attribute_list(&men, &women, &mut rng).expect("a man was due");
    assert!(p.get_attr().is_male());
    assert_eq!(population.size(), 19);
    assert!(population.get_by_id(p.get_id()).is_none());
}

#[test]
fn new_population_is_coherent() {
    let mut rng = StdRng::seed_from_u64(24);
    let mut generator = names();
    let today = on(1100, 5, 5);
    let population = Population::new(60, 120, today, &mut generator, &mut rng);
    assert_eq!(population.size(), 60);
    assert_eq!(population.get_capacity(), 120);
    assert_eq!(population.get_growth_accumulator(), 0);
    assert_eq!(generator.get_next_id(), 60);
    for p in population.get_population() {
        let days = today.get_day_number() - p.get_birthday().get_day_number();
        assert!(days >= 5 * 360 && days < 40 * 360);
        assert!(p.get_id() < 60);
    }
    assert!(population.get_marriage_ratio().0 > 0);
    assert_fertile_as_aged(&population, today);
    assert_coherent(&population);
}

#[test]
fn empty_population_can_be_made_and_updated() {
    let mut rng = StdRng::seed_from_u64(25);
    let mut generator = names();
    let today = on(1100, 5, 5);
    let mut population = Population::new(0, 10, today, &mut generator, &mut rng);
    assert_eq!(population.size(), 0);
    population.update(today + 360, &mut generator, &mut rng);
    assert_eq!(population.size(), 0);
    assert_eq!(population.get_growth_accumulator(), 0);
}

#[test]
fn many_ticks_keep_the_population_coherent() {
    for seed in 0..6u64 {
        let mut rng = StdRng::seed_from_u64(100 + seed);
        let mut generator = names();
        let mut today = on(1100, 0, 0);
        let mut population = Population::new(30, 60, today, &mut generator, &mut rng);
        let mut births = 0;
        for _ in 0..150 {
            today = today + 120;
            let before = generator.get_next_id();
            let earlier = population.clone();
            population.update(today, &mut generator, &mut rng);
            births += generator.get_next_id() - before;
            assert_coherent(&population);
            assert_after_tick(&earlier, &population, today, before);
            assert_fertile_as_aged(&population, today);
            for p in population.get_population() {
                assert!(p.get_birthday() <= today);
                assert!(p.get_id() < generator.get_next_id());
            }
        }
        assert!(births > 0);
    }
}
