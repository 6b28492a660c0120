use procedural_towns::person::rates::GROWTH_LIMIT;
use procedural_towns::person::{Attribute, AttributeList, Person, PersonGenerator, Population};
use procedural_towns::utility::Date;
use rand::rngs::StdRng;
use rand::SeedableRng;

fn at(year: u32, month: u32, day: u32) -> Date {
    let mut d = Date::default();
    d.set_year(year);
    d.set_month(month);
    d.set_day(day);
    d
}

fn pools() -> PersonGenerator {
    PersonGenerator::new("Adam\nBert", "Dora\nEve", "Smith\nJones")
}

fn member(generator: &mut PersonGenerator, male: bool, born: Date) -> Person {
    let mut p = generator.make_person(male, None, None);
    p.set_birthday(born);
    p
}

#[test]
fn consistent_tags() {
    let mut list = AttributeList::default();
    assert!(!list.is_consistent());
    list.set_female();
    assert!(list.is_consistent());
    list.set_fertile();
    list.set_married(3);
    list.set_pregnant(3, Date::default(), 1);
    assert!(list.is_consistent());
    list.set_pregnant(4, Date::default(), 1);
    assert!(list.is_consistent());
    list.add(Attribute::Pregnant { father_id: 5, birth: Date::default(), count: 1 });
    assert!(!list.is_consistent());
    list.pop_pregnancy();
    assert!(list.is_consistent());
    list.set_male();
    assert!(!list.is_consistent());
    list.pop_pregnancy();
    assert!(list.is_consistent());
    list.add(Attribute::Female);
    assert!(!list.is_consistent());
    list.remove_attribute(&Attribute::Female);
    list.add(Attribute::Married(9));
    assert!(!list.is_consistent());
}

#[test]
fn get_pregnancy_reads_the_tag() {
    let mut list = AttributeList::default();
    list.set_female();
    assert!(list.get_pregnancy().is_none());
    let due = Date::default() + 5;
    list.set_pregnant(11, due, 3);
    match list.get_pregnancy() {
        Some(Attribute::Pregnant { father_id, birth, count }) => {
            assert_eq!((father_id, birth, count), (11, due, 3));
        }
        _ => panic!("a Pregnant tag was due"),
    }
    assert_eq!(list.get_list().len(), 2);
}

#[test]
fn born_by_compares_the_birthday() {
    let mut p = Person::new(0);
    p.set_birthday(at(1000, 5, 5));
    assert!(p.is_born_by(&at(1000, 5, 5)));
    assert!(p.is_born_by(&at(1000, 5, 6)));
    assert!(!p.is_born_by(&at(1000, 5, 4)));
    assert!(!p.is_born_by(&at(999, 11, 29)));
}

#[test]
fn well_formed_population() {
    let mut generator = pools();
    let mut population = Population::default();
    assert!(population.is_well_formed());
    population.marry(member(&mut generator, true, at(1000, 0, 0)), member(&mut generator, false, at(1000, 0, 0)));
    population.add(member(&mut generator, true, at(1000, 0, 0)));
    assert!(population.is_well_formed());
}

#[test]
fn population_with_a_double_id_is_not_well_formed() {
    let mut generator = pools();
    let mut population = Population::default();
    let p = member(&mut generator, true, at(1000, 0, 0));
    population.add(p.clone());
    population.add(member(&mut generator, false, at(1000, 0, 0)));
    assert!(population.is_well_formed());
    population.add(p);
    assert!(!population.is_well_formed());
}

#[test]
fn population_with_a_one_sided_marriage_is_not_well_formed() {
    let mut generator = pools();
    let mut population = Population::default();
    let mut husband = member(&mut generator, true, at(1000, 0, 0));
    let wife = member(&mut generator, false, at(1000, 0, 0));
    husband.get_attr_mut().set_married(wife.get_id());
    population.add(husband);
    assert!(!population.is_well_formed());
    population.add(wife);
    assert!(!population.is_well_formed());
}

#[test]
fn population_with_a_self_marriage_is_not_well_formed() {
    let mut generator = pools();
    let mut population = Population::default();
    let mut p = member(&mut generator, true, at(1000, 0, 0));
    let own_id = p.get_id();
    p.get_attr_mut().set_married(own_id);
    population.add(p);
    assert!(!population.is_well_formed());
}

#[test]
fn population_with_a_marriage_to_the_wrong_one_is_not_well_formed() {
    let mut generator = pools();
    let mut population = Population::default();
    let mut a = member(&mut generator, true, at(1000, 0, 0));
    let mut b = member(&mut generator, false, at(1000, 0, 0));
    let mut c = member(&mut generator, true, at(1000, 0, 0));
    a.get_attr_mut().set_married(b.get_id());
    b.get_attr_mut().set_married(c.get_id());
    c.get_attr_mut().set_married(b.get_id());
    population.add(a);
    population.add(b);
    population.add(c);
    assert!(!population.is_well_formed());
}

#[test]
fn population_with_inconsistent_tags_is_not_well_formed() {
    let mut generator = pools();
    let mut population = Population::default();
    let mut p = member(&mut generator, true, at(1000, 0, 0));
    p.get_attr_mut().add(Attribute::Female);
    population.add(p);
    assert!(!population.is_well_formed());
    let mut other = Population::default();
    other.add(Person::new(1));
    assert!(!other.is_well_formed());
}

#[test]
fn ids_below_and_born_by() {
    let mut generator = pools();
    let mut population = Population::default();
    assert!(population.has_ids_below(0));
    assert!(population.is_born_by(at(0, 0, 0)));
    population.add(member(&mut generator, true, at(1000, 0, 0)));
    population.add(member(&mut generator, false, at(1010, 0, 0)));
    assert!(population.has_ids_below(2));
    assert!(population.has_ids_below(u32::MAX));
    assert!(!population.has_ids_below(1));
    assert!(population.is_born_by(at(1010, 0, 0)));
    assert!(!population.is_born_by(at(1009, 11, 29)));
}

#[test]
fn pending_births_add_up_the_due_litters() {
    let mut generator = pools();
    let mut population = Population::default();
    let today = at(1030, 0, 0);
    assert_eq!(population.count_pending_births(today), 0);
    let mut a = member(&mut generator, false, at(1000, 0, 0));
    a.get_attr_mut().set_pregnant(1, today, 2);
    let mut b = member(&mut generator, false, at(1000, 0, 0));
    b.get_attr_mut().set_pregnant(1, today + 1, 3);
    let mut c = member(&mut generator, false, at(1000, 0, 0));
    c.get_attr_mut().set_pregnant(1, today - 400, u32::MAX);
    population.add(a);
    population.add(member(&mut generator, true, at(1000, 0, 0)));
    population.add(b);
    assert_eq!(population.count_pending_births(today), 2);
    assert_eq!(population.count_pending_births(today + 1), 5);
    assert_eq!(population.count_pending_births(today - 1), 0);
    population.add(c);
    assert_eq!(population.count_pending_births(today), 2 + u32::MAX as u128);
}

#[test]
fn can_update_tells_when_a_tick_can_be_made() {
    let mut rng = StdRng::seed_from_u64(31);
    let mut generator = pools();
    let today = at(1100, 0, 0);
    let mut population = Population::new(10, 20, today, &mut generator, &mut rng);
    assert!(population.can_update(today, &generator));
    assert!(population.can_update(today + 1000, &generator));
    assert!(!population.can_update(at(1050, 0, 0), &generator));
    assert!(!population.can_update(at(u32::MAX, 0, 0), &generator));
    assert!(!population.can_update(at(u32::MAX - 1, 2, 22), &generator));
    assert!(population.can_update(at(u32::MAX - 1, 2, 21), &generator));
    let other = pools();
    assert!(!population.can_update(today, &other));
    let mut mother = member(&mut generator, false, at(1080, 0, 0));
    mother.get_attr_mut().set_pregnant(0, today, u32::MAX);
    population.add(mother);
    assert!(!population.can_update(today, &generator));
    assert!(population.can_update(today - 1, &generator));
    population.add(Person::new(500));
    assert!(!population.can_update(today - 1, &generator));
}

#[test]
fn growth_accumulator_stays_within_ten() {
    let mut rng = StdRng::seed_from_u64(32);
    let mut generator = pools();
    let mut today = at(1100, 0, 0);
    let mut population = Population::new(40, 400, today, &mut generator, &mut rng);
    let mut highest = 0;
    let mut lowest = 0;
    for tick in 0..300 {
        today = today + 30;
        if tick == 150 {
            population.set_capacity(3);
        }
        assert!(population.can_update(today, &generator));
        population.update(today, &mut generator, &mut rng);
        let growth = population.get_growth_accumulator();
        assert!(growth >= -GROWTH_LIMIT && growth <= GROWTH_LIMIT);
        highest = highest.max(growth);
        lowest = lowest.min(growth);
    }
    assert!(highest > 0);
    assert_eq!(lowest, -GROWTH_LIMIT);
}
