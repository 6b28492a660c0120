use procedural_towns::person::rates::GROWTH_LIMIT;
use procedural_towns::person::{Person, PersonGenerator};
use procedural_towns::town::Town;
use procedural_towns::utility::text::decimal_text;
use procedural_towns::utility::Date;
use procedural_towns::world::World;
use rand::rngs::StdRng;
use rand::SeedableRng;

fn the(year: u32, month: u32, day: u32) -> Date {
    let mut d = Date::default();
    d.set_year(year);
    d.set_month(month);
    d.set_day(day);
    d
}

fn name_pools() -> PersonGenerator {
    PersonGenerator::new("Adam\nBert\nCarl", "Dora\nEve\nFay", "Smith\nJones\nHall")
}

#[test]
fn numbers_as_text() {
    assert_eq!(decimal_text(0), "0");
    assert_eq!(decimal_text(7), "7");
    assert_eq!(decimal_text(10), "10");
    assert_eq!(decimal_text(1234567890), "1234567890");
    assert_eq!(decimal_text(u64::MAX), "18446744073709551615");
    for n in 0..2000u64 {
        assert_eq!(decimal_text(n), format!("{}", n));
    }
}

#[test]
fn date_as_text_counts_month_and_day_from_one() {
    assert_eq!(Date::default().to_string(), "1000-1-1");
    assert_eq!(the(1234, 11, 29).to_string(), "1234-12-30");
    assert_eq!(the(0, 9, 9).to_string(), "0-10-10");
}

#[test]
fn person_as_text() {
    let mut p = Person::new(17);
    assert_eq!(p.to_string(), "id = 17, name = Unknown McUnknownFace, birthday = 1000-1-1");
    p.set_first_name("Ada");
    p.set_last_name("Hall");
    p.set_birthday(the(990, 0, 4));
    assert_eq!(p.to_string(), "id = 17, name = Ada Hall, birthday = 990-1-5");
}

#[test]
fn clones_are_values_of_their_own() {
    let mut p = Person::new(3);
    p.set_female();
    p.get_attr_mut().set_married(9);
    let mut q = p.clone();
    assert_eq!(q.to_string(), p.to_string());
    assert_eq!(q.get_spouse(), Some(9));
    assert!(q.get_attr().is_female());
    q.get_attr_mut().pop_marriage();
    q.set_last_name("Other");
    assert_eq!(p.get_spouse(), Some(9));
    assert_eq!(p.get_last_name(), "McUnknownFace");
    let tags = p.get_attr().clone();
    assert_eq!(tags.get_list().len(), 2);
    assert_eq!(tags.get_spouse(), Some(9));
}

#[test]
fn founded_town() {
    let mut rng = StdRng::seed_from_u64(41);
    let mut generator = name_pools();
    let date = the(1500, 3, 3);
    let town = Town::found("Townshire", date, &mut generator, &mut rng);
    let size = town.get_population().size();
    assert_eq!(town.get_name(), "Townshire");
    assert_eq!(*town.get_date(), date);
    assert!(size >= 10 && size < 20);
    let capacity = town.get_population().get_capacity();
    assert!(capacity >= 2 * size && capacity < 5 * size);
    assert_eq!(generator.get_next_id(), size);
    assert_eq!(town.get_population().get_growth_accumulator(), 0);
    assert!(town.is_well_formed());
    assert!(town.can_progress_year(&generator));
    assert_eq!(town.to_string(), format!("Town Townshire in 1500-4-4, inhabitants: {}", size));
}

#[test]
fn towns_differ_with_the_seed() {
    let mut sizes = std::collections::BTreeSet::new();
    for seed in 0..40u64 {
        let mut rng = StdRng::seed_from_u64(seed);
        let mut generator = name_pools();
        let town = Town::found("Townshire", the(1500, 0, 0), &mut generator, &mut rng);
        sizes.insert(town.get_population().size());
    }
    assert!(sizes.len() > 1);
}

#[test]
fn the_same_seed_founds_the_same_town() {
    let mut first_rng = StdRng::seed_from_u64(42);
    let mut second_rng = StdRng::seed_from_u64(42);
    let mut first_generator = name_pools();
    let mut second_generator = name_pools();
    let first = Town::found("A", the(1500, 0, 0), &mut first_generator, &mut first_rng);
    let second = Town::found("A", the(1500, 0, 0), &mut second_generator, &mut second_rng);
    let first_year = first.progress_year(&mut first_generator);
    let second_year = second.progress_year(&mut second_generator);
    let people = first_year.get_population().get_population();
    let others = second_year.get_population().get_population();
    assert_eq!(people.len(), others.len());
    for (p, q) in people.iter().zip(others.iter()) {
        assert_eq!(p.to_string(), q.to_string());
        assert_eq!(p.get_spouse(), q.get_spouse());
    }
}

#[test]
fn a_year_makes_a_new_town_and_leaves_the_old_one() {
    let mut rng = StdRng::seed_from_u64(43);
    let mut generator = name_pools();
    let date = the(1500, 3, 3);
    let town = Town::found("Townshire", date, &mut generator, &mut rng);
    let size = town.get_population().size();
    let mut current = town.clone();
    for year in 1..=60u32 {
        assert!(current.can_progress_year(&generator));
        let next = current.progress_year(&mut generator);
        assert_eq!(*next.get_date(), the(1500 + year, 3, 3));
        assert_eq!(*current.get_date(), the(1500 + year - 1, 3, 3));
        assert_eq!(next.get_name(), "Townshire");
        assert!(next.is_well_formed());
        assert!(next.get_population().has_ids_below(generator.get_next_id()));
        let growth = next.get_population().get_growth_accumulator();
        assert!(growth >= -GROWTH_LIMIT && growth <= GROWTH_LIMIT);
        for p in next.get_population().get_population() {
            let age = p.get_age(next.get_date());
            assert_eq!(p.get_attr().is_fertile() || age < 14, age < 40);
        }
        current = next;
    }
    assert_eq!(*town.get_date(), date);
    assert_eq!(town.get_population().size(), size);
    assert!(town.get_population().get_population().iter().all(|p| p.get_id() < size));
}

#[test]
fn a_town_at_the_end_of_the_calendar_cannot_progress() {
    let mut rng = StdRng::seed_from_u64(44);
    let mut generator = name_pools();
    let late = Town::found("Last", the(u32::MAX - 1, 0, 0), &mut generator, &mut rng);
    assert!(late.is_well_formed());
    assert!(!late.can_progress_year(&generator));
    let early = Town::found("First", the(u32::MAX - 3, 0, 0), &mut generator, &mut rng);
    assert!(early.can_progress_year(&generator));
    assert!(!early.can_progress_year(&name_pools()));
}

#[test]
fn created_world() {
    let rng = StdRng::seed_from_u64(45);
    let world = World::create(4, rng, name_pools());
    assert!(world.is_well_formed());
    assert_eq!(world.get_towns().len(), 4);
    let date = *world.get_towns()[0].get_date();
    assert!(date.get_year() >= 500 && date.get_year() < 4000);
    let mut people = 0;
    for town in world.get_towns() {
        assert_eq!(town.get_name(), "Townshire");
        assert_eq!(*town.get_date(), date);
        assert!(town.get_population().size() >= 10 && town.get_population().size() < 20);
        people += town.get_population().size();
    }
    assert_eq!(world.get_person_generator().get_next_id(), people);
    let empty = World::create(0, StdRng::seed_from_u64(46), name_pools());
    assert!(empty.get_towns().is_empty());
    assert!(empty.is_well_formed());
}

#[test]
fn world_progresses_every_town_by_a_year() {
    let rng = StdRng::seed_from_u64(47);
    let mut world = World::create(3, rng, name_pools());
    let start = *world.get_towns()[0].get_date();
    for year in 1..=30u32 {
        world.progress();
        assert!(world.is_well_formed());
        assert_eq!(world.get_towns().len(), 3);
        for town in world.get_towns() {
            assert_eq!(*town.get_date(), start + 360 * year);
        }
    }
    let mut ids = std::collections::BTreeSet::new();
    for town in world.get_towns() {
        for p in town.get_population().get_population() {
            assert!(ids.insert(p.get_id()));
            assert!(p.get_id() < world.get_person_generator().get_next_id());
        }
    }
}
