use vstd::prelude::*;
use rand::rngs::StdRng;
use crate::person::roster::ids_below;
use crate::person::roster::same_people;
use crate::person::PersonGenerator;
use crate::town::lemma_a_year_after_earlier;
use crate::town::lemma_can_progress_earlier;
use crate::town::lemma_ids_below_more;
use crate::town::Town;
use crate::utility::Date;

verus! {

/// Whether `after` is the town `before`, as it was: the same name, day,
/// people, capacity and growth.
pub open spec fn unchanged(before: &Town, after: &Town) -> bool {
    &&& after.name() == before.name()
    &&& after.date() == before.date()
    &&& same_people(before.population().members(), after.population().members())
    &&& after.population().capacity() == before.population().capacity()
    &&& after.population().growth() == before.population().growth()
}

/// Towns, and the generator that mints the people of all of them.
pub struct World {
    rng: StdRng,
    person_generator: PersonGenerator,
    towns: Vec<Town>,
}

impl World {
    pub closed spec fn towns(&self) -> Seq<Town> {
        self.towns@
    }

    pub closed spec fn generator(&self) -> PersonGenerator {
        self.person_generator
    }

    /// What holds of a world between years: every town is well formed, and
    /// the ids of its people lie below the next id of the generator.
    pub open spec fn well_formed(&self) -> bool {
        forall|i: int|
            0 <= i < self.towns().len() ==> (#[trigger] self.towns()[i]).well_formed() && ids_below(
                self.towns()[i].population()@,
                self.generator().next_id(),
            )
    }

    /// A world of `town_count` towns named Townshire, all founded on one day
    /// drawn from the years 500 up to 4000, with people from
    /// `person_generator` and with draws from `rng`.
    pub fn create(town_count: u32, rng: StdRng, person_generator: PersonGenerator) -> (r: World)
        requires
            person_generator.next_id() + 19 * town_count <= u32::MAX,
        ensures
            r.well_formed(),
            r.towns().len() == town_count,
            person_generator.same_pools(&r.generator()),
            person_generator.next_id() + 10 * town_count <= r.generator().next_id()
                <= person_generator.next_id() + 19 * town_count,
            forall|i: int|
                0 <= i < r.towns().len() ==> (#[trigger] r.towns()[i]).name() == "Townshire"@
                    && r.towns()[i].date() == r.towns()[0].date() && 500 <= r.towns()[i].date().year()
                    < 4000 && 10 <= r.towns()[i].population().members().len() < 20,
    {
        let ghost given = person_generator;
        let ghost first_id = person_generator.next_id();
        let mut rng = rng;
        let mut person_generator = person_generator;
        let start_date = Date::random(500, 4000, &mut rng);
        let mut towns: Vec<Town> = Vec::new();
        let mut founded: u32 = 0;
        while founded < town_count
            invariant
                founded <= town_count,
                first_id + 19 * town_count <= u32::MAX,
                start_date.valid(),
                500 <= start_date.year() < 4000,
                towns@.len() == founded,
                first_id + 10 * founded <= person_generator.next_id() <= first_id + 19 * founded,
                given.same_pools(&person_generator),
                forall|i: int|
                    0 <= i < towns@.len() ==> (#[trigger] towns@[i]).well_formed() && ids_below(
                        towns@[i].population()@,
                        person_generator.next_id(),
                    ) && towns@[i].name() == "Townshire"@ && towns@[i].date() == start_date && 10
                        <= towns@[i].population().members().len() < 20,
            decreases town_count - founded,
        {
            let ghost so_far = towns@;
            let town = Town::found("Townshire", start_date, &mut person_generator, &mut rng);
            towns.push(town);
            proof {
                assert forall|i: int| 0 <= i < towns@.len() implies (#[trigger] towns@[i]).well_formed()
                    && ids_below(towns@[i].population()@, person_generator.next_id())
                    && towns@[i].name() == "Townshire"@ && towns@[i].date() == start_date && 10
                    <= towns@[i].population().members().len() < 20 by {
                    if i < so_far.len() {
                        assert(towns@[i] == so_far[i]);
                    }
                }
            }
            founded += 1;
        }
        World { rng: rng, person_generator: person_generator, towns: towns }
    }

    /// Advances every town by a year, one after the other. A town that
    /// cannot be advanced, for want of ids or of years, stays as it is.
    pub fn progress(&mut self)
        requires
            old(self).well_formed(),
        ensures
            final(self).well_formed(),
            final(self).towns().len() == old(self).towns().len(),
            old(self).generator().same_pools(&final(self).generator()),
            old(self).generator().next_id() <= final(self).generator().next_id(),
            forall|i: int|
                0 <= i < final(self).towns().len() ==> (#[trigger] final(self).towns()[i]).a_year_after(
                    &old(self).towns()[i],
                    old(self).generator().next_id(),
                ) || unchanged(&old(self).towns()[i], &final(self).towns()[i]),
            forall|i: int|
                0 <= i < final(self).towns().len() && !(#[trigger] old(self).towns()[i]).can_progress(
                    &old(self).generator(),
                ) ==> unchanged(&old(self).towns()[i], &final(self).towns()[i]),
            forall|i: int|
                0 <= i < final(self).towns().len() && (#[trigger] old(self).towns()[i]).can_progress(
                    &final(self).generator(),
                ) ==> final(self).towns()[i].a_year_after(
                    &old(self).towns()[i],
                    old(self).generator().next_id(),
                ),
    {
        let mut next_gen: Vec<Town> = Vec::new();
        let size = self.towns.len();
        let mut i: usize = 0;
        proof {
            assert forall|k: int| 0 <= k < size implies ids_below(
                (#[trigger] self.towns@[k]).population()@,
                self.person_generator.next_id(),
            ) by {
                assert(old(self).towns()[k].well_formed());
            }
        }
        while i < size
            invariant
                i <= size,
                size == self.towns@.len(),
                self.towns@ == old(self).towns@,
                old(self).well_formed(),
                next_gen@.len() == i,
                old(self).person_generator.same_pools(&self.person_generator),
                old(self).person_generator.next_id() <= self.person_generator.next_id(),
                forall|k: int|
                    0 <= k < size ==> ids_below(
                        (#[trigger] self.towns@[k]).population()@,
                        self.person_generator.next_id(),
                    ),
                forall|k: int|
                    0 <= k < i ==> (#[trigger] next_gen@[k]).well_formed() && ids_below(
                        next_gen@[k].population()@,
                        self.person_generator.next_id(),
                    ),
                forall|k: int|
                    0 <= k < i ==> (#[trigger] next_gen@[k]).a_year_after(
                        &self.towns@[k],
                        old(self).person_generator.next_id(),
                    ) && self.towns@[k].can_progress(&old(self).person_generator) || unchanged(
                        &self.towns@[k],
                        &next_gen@[k],
                    ) && !self.towns@[k].can_progress(&self.person_generator),
            decreases size - i,
        {
            let ghost so_far = next_gen@;
            let ghost free_id = self.person_generator.next_id();
            let ghost before = self.person_generator;
            let town = &self.towns[i];
            let progressed = town.can_progress_year(&self.person_generator);
            if progressed {
                let next = town.progress_year(&mut self.person_generator);
                next_gen.push(next);
            } else {
                let same = town.clone();
                next_gen.push(same);
            }
            proof {
                let now = self.person_generator;
                assert(old(self).towns()[i as int].well_formed());
                assert forall|k: int| 0 <= k < size implies ids_below(
                    (#[trigger] self.towns@[k]).population()@,
                    now.next_id(),
                ) by {
                    lemma_ids_below_more(self.towns@[k].population()@, free_id, now.next_id());
                }
                assert forall|k: int| 0 <= k < i + 1 implies (#[trigger] next_gen@[k]).well_formed()
                    && ids_below(next_gen@[k].population()@, now.next_id()) by {
                    if k < i {
                        assert(next_gen@[k] == so_far[k]);
                        lemma_ids_below_more(so_far[k].population()@, free_id, now.next_id());
                    } else {
                        if !progressed {
                            lemma_ids_below_more(
                                self.towns@[k].population()@,
                                free_id,
                                now.next_id(),
                            );
                        }
                    }
                }
                assert forall|k: int| 0 <= k < i + 1 implies (#[trigger] next_gen@[k]).a_year_after(
                    &self.towns@[k],
                    old(self).person_generator.next_id(),
                ) && self.towns@[k].can_progress(&old(self).person_generator) || unchanged(
                    &self.towns@[k],
                    &next_gen@[k],
                ) && !self.towns@[k].can_progress(&now) by {
                    assert(old(self).towns()[k].well_formed());
                    if k < i {
                        assert(next_gen@[k] == so_far[k]);
                    } else if progressed {
                        lemma_a_year_after_earlier(
                            &next_gen@[k],
                            &self.towns@[k],
                            free_id,
                            old(self).person_generator.next_id(),
                        );
                        lemma_can_progress_earlier(
                            &self.towns@[k],
                            &old(self).person_generator,
                            &before,
                        );
                    }
                }
            }
            i += 1;
        }
        self.towns = next_gen;
    }

    /// Whether the world is well formed.
    pub fn is_well_formed(&self) -> (r: bool)
        ensures
            r == self.well_formed(),
    {
        let mut i: usize = 0;
        while i < self.towns.len()
            invariant
                i <= self.towns@.len(),
                forall|k: int|
                    0 <= k < i ==> (#[trigger] self.towns@[k]).well_formed() && ids_below(
                        self.towns@[k].population()@,
                        self.person_generator.next_id(),
                    ),
            decreases self.towns@.len() - i,
        {
            let town = &self.towns[i];
            if !town.is_well_formed() || !town.get_population().has_ids_below(
                self.person_generator.get_next_id(),
            ) {
                proof {
                    assert(!(self.towns()[i as int].well_formed() && ids_below(
                        self.towns()[i as int].population()@,
                        self.generator().next_id(),
                    )));
                }
                return false;
            }
            i += 1;
        }
        true
    }

    pub fn get_towns(&self) -> (r: &[Town])
        ensures
            r@ == self.towns(),
    {
        self.towns.as_slice()
    }

    pub fn get_person_generator(&self) -> (r: &PersonGenerator)
        ensures
            *r == self.generator(),
    {
        &self.person_generator
    }
}

} // verus!
