//! A population as mathematics: the people of a sequence with distinct ids,
//! seen as a map from id to person, and what the steps that change the
//! sequence do to that map.

use vstd::prelude::*;
use super::attribute::Kind;
use super::attribute_list::at_most_one;
use super::attribute_list::consistent;
use super::attribute_list::first_of_kind;
use super::attribute_list::has_kind;
use super::attribute_list::lemma_add;
use super::attribute_list::lemma_drop;
use super::attribute_list::lemma_first_of_kind;
use super::attribute_list::lemma_replace;
use super::attribute_list::without_kind;
use super::Attribute;
use super::attribute_list::spouse_of;
use super::person::age_at;
use super::rates::death_chance;
use super::rates::lemma_death_chance;
use super::rates::DEATH_SCALE;
use super::person::PersonView;
use crate::utility::Date;
use super::Person;

verus! {

/// Whether some person of `people` has the id `id`.
pub open spec fn has_id(people: Seq<Person>, id: u32) -> bool {
    exists|i: int| 0 <= i < people.len() && (#[trigger] people[i])@.id == id
}

/// Whether no two people of `people` share an id.
pub open spec fn ids_unique(people: Seq<Person>) -> bool {
    forall|i: int, j: int|
        0 <= i < people.len() && 0 <= j < people.len() && i != j ==> (#[trigger] people[i])@.id != (
        #[trigger] people[j])@.id
}

/// A place at which `people` holds the person with the id `id`.
pub open spec fn place_of(people: Seq<Person>, id: u32) -> int {
    choose|i: int| 0 <= i < people.len() && (#[trigger] people[i])@.id == id
}

/// The people of `people` by their ids.
pub open spec fn roster(people: Seq<Person>) -> Map<u32, PersonView> {
    Map::new(|id: u32| has_id(people, id), |id: u32| people[place_of(people, id)]@)
}

/// `people` after the person at `i` has been replaced by the last person and
/// the last place dropped.
pub open spec fn without_place(people: Seq<Person>, i: int) -> Seq<Person> {
    people.update(i, people.last()).drop_last()
}

/// Whether two sequences hold the same people at the same places.
pub open spec fn same_people(first: Seq<Person>, second: Seq<Person>) -> bool {
    &&& first.len() == second.len()
    &&& forall|i: int| 0 <= i < first.len() ==> (#[trigger] first[i])@ == second[i]@
}

/// Where ids are distinct, the roster holds each person under the person's
/// own id.
pub proof fn lemma_roster_at(people: Seq<Person>, i: int)
    requires
        ids_unique(people),
        0 <= i < people.len(),
    ensures
        roster(people).contains_key(people[i]@.id),
        roster(people)[people[i]@.id] == people[i]@,
{
    let id = people[i]@.id;
    let p = place_of(people, id);
    assert(people[p]@.id == id);
}

/// Whoever the roster holds stands at some place of the sequence.
pub proof fn lemma_roster_member(people: Seq<Person>, id: u32)
    requires
        roster(people).contains_key(id),
    ensures
        0 <= place_of(people, id) < people.len(),
        people[place_of(people, id)]@.id == id,
        roster(people)[id] == people[place_of(people, id)]@,
        roster(people)[id].id == id,
{
}

/// Adding somebody with a new id adds that person to the roster.
pub proof fn lemma_roster_push(people: Seq<Person>, person: Person)
    requires
        ids_unique(people),
        !has_id(people, person@.id),
    ensures
        ids_unique(people.push(person)),
        roster(people.push(person)) == roster(people).insert(person@.id, person@),
{
    let more = people.push(person);
    assert forall|i: int, j: int| 0 <= i < more.len() && 0 <= j < more.len() && i != j implies (
    #[trigger] more[i])@.id != (#[trigger] more[j])@.id by {
        if i < people.len() {
            assert(more[i] == people[i]);
        }
        if j < people.len() {
            assert(more[j] == people[j]);
        }
    }
    let target = roster(people).insert(person@.id, person@);
    assert forall|id: u32| roster(more).contains_key(id) == target.contains_key(id) by {
        if has_id(more, id) {
            let i = place_of(more, id);
            if i < people.len() {
                assert(people[i] == more[i]);
            }
        }
        if has_id(people, id) {
            let i = place_of(people, id);
            assert(more[i] == people[i]);
        }
        if id == person@.id {
            assert(more[people.len() as int] == person);
        }
    }
    assert forall|id: u32| roster(more).contains_key(id) implies roster(more)[id] == target[id] by {
        let i = place_of(more, id);
        lemma_roster_at(more, i);
        if i < people.len() {
            assert(people[i] == more[i]);
            lemma_roster_at(people, i);
        }
    }
    assert(roster(more) =~= target);
}

/// Taking somebody out takes that person out of the roster.
pub proof fn lemma_roster_without_place(people: Seq<Person>, i: int)
    requires
        ids_unique(people),
        0 <= i < people.len(),
    ensures
        ids_unique(without_place(people, i)),
        roster(without_place(people, i)) == roster(people).remove(people[i]@.id),
        !has_id(without_place(people, i), people[i]@.id),
{
    let rest = without_place(people, i);
    let last = people.len() - 1;
    let gone = people[i]@.id;
    assert forall|k: int| 0 <= k < rest.len() implies #[trigger] rest[k] == people[if k == i {
        last
    } else {
        k
    }] by {}
    assert forall|k: int, j: int| 0 <= k < rest.len() && 0 <= j < rest.len() && k != j implies (
    #[trigger] rest[k])@.id != (#[trigger] rest[j])@.id by {
        let sk = if k == i { last } else { k };
        let sj = if j == i { last } else { j };
        assert(people[sk]@.id != people[sj]@.id);
    }
    if has_id(rest, gone) {
        let k = place_of(rest, gone);
        let sk = if k == i { last } else { k };
        assert(people[sk]@.id != people[i]@.id);
    }
    let target = roster(people).remove(gone);
    assert forall|id: u32| roster(rest).contains_key(id) == target.contains_key(id) by {
        if has_id(rest, id) {
            let k = place_of(rest, id);
            let sk = if k == i { last } else { k };
            assert(people[sk]@.id == id);
        }
        if has_id(people, id) && id != gone {
            let k = place_of(people, id);
            let r = if k == last { i } else { k };
            assert(rest[r] == people[k]);
        }
    }
    assert forall|id: u32| roster(rest).contains_key(id) implies roster(rest)[id] == target[id] by {
        let k = place_of(rest, id);
        lemma_roster_at(rest, k);
        let sk = if k == i { last } else { k };
        lemma_roster_at(people, sk);
    }
    assert(roster(rest) =~= target);
}

/// Where each person keeps the place and the id, the roster holds the same
/// ids, each with the person now at the place.
pub proof fn lemma_roster_pointwise(before: Seq<Person>, after: Seq<Person>)
    requires
        ids_unique(before),
        after.len() == before.len(),
        forall|i: int| 0 <= i < before.len() ==> (#[trigger] after[i])@.id == before[i]@.id,
    ensures
        ids_unique(after),
        roster(after).dom() == roster(before).dom(),
        forall|a: u32| #[trigger]
            roster(before).contains_key(a) ==> roster(after)[a] == after[place_of(before, a)]@
                && roster(before)[a] == before[place_of(before, a)]@,
{
    assert forall|k: int, j: int| 0 <= k < after.len() && 0 <= j < after.len() && k != j implies (
    #[trigger] after[k])@.id != (#[trigger] after[j])@.id by {
        assert(before[k]@.id != before[j]@.id);
    }
    assert forall|a: u32| roster(after).contains_key(a) == roster(before).contains_key(a) by {
        if has_id(after, a) {
            let k = place_of(after, a);
            assert(before[k]@.id == a);
        }
        if has_id(before, a) {
            let k = place_of(before, a);
            assert(after[k]@.id == a);
        }
    }
    assert(roster(after).dom() =~= roster(before).dom());
    assert forall|a: u32| #[trigger] roster(before).contains_key(a) implies roster(after)[a]
        == after[place_of(before, a)]@ && roster(before)[a] == before[place_of(before, a)]@ by {
        let k = place_of(before, a);
        assert(after[k]@.id == a);
        lemma_roster_at(after, k);
    }
}

/// Sequences of the same people are the same population.
pub proof fn lemma_same_people(first: Seq<Person>, second: Seq<Person>, today: Date, kind: Kind)
    requires
        same_people(first, second),
    ensures
        ids_unique(first) == ids_unique(second),
        ids_unique(first) ==> roster(first) == roster(second),
        pending_births(first, today) == pending_births(second, today),
        count_with(first, kind) == count_with(second, kind),
    decreases first.len(),
{
    if ids_unique(first) {
        assert forall|i: int, j: int|
            0 <= i < second.len() && 0 <= j < second.len() && i != j implies (#[trigger] second[i])@.id
            != (#[trigger] second[j])@.id by {
            assert(first[i]@.id != first[j]@.id);
        }
    }
    if ids_unique(second) {
        assert forall|i: int, j: int|
            0 <= i < first.len() && 0 <= j < first.len() && i != j implies (#[trigger] first[i])@.id
            != (#[trigger] first[j])@.id by {
            assert(second[i]@.id != second[j]@.id);
        }
    }
    if ids_unique(first) {
        assert forall|a: u32| roster(first).contains_key(a) == roster(second).contains_key(a) by {
            if has_id(first, a) {
                let i = place_of(first, a);
                assert(second[i]@.id == a);
            }
            if has_id(second, a) {
                let i = place_of(second, a);
                assert(first[i]@.id == a);
            }
        }
        assert forall|a: u32| roster(first).contains_key(a) implies roster(first)[a] == roster(
            second,
        )[a] by {
            let i = place_of(first, a);
            assert(second[i]@.id == a);
            lemma_roster_at(second, i);
        }
        assert(roster(first) =~= roster(second));
    }
    if first.len() > 0 {
        assert(same_people(first.drop_last(), second.drop_last())) by {
            assert forall|i: int| 0 <= i < first.drop_last().len() implies (
            #[trigger] first.drop_last()[i])@ == second.drop_last()[i]@ by {
                assert(first[i]@ == second[i]@);
            }
        }
        assert(first.last()@ == second.last()@) by {
            assert(first[first.len() - 1]@ == second[first.len() - 1]@);
        }
        lemma_same_people(first.drop_last(), second.drop_last(), today, kind);
    }
}

/// How many people of `people` carry a tag of the given kind.
pub open spec fn count_with(people: Seq<Person>, kind: Kind) -> nat
    decreases people.len(),
{
    if people.len() == 0 {
        0
    } else {
        count_with(people.drop_last(), kind) + if has_kind(people.last()@.tags, kind) {
            1nat
        } else {
            0nat
        }
    }
}

/// Nobody is counted twice: no more people carry a kind than there are
/// people.
pub proof fn lemma_count_bound(people: Seq<Person>, kind: Kind)
    ensures
        count_with(people, kind) <= people.len(),
    decreases people.len(),
{
    if people.len() > 0 {
        lemma_count_bound(people.drop_last(), kind);
    }
}

/// The count after one more person has been added.
pub proof fn lemma_count_push(people: Seq<Person>, person: Person, kind: Kind)
    ensures
        count_with(people.push(person), kind) == count_with(people, kind) + if has_kind(
            person@.tags,
            kind,
        ) {
            1nat
        } else {
            0nat
        },
{
    assert(people.push(person).drop_last() =~= people);
}

/// The count after one person has been changed in place.
pub proof fn lemma_count_update(people: Seq<Person>, i: int, person: Person, kind: Kind)
    requires
        0 <= i < people.len(),
    ensures
        count_with(people.update(i, person), kind) + (if has_kind(people[i]@.tags, kind) {
            1nat
        } else {
            0nat
        }) == count_with(people, kind) + if has_kind(person@.tags, kind) {
            1nat
        } else {
            0nat
        },
    decreases people.len(),
{
    let next = people.update(i, person);
    if i == people.len() - 1 {
        assert(next.drop_last() =~= people.drop_last());
    } else {
        assert(next.drop_last() =~= people.drop_last().update(i, person));
        lemma_count_update(people.drop_last(), i, person, kind);
    }
}

/// The count after one person has been taken out.
pub proof fn lemma_count_without_place(people: Seq<Person>, i: int, kind: Kind)
    requires
        0 <= i < people.len(),
    ensures
        count_with(without_place(people, i), kind) + (if has_kind(people[i]@.tags, kind) {
            1nat
        } else {
            0nat
        }) == count_with(people, kind),
{
    if i == people.len() - 1 {
        assert(without_place(people, i) =~= people.drop_last());
    } else {
        assert(without_place(people, i) =~= people.drop_last().update(i, people.last()));
        lemma_count_update(people.drop_last(), i, people.last(), kind);
    }
}

/// Whether `a` is a member married to `b`.
pub open spec fn wed_to(members: Map<u32, PersonView>, a: u32, b: u32) -> bool {
    members.contains_key(a) && spouse_of(members[a].tags) == Some(b)
}

/// What holds of the members of a population at all times: each stands under
/// the member's own id and carries consistent tags, and whoever is married to
/// somebody is married to another member, who is married back.
pub open spec fn coherent(members: Map<u32, PersonView>) -> bool {
    &&& forall|a: u32| #[trigger]
        members.contains_key(a) ==> members[a].id == a && consistent(members[a].tags)
    &&& forall|a: u32, b: u32| #[trigger] wed_to(members, a, b) ==> a != b && wed_to(members, b, a)
}

/// Whether the person at the place `i` carries consistent tags and, where
/// married, is married to somebody else of `people` who is married back.
pub open spec fn coherent_at(people: Seq<Person>, i: int) -> bool {
    &&& consistent(people[i]@.tags)
    &&& match spouse_of(people[i]@.tags) {
        Some(spouse) => spouse != people[i]@.id && roster(people).contains_key(spouse) && spouse_of(
            roster(people)[spouse].tags,
        ) == Some(people[i]@.id),
        None => true,
    }
}

/// Whether every member was born on `today` or before.
pub open spec fn born_by(members: Map<u32, PersonView>, today: Date) -> bool {
    forall|a: u32| #[trigger] members.contains_key(a) ==> members[a].birthday.not_after(today)
}

/// Whether every member has an id below `next_id`.
pub open spec fn ids_below(members: Map<u32, PersonView>, next_id: u32) -> bool {
    forall|a: u32| #[trigger] members.contains_key(a) ==> a < next_id
}

/// What coherent members are like, one by one: exactly one of `Male` and
/// `Female` is present, no kind of tag occurs twice, only a woman is
/// pregnant, and whoever is married is married to another member, who is
/// married back.
pub proof fn lemma_coherent_member(members: Map<u32, PersonView>, a: u32)
    requires
        coherent(members),
        members.contains_key(a),
    ensures
        has_kind(members[a].tags, Kind::Male) != has_kind(members[a].tags, Kind::Female),
        at_most_one(members[a].tags, Kind::Male),
        at_most_one(members[a].tags, Kind::Female),
        at_most_one(members[a].tags, Kind::Married),
        at_most_one(members[a].tags, Kind::Pregnant),
        at_most_one(members[a].tags, Kind::Fertile),
        has_kind(members[a].tags, Kind::Pregnant) ==> has_kind(members[a].tags, Kind::Female),
        spouse_of(members[a].tags) matches Some(b) ==> b != a && members.contains_key(b)
            && spouse_of(members[b].tags) == Some(a),
{
    match spouse_of(members[a].tags) {
        Some(b) => {
            assert(wed_to(members, a, b));
            assert(wed_to(members, b, a));
        },
        None => {},
    }
}

/// With distinct ids, the members are coherent exactly if the person at each
/// place is.
pub proof fn lemma_coherent_by_place(people: Seq<Person>)
    requires
        ids_unique(people),
    ensures
        coherent(roster(people)) == forall|i: int|
            0 <= i < people.len() ==> #[trigger] coherent_at(people, i),
{
    let members = roster(people);
    if coherent(members) {
        assert forall|i: int| 0 <= i < people.len() implies #[trigger] coherent_at(people, i) by {
            lemma_roster_at(people, i);
            let a = people[i]@.id;
            match spouse_of(people[i]@.tags) {
                Some(b) => {
                    assert(wed_to(members, a, b));
                    assert(wed_to(members, b, a));
                },
                None => {},
            }
        }
    }
    if forall|i: int| 0 <= i < people.len() ==> #[trigger] coherent_at(people, i) {
        assert forall|a: u32| #[trigger] members.contains_key(a) implies members[a].id == a
            && consistent(members[a].tags) by {
            lemma_roster_member(people, a);
            assert(coherent_at(people, place_of(people, a)));
        }
        assert forall|a: u32, b: u32| #[trigger] wed_to(members, a, b) implies a != b && wed_to(
            members,
            b,
            a,
        ) by {
            lemma_roster_member(people, a);
            assert(coherent_at(people, place_of(people, a)));
        }
    }
}

/// Somebody has a spouse exactly if a `Married` tag is present.
pub proof fn lemma_spouse(tags: Seq<Attribute>)
    ensures
        spouse_of(tags) is Some <==> has_kind(tags, Kind::Married),
{
    if has_kind(tags, Kind::Married) {
        lemma_first_of_kind(tags, Kind::Married);
    }
}

/// Whether `after` is the person `before` was: the id, the day of birth,
/// the first name and the parents are the same.
pub open spec fn same_identity(before: PersonView, after: PersonView) -> bool {
    &&& after.id == before.id
    &&& after.birthday == before.birthday
    &&& after.first_name == before.first_name
    &&& after.father == before.father
    &&& after.mother == before.mother
}

/// Whether `after` is `before` but for the last name and the tags of one
/// kind.
pub open spec fn same_person_but(before: PersonView, after: PersonView, kind: Kind) -> bool {
    &&& after.id == before.id
    &&& after.birthday == before.birthday
    &&& after.first_name == before.first_name
    &&& after.father == before.father
    &&& after.mother == before.mother
    &&& forall|other: Kind|
        other != kind ==> #[trigger] has_kind(after.tags, other) == has_kind(before.tags, other)
    &&& forall|other: Kind|
        other != kind ==> #[trigger] first_of_kind(after.tags, other) == first_of_kind(
            before.tags,
            other,
        )
}

/// Whether `after` holds the members of `before`, each as before but for the
/// last name and the tags of one kind.
pub open spec fn same_but(
    before: Map<u32, PersonView>,
    after: Map<u32, PersonView>,
    kind: Kind,
) -> bool {
    &&& after.dom() == before.dom()
    &&& forall|a: u32| #[trigger] after.contains_key(a) ==> same_person_but(before[a], after[a], kind)
}

/// Whether `after` holds the members of `before`, each as before but for the
/// `Married` tag and the last name.
pub open spec fn same_but_marriages(
    before: Map<u32, PersonView>,
    after: Map<u32, PersonView>,
) -> bool {
    same_but(before, after, Kind::Married)
}

/// Two changes of the tags of one kind, one after the other, are one.
pub proof fn lemma_same_but_twice(
    first: Map<u32, PersonView>,
    second: Map<u32, PersonView>,
    third: Map<u32, PersonView>,
    kind: Kind,
)
    requires
        same_but(first, second, kind),
        same_but(second, third, kind),
    ensures
        same_but(first, third, kind),
{
    assert forall|a: u32| #[trigger] third.contains_key(a) implies same_person_but(
        first[a],
        third[a],
        kind,
    ) by {
        assert(second.contains_key(a));
        assert(same_person_but(first[a], second[a], kind));
        assert(same_person_but(second[a], third[a], kind));
    }
}

/// A change that leaves marriages alone and tags consistent keeps the
/// members coherent.
pub proof fn lemma_coherent_same_but(
    before: Map<u32, PersonView>,
    after: Map<u32, PersonView>,
    kind: Kind,
)
    requires
        coherent(before),
        same_but(before, after, kind),
        kind != Kind::Married,
        forall|a: u32| #[trigger] after.contains_key(a) ==> consistent(after[a].tags),
    ensures
        coherent(after),
{
    assert forall|a: u32| #[trigger] after.contains_key(a) implies after[a].id == a && consistent(
        after[a].tags,
    ) by {
        assert(before.contains_key(a));
    }
    assert forall|a: u32, b: u32| #[trigger] wed_to(after, a, b) implies a != b && wed_to(
        after,
        b,
        a,
    ) by {
        assert(before.contains_key(a));
        assert(first_of_kind(after[a].tags, Kind::Married) == first_of_kind(
            before[a].tags,
            Kind::Married,
        ));
        assert(wed_to(before, a, b));
        assert(wed_to(before, b, a));
        assert(after.contains_key(b));
        assert(first_of_kind(after[b].tags, Kind::Married) == first_of_kind(
            before[b].tags,
            Kind::Married,
        ));
    }
}

/// Whether a member may be the groom of a wedding.
pub open spec fn groom_ready(person: PersonView) -> bool {
    has_kind(person.tags, Kind::Male) && has_kind(person.tags, Kind::Fertile) && !has_kind(
        person.tags,
        Kind::Married,
    )
}

/// Whether a member may be the bride of a wedding.
pub open spec fn bride_ready(person: PersonView) -> bool {
    has_kind(person.tags, Kind::Female) && has_kind(person.tags, Kind::Fertile) && !has_kind(
        person.tags,
        Kind::Married,
    )
}

/// Whether the members hold a man and a woman who may wed each other.
pub open spec fn pair_ready(members: Map<u32, PersonView>) -> bool {
    (exists|g: u32| #[trigger] members.contains_key(g) && groom_ready(members[g])) && (exists|
        b: u32,
    | #[trigger] members.contains_key(b) && bride_ready(members[b]))
}

/// A man after his wedding: the tags name his wife.
pub open spec fn husband(groom: PersonView, bride: PersonView) -> PersonView {
    PersonView {
        tags: without_kind(groom.tags, Kind::Married).push(Attribute::Married(bride.id)),
        ..groom
    }
}

/// A woman after her wedding: the tags name her husband, and she has his last
/// name.
pub open spec fn wife(bride: PersonView, groom: PersonView) -> PersonView {
    PersonView {
        tags: without_kind(bride.tags, Kind::Married).push(Attribute::Married(groom.id)),
        last_name: groom.last_name,
        ..bride
    }
}

/// A wedding of two unmarried members keeps the members coherent, and
/// changes nothing but the `Married` tags of the two and the last name of the
/// bride.
pub proof fn lemma_wedding(members: Map<u32, PersonView>, groom: u32, bride: u32)
    requires
        coherent(members),
        members.contains_key(groom),
        members.contains_key(bride),
        groom != bride,
        !has_kind(members[groom].tags, Kind::Married),
        !has_kind(members[bride].tags, Kind::Married),
    ensures
        coherent(
            members.insert(groom, husband(members[groom], members[bride])).insert(
                bride,
                wife(members[bride], members[groom]),
            ),
        ),
        same_but_marriages(
            members,
            members.insert(groom, husband(members[groom], members[bride])).insert(
                bride,
                wife(members[bride], members[groom]),
            ),
        ),
{
    let he = husband(members[groom], members[bride]);
    let she = wife(members[bride], members[groom]);
    let after = members.insert(groom, he).insert(bride, she);
    assert(members[groom].id == groom && members[bride].id == bride);
    lemma_replace(members[groom].tags, Attribute::Married(bride));
    lemma_replace(members[bride].tags, Attribute::Married(groom));
    lemma_spouse(members[groom].tags);
    lemma_spouse(members[bride].tags);
    assert(spouse_of(he.tags) == Some(bride));
    assert(spouse_of(she.tags) == Some(groom));
    assert forall|a: u32| #[trigger] after.contains_key(a) implies after[a].id == a && consistent(
        after[a].tags,
    ) by {
        assert(members.contains_key(a));
    }
    assert forall|a: u32, b: u32| #[trigger] wed_to(after, a, b) implies a != b && wed_to(
        after,
        b,
        a,
    ) by {
        if a != groom && a != bride {
            assert(wed_to(members, a, b));
            assert(wed_to(members, b, a));
        }
    }
    assert(after.dom() =~= members.dom());
}

/// Somebody after the death of the spouse: no `Married` tag.
pub open spec fn widowed(person: PersonView) -> PersonView {
    PersonView { tags: without_kind(person.tags, Kind::Married), ..person }
}

/// The members after the death of the member `gone`: without that member,
/// and the spouse, if there is one, widowed.
pub open spec fn after_death(members: Map<u32, PersonView>, gone: u32) -> Map<u32, PersonView> {
    match spouse_of(members[gone].tags) {
        Some(spouse) => members.remove(gone).insert(spouse, widowed(members[spouse])),
        None => members.remove(gone),
    }
}

/// The members after the death of the members `dead`: without them, and
/// whoever of the others was married to one of them widowed.
pub open spec fn after_deaths(members: Map<u32, PersonView>, dead: Set<u32>) -> Map<
    u32,
    PersonView,
> {
    Map::new(
        |a: u32| members.contains_key(a) && !dead.contains(a),
        |a: u32|
            match spouse_of(members[a].tags) {
                Some(spouse) => if dead.contains(spouse) {
                    widowed(members[a])
                } else {
                    members[a]
                },
                None => members[a],
            },
    )
}

/// The chance of somebody to die on the day `today`, in parts of
/// `DEATH_SCALE`.
pub open spec fn chance_to_die(person: PersonView, today: Date) -> int {
    death_chance(age_at(person.birthday, today) as u32)
}

/// Whether `dead` may be the members who die on the day `today`: each of
/// them is a member with a chance to die, and every member who is sure to
/// die is one of them.
pub open spec fn may_have_died(members: Map<u32, PersonView>, dead: Set<u32>, today: Date) -> bool {
    &&& forall|a: u32| #[trigger]
        dead.contains(a) ==> members.contains_key(a) && chance_to_die(members[a], today) > 0
    &&& forall|a: u32| #[trigger]
        members.contains_key(a) ==> (chance_to_die(members[a], today) == DEATH_SCALE
            ==> dead.contains(a))
}

/// Who is left after the deaths of a day had a chance to live, and who had
/// no chance to die is left.
pub proof fn lemma_survivors(members: Map<u32, PersonView>, dead: Set<u32>, today: Date)
    requires
        coherent(members),
        may_have_died(members, dead, today),
    ensures
        forall|a: u32| #[trigger]
            after_deaths(members, dead).contains_key(a) ==> chance_to_die(
                after_deaths(members, dead)[a],
                today,
            ) < DEATH_SCALE,
        forall|a: u32| #[trigger]
            members.contains_key(a) && chance_to_die(members[a], today) == 0 ==> after_deaths(
                members,
                dead,
            ).contains_key(a),
{
    let after = after_deaths(members, dead);
    assert forall|a: u32| #[trigger] after.contains_key(a) implies chance_to_die(after[a], today)
        < DEATH_SCALE by {
        assert(members.contains_key(a));
        assert(after[a].birthday == members[a].birthday);
        lemma_death_chance(age_at(members[a].birthday, today) as u32);
    }
}

/// Losing the spouse leaves consistent tags consistent, without a spouse, and
/// with every other kind as it was.
pub proof fn lemma_widowed(person: PersonView)
    requires
        consistent(person.tags),
    ensures
        consistent(widowed(person).tags),
        spouse_of(widowed(person).tags) is None,
        forall|kind: Kind|
            kind != Kind::Married ==> #[trigger] has_kind(widowed(person).tags, kind) == has_kind(
                person.tags,
                kind,
            ),
{
    lemma_drop(person.tags, Kind::Married);
}

/// A death keeps the members coherent.
pub proof fn lemma_death(members: Map<u32, PersonView>, gone: u32)
    requires
        coherent(members),
        members.contains_key(gone),
    ensures
        coherent(after_death(members, gone)),
        after_death(members, gone) == after_deaths(members, set![gone]),
{
    let after = after_death(members, gone);
    match spouse_of(members[gone].tags) {
        Some(spouse) => {
            assert(wed_to(members, gone, spouse));
            assert(wed_to(members, spouse, gone));
            lemma_widowed(members[spouse]);
        },
        None => {},
    }
    assert forall|a: u32| #[trigger] after.contains_key(a) implies after[a].id == a && consistent(
        after[a].tags,
    ) by {
        assert(members.contains_key(a));
    }
    assert forall|a: u32, b: u32| #[trigger] wed_to(after, a, b) implies a != b && wed_to(
        after,
        b,
        a,
    ) by {
        assert(wed_to(members, a, b));
        assert(wed_to(members, b, a));
    }
    let target = after_deaths(members, set![gone]);
    assert forall|a: u32| after.contains_key(a) == target.contains_key(a) by {}
    assert forall|a: u32| after.contains_key(a) implies after[a] == target[a] by {
        match spouse_of(members[a].tags) {
            Some(b) => {
                assert(wed_to(members, a, b));
                assert(wed_to(members, b, a));
            },
            None => {},
        }
    }
    assert(after =~= target);
}

/// One more death after some deaths is the death of all of them at once.
pub proof fn lemma_one_more_death(members: Map<u32, PersonView>, dead: Set<u32>, gone: u32)
    requires
        coherent(members),
        members.contains_key(gone),
        !dead.contains(gone),
    ensures
        after_deaths(members, dead).contains_key(gone),
        after_death(after_deaths(members, dead), gone) == after_deaths(members, dead.insert(gone)),
{
    let now = after_deaths(members, dead);
    let after = after_death(now, gone);
    let target = after_deaths(members, dead.insert(gone));
    match spouse_of(members[gone].tags) {
        Some(spouse) => {
            assert(wed_to(members, gone, spouse));
            assert(wed_to(members, spouse, gone));
            lemma_widowed(members[gone]);
        },
        None => {},
    }
    assert forall|a: u32| after.contains_key(a) == target.contains_key(a) by {}
    assert forall|a: u32| after.contains_key(a) implies after[a] == target[a] by {
        match spouse_of(members[a].tags) {
            Some(b) => {
                assert(wed_to(members, a, b));
                assert(wed_to(members, b, a));
            },
            None => {},
        }
    }
    assert(after =~= target);
}

/// Whoever is left after some deaths was there before, and is as before but
/// for the marriage.
pub proof fn lemma_after_deaths(members: Map<u32, PersonView>, dead: Set<u32>)
    requires
        coherent(members),
    ensures
        forall|a: u32| #[trigger]
            after_deaths(members, dead).contains_key(a) ==> members.contains_key(a)
                && same_person_but(members[a], after_deaths(members, dead)[a], Kind::Married)
                && after_deaths(members, dead)[a].last_name == members[a].last_name,
{
    let after = after_deaths(members, dead);
    assert forall|a: u32| #[trigger] after.contains_key(a) implies members.contains_key(a)
        && same_person_but(members[a], after[a], Kind::Married) && after[a].last_name
        == members[a].last_name by {
        lemma_drop(members[a].tags, Kind::Married);
    }
}

/// Whether the fertility of a person on the day `today` is as the age asks:
/// present from 14 up to 40, absent from 40 on.
pub open spec fn fertile_as_aged(person: PersonView, today: Date) -> bool {
    let age = age_at(person.birthday, today);
    &&& 14 <= age < 40 ==> has_kind(person.tags, Kind::Fertile)
    &&& 40 <= age ==> !has_kind(person.tags, Kind::Fertile)
}

/// A member who gains fertility at the right age: from 14 up to 40, a
/// `Fertile` tag is added where none is present.
pub open spec fn gained(person: PersonView, today: Date) -> PersonView {
    let age = age_at(person.birthday, today);
    if !has_kind(person.tags, Kind::Fertile) && 14 <= age < 40 {
        PersonView { tags: person.tags.push(Attribute::Fertile), ..person }
    } else {
        person
    }
}

/// A member who loses fertility at the right age: from 40 on, the `Fertile`
/// tag is taken out.
pub open spec fn lost(person: PersonView, today: Date) -> PersonView {
    let age = age_at(person.birthday, today);
    if has_kind(person.tags, Kind::Fertile) && 40 <= age {
        PersonView { tags: without_kind(person.tags, Kind::Fertile), ..person }
    } else {
        person
    }
}

/// A member whose fertility has been set by age.
pub open spec fn matured(person: PersonView, today: Date) -> PersonView {
    lost(gained(person, today), today)
}

/// Whether somebody born on `birthday` is fertile once the fertility has
/// been set by the age on the day `today`: nobody from 40 on, everybody from
/// 14 up to 40, and under 14 who was fertile before.
pub open spec fn fertile_after(was_fertile: bool, birthday: Date, today: Date) -> bool {
    let age = age_at(birthday, today);
    if 40 <= age {
        false
    } else if 14 <= age {
        true
    } else {
        was_fertile
    }
}

/// Setting the fertility by age makes it as the age asks, keeps consistent
/// tags consistent, and changes nothing else.
pub proof fn lemma_matured(person: PersonView, today: Date)
    requires
        consistent(person.tags),
    ensures
        consistent(gained(person, today).tags),
        consistent(lost(person, today).tags),
        consistent(matured(person, today).tags),
        fertile_as_aged(matured(person, today), today),
        same_person_but(person, gained(person, today), Kind::Fertile),
        same_person_but(person, lost(person, today), Kind::Fertile),
        same_person_but(person, matured(person, today), Kind::Fertile),
        gained(person, today).last_name == person.last_name,
        lost(person, today).last_name == person.last_name,
        has_kind(matured(person, today).tags, Kind::Fertile) == fertile_after(
            has_kind(person.tags, Kind::Fertile),
            person.birthday,
            today,
        ),
{
    let young = gained(person, today);
    if !has_kind(person.tags, Kind::Fertile) {
        lemma_add(person.tags, Attribute::Fertile);
    }
    lemma_drop(person.tags, Kind::Fertile);
    lemma_drop(young.tags, Kind::Fertile);
}

/// Somebody who has conceived: the tag of the pregnancy takes the place of
/// the `Pregnant` tag, if there was one, and stands at the end of the tags.
pub open spec fn expecting(person: PersonView, tag: Attribute) -> PersonView {
    PersonView { tags: without_kind(person.tags, Kind::Pregnant).push(tag), ..person }
}

/// Whether nobody of the members can become a mother: no woman is without
/// a pregnancy.
pub open spec fn nobody_may_conceive(members: Map<u32, PersonView>) -> bool {
    forall|a: u32| #[trigger]
        members.contains_key(a) ==> !(has_kind(members[a].tags, Kind::Female) && !has_kind(
            members[a].tags,
            Kind::Pregnant,
        ))
}

/// Whether an attempt to start a pregnancy succeeds whatever is drawn: a
/// married woman is without a pregnancy, and a father is found for whoever
/// is drawn as mother, because no unmarried woman is without a pregnancy or
/// because some man is unmarried.
pub open spec fn conception_is_sure(members: Map<u32, PersonView>) -> bool {
    &&& exists|a: u32| #[trigger]
        members.contains_key(a) && has_kind(members[a].tags, Kind::Female) && has_kind(
            members[a].tags,
            Kind::Married,
        ) && !has_kind(members[a].tags, Kind::Pregnant)
    &&& (forall|a: u32| #[trigger]
        members.contains_key(a) ==> !(has_kind(members[a].tags, Kind::Female) && !has_kind(
            members[a].tags,
            Kind::Pregnant,
        ) && !has_kind(members[a].tags, Kind::Married))) || (exists|a: u32| #[trigger]
        members.contains_key(a) && has_kind(members[a].tags, Kind::Male) && !has_kind(
            members[a].tags,
            Kind::Married,
        ))
}

/// Whether `tag` is the pregnancy of a conception by the member `mother`:
/// she is a woman who is not pregnant; the father is another member, her
/// husband if she has one, else a man; the children are one to four; the
/// birth is due on a day whose number is `earliest` or more and less than
/// `latest`.
pub open spec fn conceived_between(
    members: Map<u32, PersonView>,
    mother: u32,
    tag: Attribute,
    earliest: int,
    latest: int,
) -> bool {
    &&& members.contains_key(mother)
    &&& has_kind(members[mother].tags, Kind::Female)
    &&& !has_kind(members[mother].tags, Kind::Pregnant)
    &&& tag matches Attribute::Pregnant { father_id, birth, count }
    &&& members.contains_key(father_id)
    &&& father_id != mother
    &&& match spouse_of(members[mother].tags) {
        Some(spouse) => father_id == spouse,
        None => has_kind(members[father_id].tags, Kind::Male),
    }
    &&& 1 <= count <= 4
    &&& birth.valid()
    &&& earliest <= birth.day_number() < latest
}

/// Whether `after` holds the members of `before`, each as before or with a
/// pregnancy conceived since, due from `earliest` up to `latest`.
pub open spec fn pregnancies_started(
    before: Map<u32, PersonView>,
    after: Map<u32, PersonView>,
    earliest: int,
    latest: int,
) -> bool {
    &&& after.dom() == before.dom()
    &&& forall|a: u32| #[trigger]
        after.contains_key(a) ==> after[a] == before[a] || exists|tag: Attribute|
            conceived_between(before, a, tag, earliest, latest) && after[a] == #[trigger] expecting(
                before[a],
                tag,
            )
}

/// Somebody who has conceived holds the new pregnancy and is otherwise as
/// before.
pub proof fn lemma_expecting(person: PersonView, tag: Attribute)
    requires
        consistent(person.tags),
        has_kind(person.tags, Kind::Female),
        tag.kind() == Kind::Pregnant,
    ensures
        consistent(expecting(person, tag).tags),
        first_of_kind(expecting(person, tag).tags, Kind::Pregnant) == Some(tag),
        has_kind(expecting(person, tag).tags, Kind::Pregnant),
        same_person_but(person, expecting(person, tag), Kind::Pregnant),
        expecting(person, tag).last_name == person.last_name,
{
    lemma_replace(person.tags, tag);
}

/// Pregnancies started change nothing but `Pregnant` tags, and leave no
/// pregnancy due before the earliest day.
pub proof fn lemma_pregnancies_started(
    before: Map<u32, PersonView>,
    after: Map<u32, PersonView>,
    earliest: int,
    latest: int,
    today: Date,
)
    requires
        coherent(before),
        pregnancies_started(before, after, earliest, latest),
        today.valid(),
        today.day_number() < earliest,
    ensures
        same_but(before, after, Kind::Pregnant),
        forall|a: u32| #[trigger]
            after.contains_key(a) ==> after[a].last_name == before[a].last_name && consistent(
                after[a].tags,
            ) && (none_due(before[a], today) ==> none_due(after[a], today)),
{
    assert forall|a: u32| #[trigger] after.contains_key(a) implies same_person_but(
        before[a],
        after[a],
        Kind::Pregnant,
    ) && after[a].last_name == before[a].last_name && consistent(after[a].tags) && (none_due(
        before[a],
        today,
    ) ==> none_due(after[a], today)) by {
        assert(before.contains_key(a));
        if after[a] != before[a] {
            let tag = choose|tag: Attribute|
                conceived_between(before, a, tag, earliest, latest) && after[a]
                    == #[trigger] expecting(before[a], tag);
            lemma_expecting(before[a], tag);
            match tag {
                Attribute::Pregnant { father_id, birth, count } => {
                    today.lemma_precedes_by_day_number(birth);
                },
                _ => {},
            }
        }
    }
}

/// One more conception after pregnancies started is pregnancies started.
pub proof fn lemma_one_more_pregnancy(
    before: Map<u32, PersonView>,
    now: Map<u32, PersonView>,
    mother: u32,
    tag: Attribute,
    earliest: int,
    latest: int,
)
    requires
        coherent(before),
        pregnancies_started(before, now, earliest, latest),
        conceived_between(now, mother, tag, earliest, latest),
    ensures
        now[mother] == before[mother],
        pregnancies_started(
            before,
            now.insert(mother, expecting(now[mother], tag)),
            earliest,
            latest,
        ),
{
    let next = now.insert(mother, expecting(now[mother], tag));
    assert(before.contains_key(mother));
    if now[mother] != before[mother] {
        let first = choose|first: Attribute|
            conceived_between(before, mother, first, earliest, latest) && now[mother]
                == #[trigger] expecting(before[mother], first);
        lemma_expecting(before[mother], first);
    }
    let father = tag->father_id;
    assert(before.contains_key(father));
    if now[father] != before[father] {
        let other = choose|other: Attribute|
            conceived_between(before, father, other, earliest, latest) && now[father]
                == #[trigger] expecting(before[father], other);
        lemma_expecting(before[father], other);
    }
    assert(conceived_between(before, mother, tag, earliest, latest));
    assert(next.dom() =~= before.dom());
    assert forall|a: u32| #[trigger] next.contains_key(a) implies next[a] == before[a] || exists|
        t: Attribute,
    |
        conceived_between(before, a, t, earliest, latest) && next[a] == #[trigger] expecting(
            before[a],
            t,
        ) by {
        assert(now.contains_key(a));
        if a == mother {
            assert(next[a] == expecting(before[a], tag));
        }
    }
}

/// A conception by a female member who is not pregnant keeps the members
/// coherent and changes nothing but her `Pregnant` tag.
pub proof fn lemma_conception(members: Map<u32, PersonView>, mother: u32, tag: Attribute)
    requires
        coherent(members),
        members.contains_key(mother),
        has_kind(members[mother].tags, Kind::Female),
        !has_kind(members[mother].tags, Kind::Pregnant),
        tag.kind() == Kind::Pregnant,
    ensures
        coherent(members.insert(mother, expecting(members[mother], tag))),
        same_but(members, members.insert(mother, expecting(members[mother], tag)), Kind::Pregnant),
{
    let after = members.insert(mother, expecting(members[mother], tag));
    lemma_add(members[mother].tags, tag);
    assert(after.dom() =~= members.dom());
    assert forall|a: u32| #[trigger] after.contains_key(a) implies same_person_but(
        members[a],
        after[a],
        Kind::Pregnant,
    ) && consistent(after[a].tags) by {
        assert(members.contains_key(a));
    }
    lemma_coherent_same_but(members, after, Kind::Pregnant);
}

/// How many children somebody bears on the day `today`: the count of the
/// pregnancy where the birth is due, none otherwise.
pub open spec fn due_count(person: PersonView, today: Date) -> nat {
    match first_of_kind(person.tags, Kind::Pregnant) {
        Some(Attribute::Pregnant { father_id, birth, count }) => if birth.not_after(today) {
            count as nat
        } else {
            0
        },
        _ => 0,
    }
}

/// How many children the people of `people` bear on the day `today`.
pub open spec fn pending_births(people: Seq<Person>, today: Date) -> nat
    decreases people.len(),
{
    if people.len() == 0 {
        0
    } else {
        pending_births(people.drop_last(), today) + due_count(people.last()@, today)
    }
}

/// Somebody after the births of the day `today`: without the `Pregnant` tag
/// where the birth was due; with the tag at the end of the tags where it was
/// not; as before without a pregnancy.
pub open spec fn delivered(person: PersonView, today: Date) -> PersonView {
    match first_of_kind(person.tags, Kind::Pregnant) {
        Some(tag) => match tag {
            Attribute::Pregnant { father_id, birth, count } => if birth.not_after(today) {
                PersonView { tags: without_kind(person.tags, Kind::Pregnant), ..person }
            } else {
                PersonView { tags: without_kind(person.tags, Kind::Pregnant).push(tag), ..person }
            },
            _ => person,
        },
        None => person,
    }
}

/// Whether `child` is a newborn of the given parents: born on `birth`, with
/// the last name `last_name`, and with a gender as the only tag.
pub open spec fn is_child(
    child: PersonView,
    mother_id: u32,
    father_id: u32,
    birth: Date,
    last_name: Seq<char>,
) -> bool {
    &&& child.mother == Some(mother_id)
    &&& child.father == Some(father_id)
    &&& child.birthday == birth
    &&& child.last_name == last_name
    &&& (child.tags == seq![Attribute::Male] || child.tags == seq![Attribute::Female])
}

/// Whether `child` is a newborn of the pregnancy of `mother`.
pub open spec fn newborn_of(child: PersonView, mother: PersonView) -> bool {
    match first_of_kind(mother.tags, Kind::Pregnant) {
        Some(Attribute::Pregnant { father_id, birth, count }) => is_child(
            child,
            mother.id,
            father_id,
            birth,
            mother.last_name,
        ),
        _ => false,
    }
}

/// Whether `after` is what a tick on the day `today` leaves of the member
/// `before`: the same person, of the same gender, and fertile as the age
/// asks or, under 14, as before.
pub open spec fn lived_on(before: PersonView, after: PersonView, today: Date) -> bool {
    &&& same_identity(before, after)
    &&& has_kind(after.tags, Kind::Male) == has_kind(before.tags, Kind::Male)
    &&& has_kind(after.tags, Kind::Female) == has_kind(before.tags, Kind::Female)
    &&& has_kind(after.tags, Kind::Fertile) == fertile_after(
        has_kind(before.tags, Kind::Fertile),
        before.birthday,
        today,
    )
}

/// Whether `child` was born of the pregnancy of `mother`.
pub open spec fn born_to(child: PersonView, mother: PersonView) -> bool {
    match first_of_kind(mother.tags, Kind::Pregnant) {
        Some(Attribute::Pregnant { father_id, birth, count }) => child.mother == Some(mother.id)
            && child.father == Some(father_id) && child.birthday == birth,
        _ => false,
    }
}

/// What the births of a day have done once the people at the first `done`
/// places of `before` have had their turn. The people of before stand at
/// their places: those who had their turn as after the births, the others
/// unchanged. Behind them stand the newborn, with ids counted up from
/// `first_id`; `mothers` names for each of them the place of the mother, and
/// the children of one birth stand next to each other.
pub open spec fn births_done(
    before: Seq<Person>,
    now: Seq<Person>,
    mothers: Seq<int>,
    done: int,
    today: Date,
    first_id: u32,
) -> bool {
    &&& 0 <= done <= before.len()
    &&& mothers.len() == pending_births(before.take(done), today)
    &&& now.len() == before.len() + mothers.len()
    &&& forall|j: int| 0 <= j < done ==> (#[trigger] now[j])@ == delivered(before[j]@, today)
    &&& forall|j: int| done <= j < before.len() ==> #[trigger] now[j] == before[j]
    &&& forall|t: int|
        0 <= t < mothers.len() ==> {
            &&& 0 <= #[trigger] mothers[t] < done
            &&& now[before.len() + t]@.id == first_id + t
            &&& newborn_of(now[before.len() + t]@, before[mothers[t]]@)
            &&& due_count(before[mothers[t]]@, today) > 0
            &&& pending_births(before.take(mothers[t]), today) <= t < pending_births(
                before.take(mothers[t]),
                today,
            ) + due_count(before[mothers[t]]@, today)
        }
}

/// The births of the first people and of one more.
pub proof fn lemma_pending_step(people: Seq<Person>, i: int, today: Date)
    requires
        0 <= i < people.len(),
    ensures
        pending_births(people.take(i + 1), today) == pending_births(people.take(i), today)
            + due_count(people[i]@, today),
        pending_births(people.take(i + 1), today) <= pending_births(people, today),
    decreases people.len() - i,
{
    assert(people.take(i + 1).drop_last() =~= people.take(i));
    if i + 1 < people.len() {
        lemma_pending_step(people, i + 1, today);
    } else {
        assert(people.take(i + 1) =~= people);
    }
}

/// The births of all people but the last, and of the last.
pub proof fn lemma_pending_bound(people: Seq<Person>, today: Date)
    ensures
        pending_births(people, today) <= people.len() * 0xffff_ffff,
    decreases people.len(),
{
    if people.len() > 0 {
        lemma_pending_bound(people.drop_last(), today);
    }
}

/// Whether somebody holds no pregnancy that is due on the day `today` or
/// before.
pub open spec fn none_due(person: PersonView, today: Date) -> bool {
    match first_of_kind(person.tags, Kind::Pregnant) {
        Some(Attribute::Pregnant { father_id, birth, count }) => today.precedes(birth),
        _ => true,
    }
}

/// A birth leaves consistent tags consistent and changes nothing but the
/// `Pregnant` tag; afterwards no pregnancy is due.
pub proof fn lemma_delivered(person: PersonView, today: Date)
    requires
        consistent(person.tags),
    ensures
        consistent(delivered(person, today).tags),
        same_person_but(person, delivered(person, today), Kind::Pregnant),
        delivered(person, today).last_name == person.last_name,
        none_due(delivered(person, today), today),
{
    if has_kind(person.tags, Kind::Pregnant) {
        lemma_first_of_kind(person.tags, Kind::Pregnant);
        let tag = first_of_kind(person.tags, Kind::Pregnant).unwrap();
        lemma_drop(person.tags, Kind::Pregnant);
        lemma_add(without_kind(person.tags, Kind::Pregnant), tag);
    }
}

/// A newborn carries consistent tags and is not married.
pub proof fn lemma_child_tags(tags: Seq<Attribute>)
    requires
        tags == seq![Attribute::Male] || tags == seq![Attribute::Female],
    ensures
        consistent(tags),
        spouse_of(tags) is None,
        !has_kind(tags, Kind::Pregnant),
        !has_kind(tags, Kind::Married),
        !has_kind(tags, Kind::Fertile),
{
    assert(tags.len() == 1);
    if tags == seq![Attribute::Male] {
        assert(tags[0] == Attribute::Male);
    } else {
        assert(tags[0] == Attribute::Female);
    }
    lemma_spouse(tags);
}

/// What the births of a day, once everybody has had a turn, have done to the
/// roster: the members are coherent as before, each member of before is
/// there as after the births, and whoever is new is the newborn of a member
/// whose birth was due.
pub proof fn lemma_births(
    before: Seq<Person>,
    now: Seq<Person>,
    mothers: Seq<int>,
    today: Date,
    first_id: u32,
)
    requires
        ids_unique(before),
        coherent(roster(before)),
        ids_below(roster(before), first_id),
        births_done(before, now, mothers, before.len() as int, today, first_id),
        first_id + mothers.len() <= u32::MAX,
    ensures
        ids_unique(now),
        coherent(roster(now)),
        ids_below(roster(now), (first_id + mothers.len()) as u32),
        born_by(roster(before), today) ==> born_by(roster(now), today),
        forall|a: u32| #[trigger]
            roster(before).contains_key(a) ==> roster(now).contains_key(a) && roster(now)[a]
                == delivered(roster(before)[a], today),
        forall|c: u32| #[trigger]
            roster(now).contains_key(c) && !roster(before).contains_key(c) ==> first_id <= c
                && exists|m: u32| #[trigger]
                roster(before).contains_key(m) && due_count(roster(before)[m], today) > 0
                    && newborn_of(roster(now)[c], roster(before)[m]),
{
    let old_members = roster(before);
    let size = before.len() as int;
    // The id at each place.
    assert forall|j: int| 0 <= j < now.len() implies (#[trigger] now[j])@.id == (if j < size {
        before[j]@.id
    } else {
        (first_id + (j - size)) as u32
    }) by {
        if j < size {
            lemma_roster_at(before, j);
            assert(now[j]@ == delivered(before[j]@, today));
        } else {
            assert(0 <= mothers[j - size]);
        }
    }
    assert forall|j: int, k: int| 0 <= j < now.len() && 0 <= k < now.len() && j != k implies (
    #[trigger] now[j])@.id != (#[trigger] now[k])@.id by {
        if j < size {
            lemma_roster_at(before, j);
        }
        if k < size {
            lemma_roster_at(before, k);
        }
        if j < size && k < size {
            assert(before[j]@.id != before[k]@.id);
        }
    }
    let members = roster(now);
    assert forall|a: u32| #[trigger] members.contains_key(a) implies {
        let j = place_of(now, a);
        &&& 0 <= j < now.len()
        &&& members[a] == now[j]@
        &&& j < size ==> old_members.contains_key(a) && old_members[a] == before[j]@
        &&& j >= size ==> !old_members.contains_key(a) && a >= first_id
    } by {
        let j = place_of(now, a);
        lemma_roster_at(now, j);
        if j < size {
            lemma_roster_at(before, j);
        } else {
            assert(0 <= mothers[j - size]);
        }
    }
    assert forall|a: u32| #[trigger] old_members.contains_key(a) implies members.contains_key(a)
        && members[a] == delivered(old_members[a], today) by {
        let j = place_of(before, a);
        lemma_roster_at(before, j);
        assert(now[j]@ == delivered(before[j]@, today));
        lemma_roster_at(now, j);
    }
    assert forall|c: u32| #[trigger]
        members.contains_key(c) && !old_members.contains_key(c) implies first_id <= c && exists|
        m: u32,
    | #[trigger]
        old_members.contains_key(m) && due_count(old_members[m], today) > 0 && newborn_of(
            members[c],
            old_members[m],
        ) by {
        let j = place_of(now, c);
        let t = j - size;
        let i = mothers[t];
        lemma_roster_at(before, i);
        let m = before[i]@.id;
        assert(old_members.contains_key(m) && due_count(old_members[m], today) > 0 && newborn_of(
            members[c],
            old_members[m],
        ));
    }
    assert forall|a: u32| #[trigger] members.contains_key(a) implies members[a].id == a
        && consistent(members[a].tags) && (!old_members.contains_key(a) ==> spouse_of(
        members[a].tags,
    ) is None) && (old_members.contains_key(a) ==> spouse_of(members[a].tags) == spouse_of(
        old_members[a].tags,
    )) by {
        let j = place_of(now, a);
        if j < size {
            lemma_delivered(old_members[a], today);
        } else {
            let t = j - size;
            assert(0 <= mothers[t]);
            lemma_child_tags(members[a].tags);
        }
    }
    assert forall|a: u32, b: u32| #[trigger] wed_to(members, a, b) implies a != b && wed_to(
        members,
        b,
        a,
    ) by {
        assert(wed_to(old_members, a, b));
        assert(wed_to(old_members, b, a));
    }
    if born_by(old_members, today) {
        assert forall|a: u32| #[trigger] members.contains_key(a) implies members[a].birthday.not_after(
            today,
        ) by {
            let j = place_of(now, a);
            if j < size {
                lemma_delivered(old_members[a], today);
            } else {
                let t = j - size;
                assert(0 <= mothers[t]);
            }
        }
    }
}

} // verus!
