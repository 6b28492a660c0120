use vstd::prelude::*;
use crate::utility::Date;
use super::attribute::Kind;
use super::Attribute;

verus! {

/// Whether some tag of `tags` is of the given kind.
pub open spec fn has_kind(tags: Seq<Attribute>, kind: Kind) -> bool {
    exists|i: int| 0 <= i < tags.len() && (#[trigger] tags[i]).kind() == kind
}

/// Whether `i` is the place of the first tag of the given kind.
pub open spec fn is_first_of_kind(tags: Seq<Attribute>, kind: Kind, i: int) -> bool {
    &&& 0 <= i < tags.len()
    &&& tags[i].kind() == kind
    &&& forall|j: int| 0 <= j < i ==> (#[trigger] tags[j]).kind() != kind
}

/// The place of the first tag of the given kind, or the length of `tags`
/// where there is none.
pub open spec fn position_of_kind(tags: Seq<Attribute>, kind: Kind) -> int {
    if has_kind(tags, kind) {
        choose|i: int| is_first_of_kind(tags, kind, i)
    } else {
        tags.len() as int
    }
}

/// `tags` after the tag at `i` has been replaced by the last tag and the last
/// place dropped.
pub open spec fn swap_removed(tags: Seq<Attribute>, i: int) -> Seq<Attribute> {
    tags.update(i, tags.last()).drop_last()
}

/// `tags` without its first tag of the given kind; `tags` itself where there
/// is none.
pub open spec fn without_kind(tags: Seq<Attribute>, kind: Kind) -> Seq<Attribute> {
    if has_kind(tags, kind) {
        swap_removed(tags, position_of_kind(tags, kind))
    } else {
        tags
    }
}

/// Whether at most one tag of `tags` is of the given kind.
pub open spec fn at_most_one(tags: Seq<Attribute>, kind: Kind) -> bool {
    forall|i: int, j: int|
        0 <= i < tags.len() && 0 <= j < tags.len() && (#[trigger] tags[i]).kind() == kind && (
        #[trigger] tags[j]).kind() == kind ==> i == j
}

/// Whether no two tags of `tags` are of the same kind.
pub open spec fn distinct_kinds(tags: Seq<Attribute>) -> bool {
    forall|i: int, j: int|
        0 <= i < tags.len() && 0 <= j < tags.len() && i != j ==> (#[trigger] tags[i]).kind() != (
        #[trigger] tags[j]).kind()
}

/// The first tag of the given kind, if there is one.
pub open spec fn first_of_kind(tags: Seq<Attribute>, kind: Kind) -> Option<Attribute> {
    if has_kind(tags, kind) {
        Some(tags[position_of_kind(tags, kind)])
    } else {
        None
    }
}

/// The partner named by the first `Married` tag.
pub open spec fn spouse_of(tags: Seq<Attribute>) -> Option<u32> {
    match first_of_kind(tags, Kind::Married) {
        Some(Attribute::Married(partner)) => Some(partner),
        _ => None,
    }
}

/// What the tags of a person must satisfy: no kind occurs twice, exactly one
/// of `Male` and `Female` is present, and only a female is pregnant.
pub open spec fn consistent(tags: Seq<Attribute>) -> bool {
    &&& distinct_kinds(tags)
    &&& has_kind(tags, Kind::Male) != has_kind(tags, Kind::Female)
    &&& has_kind(tags, Kind::Pregnant) ==> has_kind(tags, Kind::Female)
}

/// Whether every kind of `wanted` and no kind of `unwanted` is present in
/// `tags`.
pub open spec fn meets(tags: Seq<Attribute>, wanted: Seq<Attribute>, unwanted: Seq<Attribute>) -> bool {
    &&& forall|i: int| 0 <= i < wanted.len() ==> has_kind(tags, (#[trigger] wanted[i]).kind())
    &&& forall|i: int| 0 <= i < unwanted.len() ==> !has_kind(tags, (#[trigger] unwanted[i]).kind())
}

/// Where a kind is present from `start` on and absent before, it has a first
/// place.
proof fn lemma_first_from(tags: Seq<Attribute>, kind: Kind, start: int)
    requires
        0 <= start <= tags.len(),
        forall|j: int| 0 <= j < start ==> (#[trigger] tags[j]).kind() != kind,
        has_kind(tags, kind),
    ensures
        exists|i: int| is_first_of_kind(tags, kind, i),
    decreases tags.len() - start,
{
    if start == tags.len() {
        let i = choose|i: int| 0 <= i < tags.len() && (#[trigger] tags[i]).kind() == kind;
        assert(false);
    } else if tags[start].kind() == kind {
        assert(is_first_of_kind(tags, kind, start));
    } else {
        lemma_first_from(tags, kind, start + 1);
    }
}

/// A kind that is present has a first place, which holds the first tag of
/// that kind.
pub proof fn lemma_first_of_kind(tags: Seq<Attribute>, kind: Kind)
    requires
        has_kind(tags, kind),
    ensures
        is_first_of_kind(tags, kind, position_of_kind(tags, kind)),
        first_of_kind(tags, kind) matches Some(tag) && tag.kind() == kind,
{
    lemma_first_from(tags, kind, 0);
}

/// The first place of a kind is the only place that is first of that kind.
pub proof fn lemma_position_of_kind(tags: Seq<Attribute>, kind: Kind, i: int)
    requires
        is_first_of_kind(tags, kind, i),
    ensures
        has_kind(tags, kind),
        position_of_kind(tags, kind) == i,
{
    let p = choose|p: int| is_first_of_kind(tags, kind, p);
    assert(tags[p].kind() == kind);
    assert(tags[i].kind() == kind);
    if p < i {
        assert(tags[p].kind() != kind);
    }
    if i < p {
        assert(tags[i].kind() != kind);
    }
}

/// What a list holds after one more tag has been put at its end.
pub proof fn lemma_push(tags: Seq<Attribute>, tag: Attribute, kind: Kind)
    ensures
        has_kind(tags.push(tag), kind) == (has_kind(tags, kind) || tag.kind() == kind),
        first_of_kind(tags.push(tag), kind) == if has_kind(tags, kind) {
            first_of_kind(tags, kind)
        } else if tag.kind() == kind {
            Some(tag)
        } else {
            None
        },
        distinct_kinds(tags.push(tag)) == (distinct_kinds(tags) && !has_kind(tags, tag.kind())),
{
    let more = tags.push(tag);
    if has_kind(tags, kind) {
        let p = position_of_kind(tags, kind);
        lemma_first_of_kind(tags, kind);
        assert(more[p] == tags[p]);
        assert forall|j: int| 0 <= j < p implies (#[trigger] more[j]).kind() != kind by {
            assert(more[j] == tags[j]);
        }
        lemma_position_of_kind(more, kind, p);
    } else if tag.kind() == kind {
        assert(more[tags.len() as int] == tag);
        assert forall|j: int| 0 <= j < tags.len() implies (#[trigger] more[j]).kind() != kind by {
            assert(more[j] == tags[j]);
        }
        lemma_position_of_kind(more, kind, tags.len() as int);
    } else {
        if has_kind(more, kind) {
            let i = choose|i: int| 0 <= i < more.len() && (#[trigger] more[i]).kind() == kind;
            assert(i < tags.len());
            assert(tags[i] == more[i]);
        }
    }
    if distinct_kinds(tags) && !has_kind(tags, tag.kind()) {
        assert forall|i: int, j: int| 0 <= i < more.len() && 0 <= j < more.len() && i != j implies (
        #[trigger] more[i]).kind() != (#[trigger] more[j]).kind() by {
            if i < tags.len() {
                assert(more[i] == tags[i]);
            }
            if j < tags.len() {
                assert(more[j] == tags[j]);
            }
        }
    }
    if distinct_kinds(more) {
        assert forall|i: int, j: int| 0 <= i < tags.len() && 0 <= j < tags.len() && i != j implies (
        #[trigger] tags[i]).kind() != (#[trigger] tags[j]).kind() by {
            assert(more[i] == tags[i]);
            assert(more[j] == tags[j]);
        }
        if has_kind(tags, tag.kind()) {
            let i = choose|i: int| 0 <= i < tags.len() && (#[trigger] tags[i]).kind() == tag.kind();
            assert(more[i] == tags[i]);
            assert(more[tags.len() as int] == tag);
        }
    }
}

/// What a list in which no kind occurs twice holds after its tag of one kind
/// has been taken out: no tag of that kind, and of every other kind the tag
/// that it held before.
pub proof fn lemma_without_kind(tags: Seq<Attribute>, gone: Kind, kind: Kind)
    requires
        distinct_kinds(tags),
    ensures
        distinct_kinds(without_kind(tags, gone)),
        !has_kind(without_kind(tags, gone), gone),
        kind != gone ==> has_kind(without_kind(tags, gone), kind) == has_kind(tags, kind),
        kind != gone ==> first_of_kind(without_kind(tags, gone), kind) == first_of_kind(tags, kind),
{
    let rest = without_kind(tags, gone);
    if has_kind(tags, gone) {
        let p = position_of_kind(tags, gone);
        let last = tags.len() - 1;
        lemma_first_of_kind(tags, gone);
        // Each place of `rest` holds the tag of one place of `tags`, other than `p`.
        assert forall|i: int| 0 <= i < rest.len() implies #[trigger] rest[i] == tags[if i == p {
            last
        } else {
            i
        }] by {}
        assert forall|i: int, j: int| 0 <= i < rest.len() && 0 <= j < rest.len() && i != j implies (
        #[trigger] rest[i]).kind() != (#[trigger] rest[j]).kind() by {
            let si = if i == p { last } else { i };
            let sj = if j == p { last } else { j };
            assert(tags[si].kind() != tags[sj].kind());
        }
        if has_kind(rest, gone) {
            let i = choose|i: int| 0 <= i < rest.len() && (#[trigger] rest[i]).kind() == gone;
            let si = if i == p { last } else { i };
            assert(tags[si].kind() != tags[p].kind());
        }
        if kind != gone {
            if has_kind(tags, kind) {
                let q = position_of_kind(tags, kind);
                lemma_first_of_kind(tags, kind);
                let r = if q == last { p } else { q };
                assert(rest[r] == tags[q]);
                assert forall|j: int| 0 <= j < rest.len() && j != r implies (#[trigger] rest[j]).kind()
                    != kind by {
                    let sj = if j == p { last } else { j };
                    assert(tags[sj].kind() != tags[q].kind());
                }
                lemma_position_of_kind(rest, kind, r);
            } else {
                if has_kind(rest, kind) {
                    let i = choose|i: int| 0 <= i < rest.len() && (#[trigger] rest[i]).kind() == kind;
                    let si = if i == p { last } else { i };
                    assert(tags[si].kind() == kind);
                }
            }
        }
    }
}

/// Taking the tag of one kind out of a list in which no kind occurs twice
/// leaves every other kind as it was.
pub proof fn lemma_drop(tags: Seq<Attribute>, gone: Kind)
    requires
        distinct_kinds(tags),
    ensures
        distinct_kinds(without_kind(tags, gone)),
        !has_kind(without_kind(tags, gone), gone),
        first_of_kind(without_kind(tags, gone), gone) is None,
        forall|kind: Kind|
            kind != gone ==> #[trigger] has_kind(without_kind(tags, gone), kind) == has_kind(
                tags,
                kind,
            ),
        forall|kind: Kind|
            kind != gone ==> #[trigger] first_of_kind(without_kind(tags, gone), kind)
                == first_of_kind(tags, kind),
{
    lemma_without_kind(tags, gone, gone);
    assert forall|kind: Kind| kind != gone implies #[trigger] has_kind(
        without_kind(tags, gone),
        kind,
    ) == has_kind(tags, kind) by {
        lemma_without_kind(tags, gone, kind);
    }
    assert forall|kind: Kind| kind != gone implies #[trigger] first_of_kind(
        without_kind(tags, gone),
        kind,
    ) == first_of_kind(tags, kind) by {
        lemma_without_kind(tags, gone, kind);
    }
}

/// Adding a tag of a kind that is absent leaves every other kind as it was.
pub proof fn lemma_add(tags: Seq<Attribute>, tag: Attribute)
    requires
        distinct_kinds(tags),
        !has_kind(tags, tag.kind()),
    ensures
        distinct_kinds(tags.push(tag)),
        has_kind(tags.push(tag), tag.kind()),
        first_of_kind(tags.push(tag), tag.kind()) == Some(tag),
        forall|kind: Kind|
            kind != tag.kind() ==> #[trigger] has_kind(tags.push(tag), kind) == has_kind(tags, kind),
        forall|kind: Kind|
            kind != tag.kind() ==> #[trigger] first_of_kind(tags.push(tag), kind) == first_of_kind(
                tags,
                kind,
            ),
{
    lemma_push(tags, tag, tag.kind());
    assert forall|kind: Kind| kind != tag.kind() implies #[trigger] has_kind(tags.push(tag), kind)
        == has_kind(tags, kind) by {
        lemma_push(tags, tag, kind);
    }
    assert forall|kind: Kind| kind != tag.kind() implies #[trigger] first_of_kind(
        tags.push(tag),
        kind,
    ) == first_of_kind(tags, kind) by {
        lemma_push(tags, tag, kind);
    }
}

/// Replacing the tag of one kind, in a list in which no kind occurs twice,
/// leaves every other kind as it was.
pub proof fn lemma_replace(tags: Seq<Attribute>, tag: Attribute)
    requires
        distinct_kinds(tags),
    ensures
        distinct_kinds(without_kind(tags, tag.kind()).push(tag)),
        has_kind(without_kind(tags, tag.kind()).push(tag), tag.kind()),
        first_of_kind(without_kind(tags, tag.kind()).push(tag), tag.kind()) == Some(tag),
        forall|kind: Kind|
            kind != tag.kind() ==> #[trigger] has_kind(
                without_kind(tags, tag.kind()).push(tag),
                kind,
            ) == has_kind(tags, kind),
        forall|kind: Kind|
            kind != tag.kind() ==> #[trigger] first_of_kind(
                without_kind(tags, tag.kind()).push(tag),
                kind,
            ) == first_of_kind(tags, kind),
{
    lemma_drop(tags, tag.kind());
    lemma_add(without_kind(tags, tag.kind()), tag);
}

/// Where at most one tag is of a kind, none is left once it is taken out.
pub proof fn lemma_at_most_one_gone(tags: Seq<Attribute>, kind: Kind)
    ensures
        at_most_one(tags, kind) ==> !has_kind(without_kind(tags, kind), kind),
{
    let rest = without_kind(tags, kind);
    if at_most_one(tags, kind) && has_kind(rest, kind) {
        let i = choose|i: int| 0 <= i < rest.len() && (#[trigger] rest[i]).kind() == kind;
        if has_kind(tags, kind) {
            let p = position_of_kind(tags, kind);
            lemma_first_of_kind(tags, kind);
            let si = if i == p { tags.len() - 1 } else { i };
            assert(rest[i] == tags[si]);
            assert(tags[si].kind() == kind && tags[p].kind() == kind);
        }
    }
}

/// A set of tags, each with what it carries. The list itself keeps no rule:
/// whoever adds tags keeps them consistent.
#[derive(Debug)]
pub struct AttributeList {
    attributes: Vec<Attribute>,
}

impl View for AttributeList {
    type V = Seq<Attribute>;

    closed spec fn view(&self) -> Seq<Attribute> {
        self.attributes@
    }
}

impl AttributeList {
    /// The place of the first tag of the kind of `target_attr`.
    fn get_attr_index(&self, target_attr: &Attribute) -> (r: Option<usize>)
        ensures
            match r {
                Some(i) => is_first_of_kind(self@, target_attr.kind(), i as int),
                None => !has_kind(self@, target_attr.kind()),
            },
    {
        let mut i: usize = 0;
        while i < self.attributes.len()
            invariant
                i <= self.attributes@.len(),
                forall|j: int| 0 <= j < i ==> (#[trigger] self.attributes@[j]).kind() != target_attr.kind(),
            decreases self.attributes@.len() - i,
        {
            if self.attributes[i] == *target_attr {
                return Some(i);
            }
            i += 1;
        }
        None
    }

    pub fn builder() -> (r: AttributeListBuilder)
        ensures
            r.list()@ == Seq::<Attribute>::empty(),
    {
        AttributeListBuilder::default()
    }

    pub fn is_male(&self) -> (r: bool)
        ensures
            r == has_kind(self@, Kind::Male),
    {
        self.has_attribute(&Attribute::Male)
    }

    pub fn is_female(&self) -> (r: bool)
        ensures
            r == has_kind(self@, Kind::Female),
    {
        self.has_attribute(&Attribute::Female)
    }

    pub fn is_married(&self) -> (r: bool)
        ensures
            r == has_kind(self@, Kind::Married),
    {
        self.has_attribute(&Attribute::Married(0))
    }

    pub fn is_fertile(&self) -> (r: bool)
        ensures
            r == has_kind(self@, Kind::Fertile),
    {
        self.has_attribute(&Attribute::Fertile)
    }

    /// The partner that the first `Married` tag names.
    pub fn get_spouse(&self) -> (r: Option<u32>)
        ensures
            r == spouse_of(self@),
            r is Some == has_kind(self@, Kind::Married),
    {
        proof {
            if has_kind(self@, Kind::Married) {
                lemma_first_of_kind(self@, Kind::Married);
            }
        }
        match self.get_attr(&Attribute::Married(0)) {
            Some(tag) => match *tag {
                Attribute::Married(spouse_id) => Some(spouse_id),
                _ => None,
            },
            None => None,
        }
    }

    /// The first `Pregnant` tag, with what it carries.
    pub fn get_pregnancy(&self) -> (r: Option<Attribute>)
        ensures
            r == first_of_kind(self@, Kind::Pregnant),
    {
        match self.get_attr(
            &Attribute::Pregnant { father_id: 0, birth: Date::default(), count: 0 },
        ) {
            Some(tag) => Some(*tag),
            None => None,
        }
    }

    /// Makes the person male: where no `Male` tag is present, the first
    /// `Female` tag is taken out and a `Male` tag added.
    pub fn set_male(&mut self)
        ensures
            final(self)@ == if has_kind(old(self)@, Kind::Male) {
                old(self)@
            } else {
                without_kind(old(self)@, Kind::Female).push(Attribute::Male)
            },
            has_kind(final(self)@, Kind::Male),
            at_most_one(old(self)@, Kind::Female) && !(has_kind(old(self)@, Kind::Male) && has_kind(
                old(self)@,
                Kind::Female,
            )) ==> !has_kind(final(self)@, Kind::Female),
    {
        if !self.is_male() {
            proof {
                lemma_at_most_one_gone(self@, Kind::Female);
                lemma_push(without_kind(self@, Kind::Female), Attribute::Male, Kind::Male);
                lemma_push(without_kind(self@, Kind::Female), Attribute::Male, Kind::Female);
            }
            self.remove_attribute(&Attribute::Female);
            self.attributes.push(Attribute::Male);
        }
    }

    /// Makes the person female: where no `Female` tag is present, the first
    /// `Male` tag is taken out and a `Female` tag added.
    pub fn set_female(&mut self)
        ensures
            final(self)@ == if has_kind(old(self)@, Kind::Female) {
                old(self)@
            } else {
                without_kind(old(self)@, Kind::Male).push(Attribute::Female)
            },
            has_kind(final(self)@, Kind::Female),
            at_most_one(old(self)@, Kind::Male) && !(has_kind(old(self)@, Kind::Male) && has_kind(
                old(self)@,
                Kind::Female,
            )) ==> !has_kind(final(self)@, Kind::Male),
    {
        if !self.is_female() {
            proof {
                lemma_at_most_one_gone(self@, Kind::Male);
                lemma_push(without_kind(self@, Kind::Male), Attribute::Female, Kind::Female);
                lemma_push(without_kind(self@, Kind::Male), Attribute::Female, Kind::Male);
            }
            self.remove_attribute(&Attribute::Male);
            self.attributes.push(Attribute::Female);
        }
    }

    /// Takes out the first `Married` tag, if there is one, and adds one that
    /// names `partner_id`.
    pub fn set_married(&mut self, partner_id: u32)
        ensures
            final(self)@ == without_kind(old(self)@, Kind::Married).push(
                Attribute::Married(partner_id),
            ),
    {
        self.remove_attribute(&Attribute::Married(0));
        self.attributes.push(Attribute::Married(partner_id));
    }

    /// Takes out the first `Married` tag and returns it.
    pub fn pop_marriage(&mut self) -> (r: Option<Attribute>)
        ensures
            r == first_of_kind(old(self)@, Kind::Married),
            final(self)@ == without_kind(old(self)@, Kind::Married),
    {
        self.remove_attribute(&Attribute::Married(0))
    }

    /// Takes out the first `Pregnant` tag, if there is one, and adds one that
    /// carries `father_id`, `birth` and `count`. Where at most one `Pregnant`
    /// tag was present, the new one is the only one afterwards.
    pub fn set_pregnant(&mut self, father_id: u32, birth: Date, count: u32)
        ensures
            final(self)@ == without_kind(old(self)@, Kind::Pregnant).push(
                Attribute::Pregnant { father_id: father_id, birth: birth, count: count },
            ),
            has_kind(final(self)@, Kind::Pregnant),
            at_most_one(old(self)@, Kind::Pregnant) ==> at_most_one(final(self)@, Kind::Pregnant)
                && first_of_kind(final(self)@, Kind::Pregnant) == Some(
                Attribute::Pregnant { father_id: father_id, birth: birth, count: count },
            ),
            distinct_kinds(old(self)@) ==> distinct_kinds(final(self)@) && (forall|kind: Kind|
                kind != Kind::Pregnant ==> #[trigger] has_kind(final(self)@, kind) == has_kind(
                    old(self)@,
                    kind,
                )) && (forall|kind: Kind|
                kind != Kind::Pregnant ==> #[trigger] first_of_kind(final(self)@, kind)
                    == first_of_kind(old(self)@, kind)),
    {
        let tag = Attribute::Pregnant { father_id: father_id, birth: birth, count: count };
        proof {
            let rest = without_kind(self@, Kind::Pregnant);
            lemma_at_most_one_gone(self@, Kind::Pregnant);
            lemma_push(rest, tag, Kind::Pregnant);
            if at_most_one(self@, Kind::Pregnant) {
                let more = rest.push(tag);
                assert forall|i: int, j: int|
                    0 <= i < more.len() && 0 <= j < more.len() && (#[trigger] more[i]).kind()
                        == Kind::Pregnant && (#[trigger] more[j]).kind()
                        == Kind::Pregnant implies i == j by {
                    if i < rest.len() {
                        assert(rest[i].kind() == Kind::Pregnant);
                    }
                    if j < rest.len() {
                        assert(rest[j].kind() == Kind::Pregnant);
                    }
                }
            }
            if distinct_kinds(self@) {
                lemma_replace(self@, tag);
            }
        }
        self.remove_attribute(&tag);
        self.attributes.push(tag);
    }

    /// Takes out the first `Pregnant` tag and returns it.
    pub fn pop_pregnancy(&mut self) -> (r: Option<Attribute>)
        ensures
            r == first_of_kind(old(self)@, Kind::Pregnant),
            final(self)@ == without_kind(old(self)@, Kind::Pregnant),
    {
        self.remove_attribute(
            &Attribute::Pregnant { father_id: 0, birth: Date::default(), count: 0 },
        )
    }

    /// Adds a `Fertile` tag where none is present.
    pub fn set_fertile(&mut self)
        ensures
            final(self)@ == if has_kind(old(self)@, Kind::Fertile) {
                old(self)@
            } else {
                old(self)@.push(Attribute::Fertile)
            },
            has_kind(final(self)@, Kind::Fertile),
    {
        if !self.is_fertile() {
            proof {
                lemma_push(self@, Attribute::Fertile, Kind::Fertile);
            }
            self.attributes.push(Attribute::Fertile);
        }
    }

    /// Takes out the first `Fertile` tag.
    pub fn clear_fertile(&mut self)
        ensures
            final(self)@ == without_kind(old(self)@, Kind::Fertile),
            at_most_one(old(self)@, Kind::Fertile) ==> !has_kind(final(self)@, Kind::Fertile),
    {
        proof {
            lemma_at_most_one_gone(self@, Kind::Fertile);
        }
        self.remove_attribute(&Attribute::Fertile);
    }

    /// Adds a tag, whatever the list holds.
    pub fn add(&mut self, attr: Attribute)
        ensures
            final(self)@ == old(self)@.push(attr),
    {
        self.attributes.push(attr);
    }

    /// Whether every kind of `wanted_attributes` is present and no kind of
    /// `unwanted_attributes`.
    pub fn satisfies(&self, wanted_attributes: &AttributeList, unwanted_attributes: &AttributeList) -> (r: bool)
        ensures
            r == meets(self@, wanted_attributes@, unwanted_attributes@),
    {
        let wanted = wanted_attributes.get_list();
        let mut i: usize = 0;
        while i < wanted.len()
            invariant
                wanted@ == wanted_attributes@,
                i <= wanted@.len(),
                forall|j: int| 0 <= j < i ==> has_kind(self@, (#[trigger] wanted@[j]).kind()),
            decreases wanted@.len() - i,
        {
            if !self.has_attribute(&wanted[i]) {
                return false;
            }
            i += 1;
        }
        let unwanted = unwanted_attributes.get_list();
        let mut k: usize = 0;
        while k < unwanted.len()
            invariant
                unwanted@ == unwanted_attributes@,
                k <= unwanted@.len(),
                forall|j: int| 0 <= j < wanted_attributes@.len() ==> has_kind(
                    self@,
                    (#[trigger] wanted_attributes@[j]).kind(),
                ),
                forall|j: int| 0 <= j < k ==> !has_kind(self@, (#[trigger] unwanted@[j]).kind()),
            decreases unwanted@.len() - k,
        {
            if self.has_attribute(&unwanted[k]) {
                return false;
            }
            k += 1;
        }
        true
    }

    /// Whether no kind occurs twice, exactly one of `Male` and `Female` is
    /// present, and only a female is pregnant.
    pub fn is_consistent(&self) -> (r: bool)
        ensures
            r == consistent(self@),
    {
        let mut i: usize = 0;
        while i < self.attributes.len()
            invariant
                i <= self.attributes@.len(),
                forall|a: int, b: int|
                    0 <= a < i && a < b < self.attributes@.len() ==> (#[trigger] self.attributes@[a]).kind()
                        != (#[trigger] self.attributes@[b]).kind(),
            decreases self.attributes@.len() - i,
        {
            let mut j: usize = i + 1;
            while j < self.attributes.len()
                invariant
                    i < j <= self.attributes@.len(),
                    forall|b: int|
                        i < b < j ==> self.attributes@[i as int].kind() != (#[trigger] self.attributes@[b]).kind(),
                decreases self.attributes@.len() - j,
            {
                if self.attributes[i] == self.attributes[j] {
                    return false;
                }
                j += 1;
            }
            i += 1;
        }
        proof {
            assert forall|a: int, b: int|
                0 <= a < self@.len() && 0 <= b < self@.len() && a != b implies (#[trigger] self@[a]).kind()
                != (#[trigger] self@[b]).kind() by {
                if a < b {
                    assert(self.attributes@[a].kind() != self.attributes@[b].kind());
                } else {
                    assert(self.attributes@[b].kind() != self.attributes@[a].kind());
                }
            }
        }
        let pregnant = self.has_attribute(
            &Attribute::Pregnant { father_id: 0, birth: Date::default(), count: 0 },
        );
        self.is_male() != self.is_female() && (!pregnant || self.is_female())
    }

    /// Whether a tag of the kind of `target_attr` is present.
    pub fn has_attribute(&self, target_attr: &Attribute) -> (r: bool)
        ensures
            r == has_kind(self@, target_attr.kind()),
    {
        self.get_attr_index(target_attr).is_some()
    }

    /// Removes the first tag of the kind of `target_attr` and returns it, with
    /// what it carries. The last tag takes its place.
    pub fn remove_attribute(&mut self, target_attr: &Attribute) -> (r: Option<Attribute>)
        ensures
            r == first_of_kind(old(self)@, target_attr.kind()),
            final(self)@ == without_kind(old(self)@, target_attr.kind()),
    {
        if let Some(i) = self.get_attr_index(target_attr) {
            proof {
                lemma_position_of_kind(self@, target_attr.kind(), i as int);
            }
            Some(self.attributes.swap_remove(i))
        } else {
            None
        }
    }
    /// The first tag of the kind of `target_attr`.
    fn get_attr(&self, target_attr: &Attribute) -> (r: Option<&Attribute>)
        ensures
            match r {
                Some(tag) => first_of_kind(self@, target_attr.kind()) == Some(*tag),
                None => first_of_kind(self@, target_attr.kind()) is None,
            },
    {
        match self.get_attr_index(target_attr) {
            Some(i) => {
                proof {
                    lemma_position_of_kind(self@, target_attr.kind(), i as int);
                }
                Some(&self.attributes[i])
            },
            None => None,
        }
    }

    /// The tags in the order in which the list holds them.
    pub fn get_list(&self) -> (r: &[Attribute])
        ensures
            r@ == self@,
    {
        self.attributes.as_slice()
    }
}

impl Clone for AttributeList {
    /// A list of the same tags in the same order.
    fn clone(&self) -> (r: AttributeList)
        ensures
            r@ == self@,
    {
        let attributes = self.attributes.clone();
        proof {
            assert(attributes@ =~= self.attributes@);
        }
        AttributeList { attributes: attributes }
    }
}

impl Default for AttributeList {
    fn default() -> (r: AttributeList)
        ensures
            r@ == Seq::<Attribute>::empty(),
    {
        AttributeList { attributes: Vec::new() }
    }
}

/// Builds a list of tags to match by kind: `set_married` and `set_pregnant`
/// add a tag that carries zeroes and the default date.
pub struct AttributeListBuilder {
    list: AttributeList,
}

impl AttributeListBuilder {
    /// The list that `build` will return.
    pub closed spec fn list(self) -> AttributeList {
        self.list
    }

    pub fn set_male(self) -> (r: AttributeListBuilder)
        ensures
            r.list()@ == if has_kind(self.list()@, Kind::Male) {
                self.list()@
            } else {
                without_kind(self.list()@, Kind::Female).push(Attribute::Male)
            },
    {
        let mut builder = self;
        builder.list.set_male();
        builder
    }

    pub fn set_female(self) -> (r: AttributeListBuilder)
        ensures
            r.list()@ == if has_kind(self.list()@, Kind::Female) {
                self.list()@
            } else {
                without_kind(self.list()@, Kind::Male).push(Attribute::Female)
            },
    {
        let mut builder = self;
        builder.list.set_female();
        builder
    }

    pub fn set_married(self) -> (r: AttributeListBuilder)
        ensures
            r.list()@ == without_kind(self.list()@, Kind::Married).push(Attribute::Married(0)),
    {
        let mut builder = self;
        builder.list.set_married(0);
        builder
    }

    pub fn set_pregnant(self) -> (r: AttributeListBuilder)
        ensures
            r.list()@.len() > 0,
            r.list()@.drop_last() == without_kind(self.list()@, Kind::Pregnant),
            r.list()@.last() matches Attribute::Pregnant { father_id, birth, count }
                && father_id == 0 && count == 0 && birth == Date::start(),
            has_kind(r.list()@, Kind::Pregnant),
    {
        let mut builder = self;
        builder.list.set_pregnant(0, Date::default(), 0);
        proof {
            let rest = without_kind(self.list()@, Kind::Pregnant);
            assert(builder.list@.drop_last() =~= rest);
        }
        builder
    }

    pub fn set_fertile(self) -> (r: AttributeListBuilder)
        ensures
            r.list()@ == if has_kind(self.list()@, Kind::Fertile) {
                self.list()@
            } else {
                self.list()@.push(Attribute::Fertile)
            },
    {
        let mut builder = self;
        builder.list.set_fertile();
        builder
    }

    pub fn build(self) -> (r: AttributeList)
        ensures
            r == self.list(),
    {
        self.list
    }
}

impl Default for AttributeListBuilder {
    fn default() -> (r: AttributeListBuilder)
        ensures
            r.list()@ == Seq::<Attribute>::empty(),
    {
        AttributeListBuilder { list: AttributeList::default() }
    }
}

} // verus!
