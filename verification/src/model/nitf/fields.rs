//! The decoded fields of one header: an ordered mapping from tag to value.

use vstd::prelude::*;

use super::order::{comes_before, lemma_tag_order, lemma_tag_transitive, tag_before};
use super::text::same_text;

verus! {

/// Whether some entry of `fields` carries `tag`.
pub open spec fn has_tag(fields: Seq<(Seq<char>, Seq<char>)>, tag: Seq<char>) -> bool {
    exists|i: int| 0 <= i < fields.len() && (#[trigger] fields[i]).0 == tag
}

/// The position of an entry of `fields` that carries `tag`.
pub open spec fn tag_index(fields: Seq<(Seq<char>, Seq<char>)>, tag: Seq<char>) -> int {
    choose|i: int| 0 <= i < fields.len() && (#[trigger] fields[i]).0 == tag
}

/// The value recorded under `tag`, if there is one.
pub open spec fn lookup(fields: Seq<(Seq<char>, Seq<char>)>, tag: Seq<char>) -> Option<Seq<char>> {
    if has_tag(fields, tag) {
        Some(fields[tag_index(fields, tag)].1)
    } else {
        None
    }
}

/// One past the position of the last entry of `fields` whose tag comes
/// before `tag`. Among ascending tags this is where `tag` belongs.
pub open spec fn rank(fields: Seq<(Seq<char>, Seq<char>)>, tag: Seq<char>) -> int
    decreases fields.len(),
{
    if fields.len() == 0 {
        0
    } else if tag_before(fields.last().0, tag) {
        fields.len() as int
    } else {
        rank(fields.drop_last(), tag)
    }
}

/// `fields` after recording `value` under `tag`: a tag that is already
/// present takes the new value, a new tag goes where it belongs in the
/// order of tags.
pub open spec fn put(fields: Seq<(Seq<char>, Seq<char>)>, tag: Seq<char>, value: Seq<char>) -> Seq<
    (Seq<char>, Seq<char>),
> {
    if has_tag(fields, tag) {
        fields.update(tag_index(fields, tag), (tag, value))
    } else {
        fields.insert(rank(fields, tag), (tag, value))
    }
}

/// Whether no tag occurs twice in `fields`.
pub open spec fn distinct_tags(fields: Seq<(Seq<char>, Seq<char>)>) -> bool {
    forall|i: int, j: int|
        0 <= i < j < fields.len() ==> (#[trigger] fields[i]).0 != (#[trigger] fields[j]).0
}

/// Whether the tags of `fields` ascend strictly: every entry's tag comes
/// before the tags of all entries after it, in the order of `String`.
pub open spec fn ascending_tags(fields: Seq<(Seq<char>, Seq<char>)>) -> bool {
    forall|i: int, j: int|
        0 <= i < j < fields.len() ==> tag_before(
            (#[trigger] fields[i]).0,
            (#[trigger] fields[j]).0,
        )
}

/// Tags that ascend strictly are distinct.
pub proof fn lemma_ascending_distinct(fields: Seq<(Seq<char>, Seq<char>)>)
    requires
        ascending_tags(fields),
    ensures
        distinct_tags(fields),
{
    assert forall|i: int, j: int| 0 <= i < j < fields.len() implies (#[trigger] fields[i]).0 != (
    #[trigger] fields[j]).0 by {
        lemma_tag_order(fields[i].0, fields[j].0);
    }
}

/// Among distinct tags, the entry that carries a tag is the only one.
pub proof fn lemma_tag_index(fields: Seq<(Seq<char>, Seq<char>)>, i: int)
    requires
        distinct_tags(fields),
        0 <= i < fields.len(),
    ensures
        has_tag(fields, fields[i].0),
        tag_index(fields, fields[i].0) == i,
        lookup(fields, fields[i].0) == Some(fields[i].1),
{
    let tag = fields[i].0;
    assert(has_tag(fields, tag));
    let k = tag_index(fields, tag);
    assert(0 <= k < fields.len() && fields[k].0 == tag);
    if k < i {
        assert(fields[k].0 != fields[i].0);
    }
    if i < k {
        assert(fields[i].0 != fields[k].0);
    }
}

/// Among ascending tags, the entries before the rank of a tag come before
/// the tag, and the entries from the rank on do not.
pub proof fn lemma_rank(fields: Seq<(Seq<char>, Seq<char>)>, tag: Seq<char>)
    requires
        ascending_tags(fields),
    ensures
        0 <= rank(fields, tag) <= fields.len(),
        forall|j: int| 0 <= j < rank(fields, tag) ==> tag_before((#[trigger] fields[j]).0, tag),
        forall|j: int|
            rank(fields, tag) <= j < fields.len() ==> !tag_before((#[trigger] fields[j]).0, tag),
    decreases fields.len(),
{
    if fields.len() > 0 {
        let last = fields.len() - 1;
        if tag_before(fields.last().0, tag) {
            assert forall|j: int| 0 <= j < fields.len() implies tag_before(
                (#[trigger] fields[j]).0,
                tag,
            ) by {
                if j < last {
                    assert(tag_before(fields[j].0, fields[last].0));
                    lemma_tag_transitive(fields[j].0, fields[last].0, tag);
                }
            }
        } else {
            let shorter = fields.drop_last();
            assert(ascending_tags(shorter)) by {
                assert forall|i: int, j: int| 0 <= i < j < shorter.len() implies tag_before(
                    (#[trigger] shorter[i]).0,
                    (#[trigger] shorter[j]).0,
                ) by {
                    assert(shorter[i] == fields[i]);
                    assert(shorter[j] == fields[j]);
                }
            }
            lemma_rank(shorter, tag);
            assert forall|j: int| 0 <= j < rank(fields, tag) implies tag_before(
                (#[trigger] fields[j]).0,
                tag,
            ) by {
                assert(shorter[j] == fields[j]);
            }
            assert forall|j: int| rank(fields, tag) <= j < fields.len() implies !tag_before(
                (#[trigger] fields[j]).0,
                tag,
            ) by {
                if j < last {
                    assert(shorter[j] == fields[j]);
                }
            }
        }
    }
}

/// Among ascending tags, the rank of a tag is the one position with only
/// smaller tags before it and no smaller tag at it.
pub proof fn lemma_rank_is(fields: Seq<(Seq<char>, Seq<char>)>, tag: Seq<char>, i: int)
    requires
        ascending_tags(fields),
        0 <= i <= fields.len(),
        forall|j: int| 0 <= j < i ==> tag_before((#[trigger] fields[j]).0, tag),
        i < fields.len() ==> !tag_before(fields[i].0, tag),
    ensures
        rank(fields, tag) == i,
        has_tag(fields, tag) <==> (i < fields.len() && fields[i].0 == tag),
        has_tag(fields, tag) ==> tag_index(fields, tag) == i,
{
    lemma_rank(fields, tag);
    lemma_ascending_distinct(fields);
    let r = rank(fields, tag);
    if r < i {
        assert(tag_before(fields[r].0, tag));
    }
    if i < r {
        assert(tag_before(fields[i].0, tag));
    }
    if has_tag(fields, tag) {
        let k = tag_index(fields, tag);
        lemma_tag_order(tag, tag);
        if k < i {
            assert(tag_before(fields[k].0, tag));
        }
        if i < k {
            assert(tag_before(fields[i].0, fields[k].0));
        }
    }
    if i < fields.len() && fields[i].0 == tag {
        lemma_tag_index(fields, i);
    }
}

/// Recording a value keeps tags ascending, makes the tag present with that
/// value, and leaves every other tag as it was.
pub proof fn lemma_put(
    fields: Seq<(Seq<char>, Seq<char>)>,
    tag: Seq<char>,
    value: Seq<char>,
)
    requires
        ascending_tags(fields),
    ensures
        ascending_tags(put(fields, tag, value)),
        lookup(put(fields, tag, value), tag) == Some(value),
        forall|other: Seq<char>|
            other != tag ==> #[trigger] lookup(put(fields, tag, value), other) == lookup(
                fields,
                other,
            ),
        forall|other: Seq<char>|
            #[trigger] has_tag(put(fields, tag, value), other) <==> (other == tag || has_tag(
                fields,
                other,
            )),
        put(fields, tag, value).len() == fields.len() + if has_tag(fields, tag) {
            0int
        } else {
            1int
        },
{
    let after = put(fields, tag, value);
    let present = has_tag(fields, tag);
    let at = if present {
        tag_index(fields, tag)
    } else {
        rank(fields, tag)
    };
    lemma_rank(fields, tag);
    lemma_ascending_distinct(fields);
    // where an entry of `after` other than the new one stood in `fields`
    let from = |j: int|
        if present || j < at {
            j
        } else {
            j - 1
        };
    // and where an entry of `fields` stands in `after`
    let to = |k: int|
        if present || k < at {
            k
        } else {
            k + 1
        };
    assert(0 <= at < after.len());
    assert(after[at] == (tag, value));
    assert forall|j: int| 0 <= j < after.len() && j != at implies 0 <= from(j) < fields.len()
        && after[j] == fields[from(j)] && fields[from(j)].0 != tag && to(from(j)) == j by {
        if present {
            if j < at {
                assert(fields[j].0 != fields[at].0);
            } else {
                assert(fields[at].0 != fields[j].0);
            }
        } else {
            if fields[from(j)].0 == tag {
                assert(has_tag(fields, tag));
            }
        }
    }
    assert forall|k: int| 0 <= k < fields.len() && !(present && k == at) implies 0 <= to(k)
        < after.len() && to(k) != at && after[to(k)] == fields[k] by {}
    assert forall|i: int, j: int| 0 <= i < j < after.len() implies tag_before(
        (#[trigger] after[i]).0,
        (#[trigger] after[j]).0,
    ) by {
        if present {
            assert(after[i].0 == fields[i].0);
            assert(after[j].0 == fields[j].0);
            assert(tag_before(fields[i].0, fields[j].0));
        } else if i == at {
            let k = from(j);
            assert(!tag_before(fields[k].0, tag));
            lemma_tag_order(tag, fields[k].0);
        } else if j == at {
            assert(tag_before(fields[from(i)].0, tag));
        } else {
            assert(tag_before(fields[from(i)].0, fields[from(j)].0));
        }
    }
    lemma_ascending_distinct(after);
    lemma_tag_index(after, at);
    assert forall|other: Seq<char>| other != tag implies #[trigger] lookup(after, other)
        == lookup(fields, other) by {
        if has_tag(fields, other) {
            let k = tag_index(fields, other);
            lemma_tag_index(fields, k);
            assert(after[to(k)] == fields[k]);
            lemma_tag_index(after, to(k));
        } else if has_tag(after, other) {
            let j = tag_index(after, other);
            assert(j != at);
            assert(fields[from(j)].0 == other);
            assert(has_tag(fields, other));
        }
    }
    assert forall|other: Seq<char>| #[trigger]
        has_tag(after, other) <==> (other == tag || has_tag(fields, other)) by {
        if has_tag(fields, other) && other != tag {
            let k = tag_index(fields, other);
            assert(after[to(k)] == fields[k]);
        }
        if has_tag(after, other) && other != tag {
            let j = tag_index(after, other);
            assert(fields[from(j)].0 == other);
        }
    }
}

/// The fields as a mapping from tag to value.
pub open spec fn mapping(fields: Seq<(Seq<char>, Seq<char>)>) -> Map<Seq<char>, Seq<char>> {
    Map::new(|tag: Seq<char>| has_tag(fields, tag), |tag: Seq<char>| lookup(fields, tag)->Some_0)
}

/// Recording a value under a tag is inserting it into the mapping.
pub proof fn lemma_put_mapping(
    fields: Seq<(Seq<char>, Seq<char>)>,
    tag: Seq<char>,
    value: Seq<char>,
)
    requires
        ascending_tags(fields),
    ensures
        mapping(put(fields, tag, value)) == mapping(fields).insert(tag, value),
{
    lemma_put(fields, tag, value);
    let after = mapping(put(fields, tag, value));
    let inserted = mapping(fields).insert(tag, value);
    assert forall|other: Seq<char>| after.dom().contains(other) == inserted.dom().contains(
        other,
    ) by {
        assert(has_tag(put(fields, tag, value), other) <==> (other == tag || has_tag(
            fields,
            other,
        )));
    }
    assert forall|other: Seq<char>| after.dom().contains(other) implies after[other]
        == inserted[other] by {
        if other != tag {
            assert(lookup(put(fields, tag, value), other) == lookup(fields, other));
        }
    }
    assert(after =~= inserted);
}

/// One decoded field: its tag and its value.
#[derive(Clone, Debug, PartialEq, Eq)]
struct Field {
    tag: String,
    value: String,
}

impl View for Field {
    type V = (Seq<char>, Seq<char>);

    closed spec fn view(&self) -> (Seq<char>, Seq<char>) {
        (self.tag@, self.value@)
    }
}

/// The fields of a file header or of a subheader.
///
/// Tags are unique, and the entries stand in ascending order of tag, tags
/// being compared as `String` compares them, by their UTF-8 bytes.
#[derive(Debug, PartialEq, Eq)]
pub struct FieldMap {
    entries: Vec<Field>,
}

impl View for FieldMap {
    type V = Seq<(Seq<char>, Seq<char>)>;

    closed spec fn view(&self) -> Seq<(Seq<char>, Seq<char>)> {
        self.entries@.map_values(|f: Field| f@)
    }
}

impl FieldMap {
    #[verifier::type_invariant]
    spec fn tags_ascend(&self) -> bool {
        ascending_tags(self@)
    }

    /// A mapping without entries.
    pub fn new() -> (m: FieldMap)
        ensures
            m@ == Seq::<(Seq<char>, Seq<char>)>::empty(),
    {
        let m = FieldMap { entries: Vec::new() };
        assert(m@ =~= Seq::<(Seq<char>, Seq<char>)>::empty());
        m
    }

    /// The number of fields.
    pub fn len(&self) -> (n: usize)
        ensures
            n == self@.len(),
            ascending_tags(self@),
    {
        proof {
            use_type_invariant(self);
        }
        self.entries.len()
    }

    /// Whether there is no field.
    pub fn is_empty(&self) -> (b: bool)
        ensures
            b == (self@.len() == 0),
    {
        self.entries.len() == 0
    }

    /// The position of the field with this tag, if it is present.
    fn position(&self, tag: &str) -> (r: Option<usize>)
        ensures
            ascending_tags(self@),
            r is Some <==> has_tag(self@, tag@),
            r matches Some(i) ==> i < self@.len() && self@[i as int].0 == tag@ && tag_index(
                self@,
                tag@,
            ) == i,
    {
        proof {
            use_type_invariant(self);
            lemma_ascending_distinct(self@);
        }
        let mut i: usize = 0;
        while i < self.entries.len()
            invariant
                i <= self.entries@.len(),
                self@.len() == self.entries@.len(),
                distinct_tags(self@),
                ascending_tags(self@),
                forall|j: int| 0 <= j < i ==> (#[trigger] self@[j]).0 != tag@,
            decreases self.entries@.len() - i,
        {
            if same_text(self.entries[i].tag.as_str(), tag) {
                proof {
                    lemma_tag_index(self@, i as int);
                }
                return Some(i);
            }
            i += 1;
        }
        None
    }

    /// Whether a field with this tag is present.
    pub fn contains_key(&self, tag: &str) -> (b: bool)
        ensures
            b == has_tag(self@, tag@),
    {
        self.position(tag).is_some()
    }

    /// The value of the field with this tag, if it is present.
    pub fn get(&self, tag: &str) -> (r: Option<&str>)
        ensures
            match r {
                Some(v) => lookup(self@, tag@) == Some(v@),
                None => lookup(self@, tag@) is None,
            },
    {
        match self.position(tag) {
            Some(i) => Some(self.entries[i].value.as_str()),
            None => None,
        }
    }

    /// The tag and the value of the `index`-th field in ascending order of
    /// tag, if there are that many.
    pub fn entry(&self, index: usize) -> (r: Option<(&str, &str)>)
        ensures
            ascending_tags(self@),
            match r {
                Some((tag, value)) => index < self@.len() && self@[index as int] == (
                    tag@,
                    value@,
                ),
                None => index >= self@.len(),
            },
    {
        proof {
            use_type_invariant(self);
        }
        if index < self.entries.len() {
            let f = &self.entries[index];
            Some((f.tag.as_str(), f.value.as_str()))
        } else {
            None
        }
    }

    /// Records `value` under `tag`. A tag that is already present takes
    /// the new value; a new tag goes where it belongs in the order of tags.
    pub fn insert(&mut self, tag: String, value: String)
        ensures
            final(self)@ == put(old(self)@, tag@, value@),
            ascending_tags(final(self)@),
    {
        proof {
            use_type_invariant(&*self);
            lemma_put(self@, tag@, value@);
        }
        let ghost before = self@;
        let mut entries: Vec<Field> = Vec::new();
        core::mem::swap(&mut self.entries, &mut entries);
        assert(entries@.map_values(|f: Field| f@) == before);
        let mut i: usize = 0;
        while i < entries.len() && comes_before(entries[i].tag.as_str(), tag.as_str())
            invariant
                i <= entries@.len(),
                before == entries@.map_values(|f: Field| f@),
                forall|j: int| 0 <= j < i ==> tag_before((#[trigger] before[j]).0, tag@),
            decreases entries@.len() - i,
        {
            i += 1;
        }
        let present = i < entries.len() && same_text(entries[i].tag.as_str(), tag.as_str());
        proof {
            lemma_rank_is(before, tag@, i as int);
        }
        if present {
            entries.set(i, Field { tag, value });
        } else {
            entries.insert(i, Field { tag, value });
        }
        assert(entries@.map_values(|f: Field| f@) =~= put(before, tag@, value@));
        self.entries = entries;
    }
}

impl Clone for FieldMap {
    /// A copy with the same fields in the same order.
    fn clone(&self) -> (r: FieldMap)
        ensures
            r@ == self@,
    {
        proof {
            use_type_invariant(self);
        }
        let mut entries: Vec<Field> = Vec::new();
        let mut i: usize = 0;
        while i < self.entries.len()
            invariant
                i <= self.entries@.len(),
                entries@.len() == i,
                forall|j: int| 0 <= j < i ==> (#[trigger] entries@[j])@ == self.entries@[j]@,
            decreases self.entries@.len() - i,
        {
            let f = &self.entries[i];
            entries.push(Field { tag: f.tag.clone(), value: f.value.clone() });
            i += 1;
        }
        assert(entries@.map_values(|f: Field| f@) =~= self@);
        FieldMap { entries }
    }
}

} // verus!
