//! A plain-text report of decoded fields, one line per field.

use vstd::prelude::*;
use vstd::string::*;

use super::fields::{ascending_tags, FieldMap};
use super::header::MAX_SEGMENTS;
use super::parallel::fields_of;
use super::text::{indexed_tag, make_indexed_tag};

verus! {

/// The line that reports one field: a line break, the prefix, the tag, a
/// colon with a space, and the value.
pub open spec fn rendered_line(prefix: Seq<char>, field: (Seq<char>, Seq<char>)) -> Seq<char> {
    "\n"@ + prefix + field.0 + ": "@ + field.1
}

/// The lines that report the fields of one header, in the order of the
/// fields. The fields of a [`FieldMap`] stand in ascending order of tag,
/// so its lines do too.
pub open spec fn rendered_fields(prefix: Seq<char>, fields: Seq<(Seq<char>, Seq<char>)>) -> Seq<
    char,
>
    decreases fields.len(),
{
    if fields.len() == 0 {
        Seq::empty()
    } else {
        rendered_fields(prefix, fields.drop_last()) + rendered_line(prefix, fields.last())
    }
}

/// The prefix of the lines of one subheader: `NITF::`, the name of the
/// kind, the position of the subheader among those of its kind in three
/// digits, and `::`.
pub open spec fn group_prefix(name: Seq<char>, position: nat) -> Seq<char> {
    indexed_tag("NITF::"@ + name, position) + "::"@
}

/// The lines that report the subheaders of one kind. Subheaders are
/// numbered from zero.
pub open spec fn rendered_group(name: Seq<char>, group: Seq<Seq<(Seq<char>, Seq<char>)>>) -> Seq<
    char,
>
    decreases group.len(),
{
    if group.len() == 0 {
        Seq::empty()
    } else {
        rendered_group(name, group.drop_last()) + rendered_fields(
            group_prefix(name, (group.len() - 1) as nat),
            group.last(),
        )
    }
}

/// Appends to `out` one line for each field, in ascending order of tag.
pub fn render_fields(out: &mut String, prefix: &str, fields: &FieldMap)
    ensures
        final(out)@ == old(out)@ + rendered_fields(prefix@, fields@),
        ascending_tags(fields@),
{
    let ghost before = out@;
    let n = fields.len();
    let mut i: usize = 0;
    assert(fields@.take(0) =~= Seq::empty());
    assert(out@ =~= before + rendered_fields(prefix@, fields@.take(0)));
    while i < n
        invariant
            i <= n,
            n == fields@.len(),
            out@ == before + rendered_fields(prefix@, fields@.take(i as int)),
        decreases n - i,
    {
        let ghost so_far = out@;
        if let Some((tag, value)) = fields.entry(i) {
            out.append("\n");
            out.append(prefix);
            out.append(tag);
            out.append(": ");
            out.append(value);
        }
        proof {
            let shown = fields@.take(i + 1);
            assert(shown.drop_last() =~= fields@.take(i as int));
            assert(shown.last() == fields@[i as int]);
            assert(out@ =~= so_far + rendered_line(prefix@, fields@[i as int]));
            assert(out@ =~= before + rendered_fields(prefix@, shown));
        }
        i += 1;
    }
    assert(fields@.take(n as int) =~= fields@);
}

/// Appends to `out` the lines of the subheaders of one kind.
pub(crate) fn render_group(out: &mut String, name: &str, group: &Vec<FieldMap>)
    requires
        group@.len() <= MAX_SEGMENTS,
    ensures
        final(out)@ == old(out)@ + rendered_group(name@, fields_of(group@)),
{
    let ghost before = out@;
    let ghost all = fields_of(group@);
    let mut stem = "NITF::".to_owned();
    stem.append(name);
    let mut i: usize = 0;
    assert(all.take(0) =~= Seq::empty());
    assert(out@ =~= before + rendered_group(name@, all.take(0)));
    while i < group.len()
        invariant
            i <= group@.len() <= MAX_SEGMENTS,
            all == fields_of(group@),
            stem@ == "NITF::"@ + name@,
            out@ == before + rendered_group(name@, all.take(i as int)),
        decreases group@.len() - i,
    {
        let ghost so_far = out@;
        let mut prefix = make_indexed_tag(stem.as_str(), i);
        prefix.append("::");
        render_fields(out, prefix.as_str(), &group[i]);
        proof {
            let shown = all.take(i + 1);
            assert(shown.drop_last() =~= all.take(i as int));
            assert(shown.last() == group@[i as int]@);
            assert(out@ =~= before + rendered_group(name@, shown));
        }
        i += 1;
    }
    assert(all.take(group@.len() as int) =~= all);
}

} // verus!
