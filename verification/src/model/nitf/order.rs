//! The order of tags: the order of `String`, which compares the UTF-8
//! bytes of two strings from the first byte on.

use vstd::prelude::*;
use vstd::string::*;
use vstd::utf8::*;

verus! {

/// Whether `x` comes before `y` when the two are compared byte by byte
/// from the start: at the first place where they differ `x` has the
/// smaller byte, or `x` ends there and `y` goes on.
pub open spec fn bytes_before(x: Seq<u8>, y: Seq<u8>) -> bool
    decreases x.len(),
{
    if y.len() == 0 {
        false
    } else if x.len() == 0 {
        true
    } else if x[0] != y[0] {
        x[0] < y[0]
    } else {
        bytes_before(x.drop_first(), y.drop_first())
    }
}

/// Whether tag `a` comes before tag `b`: whether the UTF-8 bytes of `a`
/// come before those of `b`.
pub open spec fn tag_before(a: Seq<char>, b: Seq<char>) -> bool {
    bytes_before(encode_utf8(a), encode_utf8(b))
}

/// Of two byte strings exactly one holds: the first comes before the
/// second, they are the same, or the second comes before the first.
pub proof fn lemma_bytes_order(x: Seq<u8>, y: Seq<u8>)
    ensures
        bytes_before(x, y) || x == y || bytes_before(y, x),
        !(bytes_before(x, y) && bytes_before(y, x)),
        x == y ==> !bytes_before(x, y),
    decreases x.len(),
{
    if x.len() > 0 && y.len() > 0 && x[0] == y[0] {
        lemma_bytes_order(x.drop_first(), y.drop_first());
        if x.drop_first() == y.drop_first() {
            assert(x =~= seq![x[0]] + x.drop_first());
            assert(y =~= seq![y[0]] + y.drop_first());
        }
    } else if x.len() == 0 && y.len() == 0 {
        assert(x =~= y);
    }
}

/// What comes before something that comes before a third comes before
/// the third.
pub proof fn lemma_bytes_transitive(x: Seq<u8>, y: Seq<u8>, z: Seq<u8>)
    requires
        bytes_before(x, y),
        bytes_before(y, z),
    ensures
        bytes_before(x, z),
    decreases x.len(),
{
    if x.len() > 0 && x[0] == y[0] && y[0] == z[0] {
        lemma_bytes_transitive(x.drop_first(), y.drop_first(), z.drop_first());
    }
}

/// Two byte strings that agree in their first `i` bytes are in the order
/// of what follows those bytes.
pub proof fn lemma_bytes_skip(x: Seq<u8>, y: Seq<u8>, i: int)
    requires
        0 <= i <= x.len(),
        i <= y.len(),
        forall|j: int| 0 <= j < i ==> x[j] == y[j],
    ensures
        bytes_before(x, y) == bytes_before(x.skip(i), y.skip(i)),
    decreases i,
{
    if i == 0 {
        assert(x.skip(0) =~= x);
        assert(y.skip(0) =~= y);
    } else {
        assert(x[0] == y[0]);
        lemma_bytes_skip(x.drop_first(), y.drop_first(), i - 1);
        assert(x.drop_first().skip(i - 1) =~= x.skip(i));
        assert(y.drop_first().skip(i - 1) =~= y.skip(i));
    }
}

/// Of two tags exactly one holds: the first comes before the second, they
/// are the same tag, or the second comes before the first.
pub proof fn lemma_tag_order(a: Seq<char>, b: Seq<char>)
    ensures
        tag_before(a, b) || a == b || tag_before(b, a),
        !(tag_before(a, b) && tag_before(b, a)),
        a == b ==> !tag_before(a, b),
{
    broadcast use encode_utf8_decode_utf8;

    lemma_bytes_order(encode_utf8(a), encode_utf8(b));
    assert(decode_utf8(encode_utf8(a)) == a);
    assert(decode_utf8(encode_utf8(b)) == b);
}

/// A tag that comes before a tag that comes before a third comes before
/// the third.
pub proof fn lemma_tag_transitive(a: Seq<char>, b: Seq<char>, c: Seq<char>)
    requires
        tag_before(a, b),
        tag_before(b, c),
    ensures
        tag_before(a, c),
{
    lemma_bytes_transitive(encode_utf8(a), encode_utf8(b), encode_utf8(c));
}

/// Tells whether tag `a` comes before tag `b`.
pub fn comes_before(a: &str, b: &str) -> (r: bool)
    ensures
        r == tag_before(a@, b@),
{
    let x = a.as_bytes();
    let y = b.as_bytes();
    let mut i: usize = 0;
    while i < x.len() && i < y.len()
        invariant
            x@ == encode_utf8(a@),
            y@ == encode_utf8(b@),
            i <= x@.len(),
            i <= y@.len(),
            forall|j: int| 0 <= j < i ==> x@[j] == y@[j],
        decreases x@.len() - i,
    {
        if x[i] != y[i] {
            proof {
                lemma_bytes_skip(x@, y@, i as int);
            }
            return x[i] < y[i];
        }
        i += 1;
    }
    proof {
        lemma_bytes_skip(x@, y@, i as int);
    }
    x.len() < y.len()
}

} // verus!
