//! Path text utilities: the byte-lexicographic order used to pick
//! deterministic representatives and to sort report groups, and the
//! extraction of a file name's extension.

use vstd::prelude::*;

verus! {

use vstd::string::StringSliceAdditionalSpecFns;
use vstd::utf8::encode_utf8;

/// The UTF-8 bytes of a string of characters.
pub open spec fn str_bytes(s: Seq<char>) -> Seq<u8> {
    encode_utf8(s)
}

/// Relies on std's `String::from_utf8`: it succeeds exactly on valid
/// UTF-8 and the string then holds exactly the given bytes.
#[verifier::external_body]
pub(crate) fn string_from_bytes(v: Vec<u8>) -> (r: Option<String>)
    ensures
        r is Some <==> vstd::utf8::valid_utf8(v@),
        r matches Some(s) ==> str_bytes(s@) == v@,
{
    String::from_utf8(v).ok()
}

/// A sequence of bytes below 0x80 is valid UTF-8.
pub proof fn lemma_ascii_valid_utf8(v: Seq<u8>)
    requires
        forall|i: int| 0 <= i < v.len() ==> #[trigger] v[i] < 0x80,
    ensures
        vstd::utf8::valid_utf8(v),
{
    assert(vstd::utf8::valid_utf8(v.subrange(0, 0)));
    assert(vstd::utf8::partial_valid_utf8(v, 0));
    assert forall|i: int|
        0 <= 0 <= i < v.len() <= v.len()
        implies #[trigger] vstd::utf8::is_leading_byte_width_1(v[i]) by {}
    vstd::utf8::partial_valid_utf8_extend_ascii_block(v, 0, v.len() as int);
    assert(v.subrange(0, v.len() as int) =~= v);
}

/// Two strings of characters with the same UTF-8 bytes are equal.
pub proof fn lemma_str_bytes_injective(a: Seq<char>, b: Seq<char>)
    requires
        str_bytes(a) == str_bytes(b),
    ensures
        a == b,
{
    vstd::utf8::encode_utf8_decode_utf8(a);
    vstd::utf8::encode_utf8_decode_utf8(b);
}

/// Strict byte-lexicographic order.
pub open spec fn bytes_lt(a: Seq<u8>, b: Seq<u8>) -> bool
    decreases a.len(),
{
    if b.len() == 0 {
        false
    } else if a.len() == 0 {
        true
    } else if a.first() != b.first() {
        a.first() < b.first()
    } else {
        bytes_lt(a.drop_first(), b.drop_first())
    }
}

/// Byte-lexicographic order, allowing equality.
pub open spec fn bytes_le(a: Seq<u8>, b: Seq<u8>) -> bool {
    bytes_lt(a, b) || a == b
}

/// The byte-lexicographic order on path strings (their UTF-8 bytes).
pub open spec fn path_le_spec(a: &str, b: &str) -> bool {
    bytes_le(a.spec_bytes(), b.spec_bytes())
}

/// Two sequences with equal heads and equal tails are equal.
proof fn lemma_eq_after_first(a: Seq<u8>, b: Seq<u8>)
    requires
        a.len() != 0,
        b.len() != 0,
        a.first() == b.first(),
        a.drop_first() == b.drop_first(),
    ensures
        a == b,
{
    assert(a.drop_first().len() == a.len() - 1);
    assert(b.drop_first().len() == b.len() - 1);
    assert forall|i: int| 0 <= i < a.len() implies a[i] == b[i] by {
        if i > 0 {
            assert(a.drop_first()[i - 1] == a[i]);
            assert(b.drop_first()[i - 1] == b[i]);
        }
    }
    assert(a =~= b);
}

/// The order is total: one of the two directions always holds.
pub proof fn lemma_bytes_le_total(a: Seq<u8>, b: Seq<u8>)
    ensures
        bytes_le(a, b) || bytes_le(b, a),
    decreases a.len(),
{
    if a.len() == 0 && b.len() == 0 {
        assert(a =~= b);
    } else if a.len() != 0 && b.len() != 0 && a.first() == b.first() {
        lemma_bytes_le_total(a.drop_first(), b.drop_first());
        if a.drop_first() == b.drop_first() {
            lemma_eq_after_first(a, b);
        }
    }
}

/// The order is antisymmetric: mutual order means equality.
pub proof fn lemma_bytes_le_antisymmetric(a: Seq<u8>, b: Seq<u8>)
    requires
        bytes_le(a, b),
        bytes_le(b, a),
    ensures
        a == b,
    decreases a.len(),
{
    if a != b {
        assert(bytes_lt(a, b) && bytes_lt(b, a));
        if a.len() != 0 && b.len() != 0 && a.first() == b.first() {
            if a.drop_first() == b.drop_first() {
                lemma_eq_after_first(a, b);
            } else {
                lemma_bytes_le_antisymmetric(a.drop_first(), b.drop_first());
                lemma_eq_after_first(a, b);
            }
        }
    }
}

/// The order is transitive.
pub proof fn lemma_bytes_le_transitive(a: Seq<u8>, b: Seq<u8>, c: Seq<u8>)
    requires
        bytes_le(a, b),
        bytes_le(b, c),
    ensures
        bytes_le(a, c),
    decreases a.len(),
{
    if a != b && b != c {
        if a.len() != 0 && b.len() != 0 && c.len() != 0 && a.first() == b.first() && b.first()
            == c.first() {
            lemma_bytes_le_transitive(a.drop_first(), b.drop_first(), c.drop_first());
            if a.drop_first() == c.drop_first() {
                lemma_eq_after_first(a, c);
            }
        }
    }
}

/// Equal prefixes do not affect the order of what follows.
proof fn lemma_bytes_lt_skip(a: Seq<u8>, b: Seq<u8>, i: int)
    requires
        0 <= i <= a.len(),
        i <= b.len(),
        forall|j: int| 0 <= j < i ==> a[j] == b[j],
    ensures
        bytes_lt(a, b) == bytes_lt(a.skip(i), b.skip(i)),
    decreases i,
{
    if i == 0 {
        assert(a.skip(0) =~= a);
        assert(b.skip(0) =~= b);
    } else {
        assert(a.first() == a[0] && b.first() == b[0]);
        assert(a.len() != 0 && b.len() != 0 && a.first() == b.first());
        assert(a.drop_first() =~= a.skip(1));
        assert(b.drop_first() =~= b.skip(1));
        lemma_bytes_lt_skip(a.skip(1), b.skip(1), i - 1);
        assert(a.skip(1).skip(i - 1) =~= a.skip(i));
        assert(b.skip(1).skip(i - 1) =~= b.skip(i));
    }
}

/// Compare two path strings in byte-lexicographic order.
pub fn path_le(a: &str, b: &str) -> (r: bool)
    ensures
        r == path_le_spec(a, b),
{
    let ab = a.as_bytes();
    let bb = b.as_bytes();
    let an = ab.len();
    let bn = bb.len();
    let n = if an < bn {
        an
    } else {
        bn
    };
    let mut i: usize = 0;
    while i < n
        invariant
            i <= n,
            n <= ab@.len(),
            n <= bb@.len(),
            ab@ == a.spec_bytes(),
            bb@ == b.spec_bytes(),
            an == ab@.len(),
            bn == bb@.len(),
            n == (if an < bn { an as int } else { bn as int }),
            forall|j: int| 0 <= j < i ==> ab@[j] == bb@[j],
        decreases n - i,
    {
        let x = ab[i];
        let y = bb[i];
        if x != y {
            proof {
                lemma_bytes_lt_skip(ab@, bb@, i as int);
                assert(ab@.skip(i as int).first() == x);
                assert(bb@.skip(i as int).first() == y);
                if x < y {
                    assert(bytes_lt(ab@, bb@));
                } else {
                    assert(!bytes_lt(ab@, bb@));
                    assert(ab@ != bb@) by {
                        assert(ab@.skip(i as int).first() != bb@.skip(i as int).first());
                    }
                }
            }
            return x < y;
        }
        i = i + 1;
    }
    proof {
        lemma_bytes_lt_skip(ab@, bb@, n as int);
        if an < bn {
            assert(ab@.skip(n as int).len() == 0);
            assert(bb@.skip(n as int).len() > 0);
            assert(bytes_lt(ab@, bb@));
        } else if an == bn {
            assert(ab@ =~= bb@);
        } else {
            assert(bb@.skip(n as int).len() == 0);
            assert(!bytes_lt(ab@, bb@));
            assert(ab@ != bb@) by {
                assert(ab@.len() != bb@.len());
            }
        }
    }
    an <= bn
}

/// The position right after the last path separator.
pub open spec fn name_start(p: Seq<u8>) -> int
    decreases p.len(),
{
    if p.len() == 0 {
        0
    } else if p.last() == 47 {
        p.len() as int
    } else {
        name_start(p.drop_last())
    }
}

/// The position of the last dot, or -1 when there is none.
pub open spec fn last_dot(p: Seq<u8>) -> int
    decreases p.len(),
{
    if p.len() == 0 {
        -1
    } else if p.last() == 46 {
        p.len() - 1
    } else {
        last_dot(p.drop_last())
    }
}

/// Where a path's extension starts: right after the last dot, provided
/// that dot lies inside the file name and does not lead it; otherwise at
/// the end (an empty extension).
pub open spec fn ext_start(p: Seq<u8>) -> int {
    if last_dot(p) > name_start(p) {
        last_dot(p) + 1
    } else {
        p.len() as int
    }
}

/// The extension of a path: the part of its file name after the last
/// dot. A leading dot does not begin an extension.
pub open spec fn ext_of(p: Seq<u8>) -> Seq<u8> {
    p.subrange(ext_start(p), p.len() as int)
}

/// `name_start` points right after the last separator.
proof fn lemma_name_start(p: Seq<u8>)
    ensures
        0 <= name_start(p) <= p.len(),
        forall|j: int| name_start(p) <= j < p.len() ==> p[j] != 47,
        name_start(p) > 0 ==> p[name_start(p) - 1] == 47,
    decreases p.len(),
{
    if p.len() > 0 && p.last() != 47 {
        lemma_name_start(p.drop_last());
        assert forall|j: int| name_start(p) <= j < p.len() implies p[j] != 47 by {
            if j < p.len() - 1 {
                assert(p.drop_last()[j] != 47);
            }
        }
    }
}

/// `last_dot` points at the last dot.
proof fn lemma_last_dot(p: Seq<u8>)
    ensures
        -1 <= last_dot(p) < p.len(),
        last_dot(p) >= 0 ==> p[last_dot(p)] == 46,
        forall|j: int| last_dot(p) < j < p.len() ==> p[j] != 46,
    decreases p.len(),
{
    if p.len() > 0 && p.last() != 46 {
        lemma_last_dot(p.drop_last());
        assert forall|j: int| last_dot(p) < j < p.len() implies p[j] != 46 by {
            if j < p.len() - 1 {
                assert(p.drop_last()[j] != 46);
            }
        }
        if last_dot(p) >= 0 {
            assert(p[last_dot(p)] == p.drop_last()[last_dot(p)]);
        }
    }
}

/// Find the last position holding `c`, scanning backwards.
fn rfind_byte(p: &[u8], c: u8) -> (r: Option<usize>)
    ensures
        r matches Some(i) ==> i < p@.len() && p@[i as int] == c && (forall|j: int|
            i < j < p@.len() ==> p@[j] != c),
        r is None ==> forall|j: int| 0 <= j < p@.len() ==> p@[j] != c,
{
    let n = p.len();
    let mut i: usize = n;
    while i > 0
        invariant
            i <= n,
            n == p@.len(),
            forall|j: int| i <= j < n ==> p@[j] != c,
        decreases i,
    {
        i = i - 1;
        if p[i] == c {
            return Some(i);
        }
    }
    None
}

/// Extract a path's extension bytes.
pub fn extension_bytes(p: &[u8]) -> (r: Vec<u8>)
    ensures
        r@ == ext_of(p@),
{
    proof {
        lemma_name_start(p@);
        lemma_last_dot(p@);
    }
    let dot = rfind_byte(p, 46);
    let slash = rfind_byte(p, 47);
    let ghost ns = name_start(p@);
    let ghost ld = last_dot(p@);
    proof {
        match slash {
            Some(s) => {
                assert(ns == s + 1) by {
                    if ns <= s {
                        assert(p@[s as int] != 47);
                    }
                    if ns > s + 1 {
                        assert(p@[ns - 1] != 47);
                    }
                }
            },
            None => {
                assert(ns == 0) by {
                    if ns > 0 {
                        assert(p@[ns - 1] != 47);
                    }
                }
            },
        }
        match dot {
            Some(d) => {
                assert(ld == d) by {
                    if ld < d {
                        assert(p@[d as int] != 46);
                    }
                    if ld > d {
                        assert(p@[ld] != 46);
                    }
                }
            },
            None => {
                assert(ld == -1) by {
                    if ld >= 0 {
                        assert(p@[ld] != 46);
                    }
                }
            },
        }
    }
    let n = p.len();
    let start: usize = match (dot, slash) {
        (Some(d), Some(s)) => {
            assert(d < n && s < n);
            if d > s && d - s > 1 {
                d + 1
            } else {
                n
            }
        },
        (Some(d), None) => {
            assert(d < n);
            if d > 0 {
                d + 1
            } else {
                n
            }
        },
        _ => n,
    };
    assert(start == ext_start(p@));
    let mut r: Vec<u8> = Vec::new();
    let mut i: usize = start;
    while i < p.len()
        invariant
            start <= i <= p@.len(),
            r@ =~= p@.subrange(start as int, i as int),
        decreases p@.len() - i,
    {
        let b = p[i];
        r.push(b);
        i = i + 1;
        proof {
            assert(r@ =~= p@.subrange(start as int, i as int));
        }
    }
    proof {
        assert(r@ =~= p@.subrange(ext_start(p@), p@.len() as int));
    }
    r
}

} // verus!
