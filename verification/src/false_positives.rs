//! The store of resolved pairs: pairs of content digests a human marked
//! as acceptable duplicates to keep, or as not actually duplicates.
//!
//! On disk each pair is two hex-encoded 128-bit digests, sorted within
//! the pair for a canonical form; this module holds the conversions and
//! the membership rules, while reading and writing the file is I/O and
//! lives outside the library.

use vstd::prelude::*;

verus! {

use crate::digest::{digest_to_hex, hex_to_digest, digest_val, is_hex_digit, is_lower_hex_digit};
use crate::paths::{str_bytes, string_from_bytes, lemma_ascii_valid_utf8};
use vstd::string::StringSliceAdditionalSpecFns;

/// Pairs of content digests that the interactive triage has resolved.
pub struct FalsePositives {
    /// The pairs of files we want to keep.
    pub keep: Vec<(u128, u128)>,
    /// The pairs that are not actually duplicates.
    pub false_positives: Vec<(u128, u128)>,
}

/// Whether a pair of digests is recorded, in either order.
pub open spec fn pair_in(s: Seq<(u128, u128)>, a: u128, b: u128) -> bool {
    exists|m: int| 0 <= m < s.len() && (s[m] == (a, b) || s[m] == (b, a))
}

impl FalsePositives {
    /// An empty store.
    pub fn new() -> (r: FalsePositives)
        ensures
            r.keep@ =~= Seq::<(u128, u128)>::empty(),
            r.false_positives@ =~= Seq::<(u128, u128)>::empty(),
    {
        FalsePositives { keep: Vec::new(), false_positives: Vec::new() }
    }

    /// Whether the pair is recorded to keep, in either order.
    pub fn keep_contains(&self, a: u128, b: u128) -> (r: bool)
        ensures
            r == pair_in(self.keep@, a, b),
    {
        Self::find_pair(&self.keep, a, b)
    }

    /// Whether the pair is recorded as a false positive, in either
    /// order.
    pub fn fp_contains(&self, a: u128, b: u128) -> (r: bool)
        ensures
            r == pair_in(self.false_positives@, a, b),
    {
        Self::find_pair(&self.false_positives, a, b)
    }

    fn find_pair(s: &Vec<(u128, u128)>, a: u128, b: u128) -> (r: bool)
        ensures
            r == pair_in(s@, a, b),
    {
        let n = s.len();
        let mut m: usize = 0;
        while m < n
            invariant
                m <= n,
                n == s@.len(),
                forall|m2: int| 0 <= m2 < m ==> #[trigger] s@[m2] != (a, b) && s@[m2] != (b, a),
            decreases n - m,
        {
            let (x, y) = s[m];
            if (x == a && y == b) || (x == b && y == a) {
                proof {
                    assert(s@[m as int] == (a, b) || s@[m as int] == (b, a));
                }
                return true;
            }
            m = m + 1;
        }
        false
    }

    /// Record a pair to keep; recording the exact same ordered pair
    /// again changes nothing.
    pub fn add_keep(&mut self, a: u128, b: u128)
        ensures
            final(self).false_positives@ == old(self).false_positives@,
            (exists|m: int| 0 <= m < old(self).keep@.len() && old(self).keep@[m] == (a, b))
                ==> final(self).keep@ == old(self).keep@,
            !(exists|m: int| 0 <= m < old(self).keep@.len() && old(self).keep@[m] == (a, b))
                ==> final(self).keep@ == old(self).keep@.push((a, b)),
    {
        if !Self::find_exact(&self.keep, a, b) {
            self.keep.push((a, b));
        }
    }

    /// Record a pair as a false positive; recording the exact same
    /// ordered pair again changes nothing.
    pub fn add_false_positive(&mut self, a: u128, b: u128)
        ensures
            final(self).keep@ == old(self).keep@,
            (exists|m: int|
                0 <= m < old(self).false_positives@.len() && old(self).false_positives@[m]
                    == (a, b)) ==> final(self).false_positives@ == old(self).false_positives@,
            !(exists|m: int|
                0 <= m < old(self).false_positives@.len() && old(self).false_positives@[m]
                    == (a, b)) ==> final(self).false_positives@ == old(
                self,
            ).false_positives@.push((a, b)),
    {
        if !Self::find_exact(&self.false_positives, a, b) {
            self.false_positives.push((a, b));
        }
    }

    fn find_exact(s: &Vec<(u128, u128)>, a: u128, b: u128) -> (r: bool)
        ensures
            r == exists|m: int| 0 <= m < s@.len() && s@[m] == (a, b),
    {
        let n = s.len();
        let mut m: usize = 0;
        while m < n
            invariant
                m <= n,
                n == s@.len(),
                forall|m2: int| 0 <= m2 < m ==> #[trigger] s@[m2] != (a, b),
            decreases n - m,
        {
            let (x, y) = s[m];
            if x == a && y == b {
                proof {
                    assert(s@[m as int] == (a, b));
                }
                return true;
            }
            m = m + 1;
        }
        false
    }
}

impl Default for FalsePositives {
    fn default() -> (r: FalsePositives)
        ensures
            r.keep@ =~= Seq::<(u128, u128)>::empty(),
            r.false_positives@ =~= Seq::<(u128, u128)>::empty(),
    {
        FalsePositives::new()
    }
}

/// The decimal digit character for a value below ten.
pub open spec fn dec_digit_char(v: nat) -> char {
    "0123456789"@[v as int]
}

/// The decimal digits of a number, most significant first.
pub open spec fn dec_chars(n: nat) -> Seq<char>
    decreases n,
{
    if n < 10 {
        seq![dec_digit_char(n)]
    } else {
        dec_chars(n / 10).push(dec_digit_char(n % 10))
    }
}

/// Append a number's decimal digits to a string.
fn push_dec(s: &mut String, n: usize)
    ensures
        final(s)@ == old(s)@ + dec_chars(n as nat),
    decreases n,
{
    let ghost pre = s@;
    if n >= 10 {
        push_dec(s, n / 10);
    }
    let d = n % 10;
    let digits = "0123456789";
    proof {
        reveal_strlit("0123456789");
    }
    let c = digits.substring_char(d, d + 1);
    proof {
        assert(c@ =~= seq![dec_digit_char(d as nat)]);
    }
    s.append(c);
    proof {
        if n >= 10 {
            assert(dec_chars(n as nat) == dec_chars((n / 10) as nat).push(
                dec_digit_char((n % 10) as nat),
            ));
            assert(s@ =~= pre + dec_chars(n as nat));
        } else {
            assert(dec_chars(n as nat) == seq![dec_digit_char(n as nat)]);
            assert(s@ =~= pre + dec_chars(n as nat));
        }
    }
}

/// The message rejecting a malformed stored pair: a count other than two
/// names the count it saw; a malformed digest string names the expected
/// shape.
pub open spec fn fp_error_of(g: Seq<String>) -> Seq<char> {
    if g.len() != 2 {
        "Invalid number of entries: "@ + dec_chars(g.len()) + ", expected 2"@
    } else {
        "Invalid hash, expected 32 hex digits"@
    }
}

/// Whether a string is exactly 32 hexadecimal digits.
pub open spec fn is_hex32_str(s: Seq<char>) -> bool {
    str_bytes(s).len() == 32 && (forall|i: int|
        0 <= i < 32 ==> is_hex_digit(#[trigger] str_bytes(s)[i]))
}

/// Whether a serialized pair is well-formed: two strings of 32
/// hexadecimal digits each.
pub open spec fn fp_group_ok(g: Seq<String>) -> bool {
    g.len() == 2 && is_hex32_str(g[0]@) && is_hex32_str(g[1]@)
}

/// One digest as its canonical 32-digit lowercase hexadecimal string.
fn digest_string(d: u128) -> (r: String)
    ensures
        str_bytes(r@).len() == 32,
        forall|i: int| 0 <= i < 32 ==> is_lower_hex_digit(#[trigger] str_bytes(r@)[i]),
        digest_val(str_bytes(r@)) == d,
{
    let bytes = digest_to_hex(d);
    proof {
        assert forall|i: int| 0 <= i < bytes@.len() implies #[trigger] bytes@[i] < 0x80 by {
            assert(is_lower_hex_digit(bytes@[i]));
        }
        lemma_ascii_valid_utf8(bytes@);
    }
    match string_from_bytes(bytes) {
        Some(s) => s,
        None => vstd::pervasive::unreached(),
    }
}

/// Serialize recorded pairs: each pair becomes two hexadecimal strings,
/// the smaller digest first.
pub fn set_to_vec(hashes: &Vec<(u128, u128)>) -> (r: Vec<Vec<String>>)
    ensures
        r@.len() == hashes@.len(),
        forall|m: int|
            0 <= m < r@.len() ==> fp_group_ok(#[trigger] r@[m]@),
        forall|m: int|
            #![trigger r@[m]]
            0 <= m < r@.len() ==> {
                let lo = if hashes@[m].0 <= hashes@[m].1 {
                    hashes@[m].0
                } else {
                    hashes@[m].1
                };
                let hi = if hashes@[m].0 <= hashes@[m].1 {
                    hashes@[m].1
                } else {
                    hashes@[m].0
                };
                digest_val(str_bytes(r@[m]@[0]@)) == lo && digest_val(str_bytes(r@[m]@[1]@))
                    == hi
            },
{
    let n = hashes.len();
    let mut r: Vec<Vec<String>> = Vec::new();
    let mut m: usize = 0;
    while m < n
        invariant
            m <= n,
            n == hashes@.len(),
            r@.len() == m,
            forall|m2: int| 0 <= m2 < m ==> fp_group_ok(#[trigger] r@[m2]@),
            forall|m2: int|
                #![trigger r@[m2]]
                0 <= m2 < m ==> {
                    let lo = if hashes@[m2].0 <= hashes@[m2].1 {
                        hashes@[m2].0
                    } else {
                        hashes@[m2].1
                    };
                    let hi = if hashes@[m2].0 <= hashes@[m2].1 {
                        hashes@[m2].1
                    } else {
                        hashes@[m2].0
                    };
                    digest_val(str_bytes(r@[m2]@[0]@)) == lo && digest_val(
                        str_bytes(r@[m2]@[1]@),
                    ) == hi
                },
        decreases n - m,
    {
        let (a, b) = hashes[m];
        let lo = if a <= b {
            a
        } else {
            b
        };
        let hi = if a <= b {
            b
        } else {
            a
        };
        let mut pair: Vec<String> = Vec::new();
        pair.push(digest_string(lo));
        pair.push(digest_string(hi));
        r.push(pair);
        m = m + 1;
    }
    r
}

/// Parse serialized pairs back into digest pairs, in stored order.
///
/// Errors exactly when some entry is not two strings of 32 hexadecimal
/// digits.
pub fn vec_to_set(hashes: &Vec<Vec<String>>) -> (r: Result<Vec<(u128, u128)>, String>)
    ensures
        r is Ok <==> (forall|m: int| 0 <= m < hashes@.len() ==> fp_group_ok(
            #[trigger] hashes@[m]@,
        )),
        r matches Ok(v) ==> v@.len() == hashes@.len() && (forall|m: int|
            #![trigger v@[m]]
            0 <= m < v@.len() ==> v@[m].0 == digest_val(str_bytes(hashes@[m]@[0]@)) && v@[m].1
                == digest_val(str_bytes(hashes@[m]@[1]@))),
        r matches Err(e) ==> exists|m: int|
            0 <= m < hashes@.len() && !fp_group_ok(#[trigger] hashes@[m]@) && (forall|k: int|
                0 <= k < m ==> fp_group_ok(hashes@[k]@)) && e@ == fp_error_of(hashes@[m]@),
{
    let n = hashes.len();
    let mut v: Vec<(u128, u128)> = Vec::new();
    let mut m: usize = 0;
    while m < n
        invariant
            m <= n,
            n == hashes@.len(),
            v@.len() == m,
            forall|m2: int| 0 <= m2 < m ==> fp_group_ok(#[trigger] hashes@[m2]@),
            forall|m2: int|
                #![trigger v@[m2]]
                0 <= m2 < m ==> v@[m2].0 == digest_val(str_bytes(hashes@[m2]@[0]@)) && v@[m2].1
                    == digest_val(str_bytes(hashes@[m2]@[1]@)),
        decreases n - m,
    {
        let g = &hashes[m];
        proof {
            assert(g@ == hashes@[m as int]@);
        }
        if g.len() != 2 {
            let mut msg = String::from_str("Invalid number of entries: ");
            push_dec(&mut msg, g.len());
            msg.append(", expected 2");
            proof {
                assert(!fp_group_ok(hashes@[m as int]@));
                assert(msg@ == fp_error_of(hashes@[m as int]@));
            }
            return Err(msg);
        }
        let b0 = g[0].as_str().as_bytes_vec();
        let b1 = g[1].as_str().as_bytes_vec();
        let d0 = match hex_to_digest(&b0) {
            Some(d) => d,
            None => {
                proof {
                    assert(!is_hex32_str(hashes@[m as int]@[0]@));
                    assert(!fp_group_ok(hashes@[m as int]@));
                }
                return Err(String::from_str("Invalid hash, expected 32 hex digits"));
            },
        };
        let d1 = match hex_to_digest(&b1) {
            Some(d) => d,
            None => {
                proof {
                    assert(!is_hex32_str(hashes@[m as int]@[1]@));
                    assert(!fp_group_ok(hashes@[m as int]@));
                }
                return Err(String::from_str("Invalid hash, expected 32 hex digits"));
            },
        };
        v.push((d0, d1));
        m = m + 1;
    }
    Ok(v)
}

/// Serializing pairs and parsing the result succeeds and returns each
/// pair with its smaller digest first.
pub proof fn lemma_fp_round_trip(
    pairs: Seq<(u128, u128)>,
    strs: Seq<Vec<String>>,
    parsed: Result<Vec<(u128, u128)>, String>,
)
    requires
        strs.len() == pairs.len(),
        forall|m: int| 0 <= m < strs.len() ==> fp_group_ok(#[trigger] strs[m]@),
        forall|m: int|
            #![trigger strs[m]]
            0 <= m < strs.len() ==> {
                let lo = if pairs[m].0 <= pairs[m].1 {
                    pairs[m].0
                } else {
                    pairs[m].1
                };
                let hi = if pairs[m].0 <= pairs[m].1 {
                    pairs[m].1
                } else {
                    pairs[m].0
                };
                digest_val(str_bytes(strs[m]@[0]@)) == lo && digest_val(str_bytes(strs[m]@[1]@))
                    == hi
            },
        parsed is Ok <==> (forall|m: int| 0 <= m < strs.len() ==> fp_group_ok(
            #[trigger] strs[m]@,
        )),
        parsed matches Ok(v) ==> v@.len() == strs.len() && (forall|m: int|
            #![trigger v@[m]]
            0 <= m < v@.len() ==> v@[m].0 == digest_val(str_bytes(strs[m]@[0]@)) && v@[m].1
                == digest_val(str_bytes(strs[m]@[1]@))),
    ensures
        parsed is Ok,
        forall|m: int|
            #![trigger parsed->Ok_0@[m]]
            0 <= m < pairs.len() ==> parsed->Ok_0@[m].0 == (
                if pairs[m].0 <= pairs[m].1 {
                    pairs[m].0
                } else {
                    pairs[m].1
                }) && parsed->Ok_0@[m].1 == (
                if pairs[m].0 <= pairs[m].1 {
                    pairs[m].1
                } else {
                    pairs[m].0
                }),
{
    let v = parsed->Ok_0;
    assert forall|m: int| 0 <= m < pairs.len() implies #[trigger] v@[m].0 == (
        if pairs[m].0 <= pairs[m].1 {
            pairs[m].0
        } else {
            pairs[m].1
        }) && v@[m].1 == (
        if pairs[m].0 <= pairs[m].1 {
            pairs[m].1
        } else {
            pairs[m].0
        }) by {
        assert(strs[m]@.len() == 2);
    }
}

} // verus!
