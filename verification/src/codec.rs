//! The report's persistence format.
//!
//! A report is stored as a JSON object with two fields, `identicals` and
//! `similars`, each an array of arrays of path strings. This module
//! defines the exact byte format, the encoder, the parser, and proves
//! that parsing an encoded report gives the groups back.

use vstd::prelude::*;

verus! {

use crate::digest::{hex_digit, hex_val, is_hex_digit};
use crate::paths::{str_bytes, string_from_bytes};
use crate::report::Report;
use vstd::string::StringSliceAdditionalSpecFns;

/// How one byte of string content is written: most bytes stand for
/// themselves; quotes, backslashes and control bytes are written as a
/// `\u00` escape.
pub open spec fn esc_char(b: u8) -> Seq<u8> {
    if b == 34 || b == 92 || b < 32 {
        seq![92u8, 117u8, 48u8, 48u8, hex_digit(b / 16), hex_digit((b % 16) as u8)]
    } else {
        seq![b]
    }
}

/// How string content is written: each byte escaped in turn.
pub open spec fn esc_str(s: Seq<u8>) -> Seq<u8>
    decreases s.len(),
{
    if s.len() == 0 {
        Seq::empty()
    } else {
        esc_str(s.drop_last()) + esc_char(s.last())
    }
}

/// A quoted string.
pub open spec fn enc_str(s: Seq<u8>) -> Seq<u8> {
    seq![34u8] + esc_str(s) + seq![34u8]
}

/// Strings joined by commas.
pub open spec fn enc_strs(g: Seq<Seq<u8>>) -> Seq<u8>
    decreases g.len(),
{
    if g.len() == 0 {
        Seq::empty()
    } else if g.len() == 1 {
        enc_str(g.first())
    } else {
        enc_str(g.first()) + seq![44u8] + enc_strs(g.drop_first())
    }
}

/// A bracketed array of strings.
pub open spec fn enc_group(g: Seq<Seq<u8>>) -> Seq<u8> {
    seq![91u8] + enc_strs(g) + seq![93u8]
}

/// Arrays of strings joined by commas.
pub open spec fn enc_groups_items(gs: Seq<Seq<Seq<u8>>>) -> Seq<u8>
    decreases gs.len(),
{
    if gs.len() == 0 {
        Seq::empty()
    } else if gs.len() == 1 {
        enc_group(gs.first())
    } else {
        enc_group(gs.first()) + seq![44u8] + enc_groups_items(gs.drop_first())
    }
}

/// A bracketed array of arrays of strings.
pub open spec fn enc_groups(gs: Seq<Seq<Seq<u8>>>) -> Seq<u8> {
    seq![91u8] + enc_groups_items(gs) + seq![93u8]
}

/// The bytes of `{"identicals":`.
pub open spec fn report_head() -> Seq<u8> {
    seq![
        123u8,
        34u8,
        105u8,
        100u8,
        101u8,
        110u8,
        116u8,
        105u8,
        99u8,
        97u8,
        108u8,
        115u8,
        34u8,
        58u8,
    ]
}

/// The bytes of `,"similars":`.
pub open spec fn report_mid() -> Seq<u8> {
    seq![44u8, 34u8, 115u8, 105u8, 109u8, 105u8, 108u8, 97u8, 114u8, 115u8, 34u8, 58u8]
}

/// The full report document.
pub open spec fn enc_report_bytes(i: Seq<Seq<Seq<u8>>>, s: Seq<Seq<Seq<u8>>>) -> Seq<u8> {
    report_head() + enc_groups(i) + report_mid() + enc_groups(s) + seq![125u8]
}

/// The UTF-8 bytes of each string of a group.
pub open spec fn group_bytes(g: Seq<String>) -> Seq<Seq<u8>> {
    Seq::new(g.len(), |i: int| str_bytes(g[i]@))
}

/// The UTF-8 bytes of each group of a collection.
pub open spec fn groups_bytes(gs: Seq<Vec<String>>) -> Seq<Seq<Seq<u8>>> {
    Seq::new(gs.len(), |i: int| group_bytes(gs[i]@))
}

/// Escaping one more byte appends its escape.
proof fn lemma_esc_str_push(s: Seq<u8>, x: u8)
    ensures
        esc_str(s.push(x)) == esc_str(s) + esc_char(x),
{
    assert(s.push(x).drop_last() =~= s);
    assert(s.push(x).last() == x);
}

/// Escaped content decomposes at the front as well.
proof fn lemma_esc_str_front(s: Seq<u8>)
    requires
        s.len() >= 1,
    ensures
        esc_str(s) == esc_char(s.first()) + esc_str(s.drop_first()),
    decreases s.len(),
{
    if s.len() == 1 {
        assert(s.drop_last() =~= Seq::<u8>::empty());
        assert(s.drop_first() =~= Seq::<u8>::empty());
        assert(esc_str(s.drop_last()) =~= Seq::<u8>::empty());
        assert(esc_str(s.drop_first()) =~= Seq::<u8>::empty());
        assert(s.first() == s.last());
        assert(esc_str(s) == esc_str(s.drop_last()) + esc_char(s.last()));
        assert(esc_str(s) =~= esc_char(s.first()) + esc_str(s.drop_first()));
    } else {
        let p = s.drop_last();
        lemma_esc_str_front(p);
        assert(p.first() == s.first());
        assert(p.drop_first() =~= s.drop_first().drop_last());
        assert(s.drop_first().last() == s.last());
        assert(esc_str(s) == (esc_char(s.first()) + esc_str(s.drop_first().drop_last()))
            + esc_char(s.last()));
        assert(esc_str(s.drop_first()) == esc_str(s.drop_first().drop_last()) + esc_char(
            s.last(),
        ));
        assert((esc_char(s.first()) + esc_str(s.drop_first().drop_last())) + esc_char(s.last())
            =~= esc_char(s.first()) + (esc_str(s.drop_first().drop_last()) + esc_char(
            s.last(),
        )));
    }
}

/// Joining one more string appends a comma and the string, after the
/// first.
proof fn lemma_enc_strs_push(g: Seq<Seq<u8>>, x: Seq<u8>)
    ensures
        g.len() == 0 ==> enc_strs(g.push(x)) == enc_str(x),
        g.len() >= 1 ==> enc_strs(g.push(x)) == enc_strs(g) + seq![44u8] + enc_str(x),
    decreases g.len(),
{
    let t = g.push(x);
    if g.len() == 0 {
        assert(t.len() == 1);
        assert(t.first() == x);
    } else {
        assert(t.first() == g.first());
        assert(t.drop_first() =~= g.drop_first().push(x));
        lemma_enc_strs_push(g.drop_first(), x);
        if g.len() == 1 {
            assert(enc_strs(t) == enc_str(g.first()) + seq![44u8] + enc_str(x));
            assert(enc_strs(g) == enc_str(g.first()));
        } else {
            assert(enc_strs(t) == enc_str(g.first()) + seq![44u8] + (enc_strs(g.drop_first())
                + seq![44u8] + enc_str(x)));
            assert(enc_str(g.first()) + seq![44u8] + (enc_strs(g.drop_first()) + seq![44u8]
                + enc_str(x)) =~= (enc_str(g.first()) + seq![44u8] + enc_strs(g.drop_first()))
                + seq![44u8] + enc_str(x));
        }
    }
}

/// Joining one more group appends a comma and the group, after the
/// first.
proof fn lemma_enc_groups_items_push(gs: Seq<Seq<Seq<u8>>>, x: Seq<Seq<u8>>)
    ensures
        gs.len() == 0 ==> enc_groups_items(gs.push(x)) == enc_group(x),
        gs.len() >= 1 ==> enc_groups_items(gs.push(x)) == enc_groups_items(gs) + seq![44u8]
            + enc_group(x),
    decreases gs.len(),
{
    let t = gs.push(x);
    if gs.len() == 0 {
        assert(t.len() == 1);
        assert(t.first() == x);
    } else {
        assert(t.first() == gs.first());
        assert(t.drop_first() =~= gs.drop_first().push(x));
        lemma_enc_groups_items_push(gs.drop_first(), x);
        if gs.len() == 1 {
            assert(enc_groups_items(t) == enc_group(gs.first()) + seq![44u8] + enc_group(x));
            assert(enc_groups_items(gs) == enc_group(gs.first()));
        } else {
            assert(enc_groups_items(t) == enc_group(gs.first()) + seq![44u8] + (
            enc_groups_items(gs.drop_first()) + seq![44u8] + enc_group(x)));
            assert(enc_group(gs.first()) + seq![44u8] + (enc_groups_items(gs.drop_first())
                + seq![44u8] + enc_group(x)) =~= (enc_group(gs.first()) + seq![44u8]
                + enc_groups_items(gs.drop_first())) + seq![44u8] + enc_group(x));
        }
    }
}

/// Append the escaped content of one string.
fn push_escaped(out: &mut Vec<u8>, s: &str)
    ensures
        final(out)@ == old(out)@ + esc_str(str_bytes(s@)),
{
    let b = s.as_bytes();
    let n = b.len();
    let mut i: usize = 0;
    proof {
        assert(out@ + esc_str(b@.take(0)) =~= out@);
    }
    while i < n
        invariant
            i <= n,
            n == b@.len(),
            b@ == str_bytes(s@),
            out@ == old(out)@ + esc_str(b@.take(i as int)),
        decreases n - i,
    {
        let c = b[i];
        proof {
            assert(b@.take(i + 1) =~= b@.take(i as int).push(b@[i as int]));
            lemma_esc_str_push(b@.take(i as int), b@[i as int]);
        }
        if c == 34 || c == 92 || c < 32 {
            let hi = c / 16;
            let lo = c % 16;
            out.push(92);
            out.push(117);
            out.push(48);
            out.push(48);
            out.push(if hi < 10 {
                48 + hi
            } else {
                87 + hi
            });
            out.push(if lo < 10 {
                48 + lo
            } else {
                87 + lo
            });
            proof {
                assert(out@ =~= old(out)@ + esc_str(b@.take(i + 1)));
            }
        } else {
            out.push(c);
            proof {
                assert(out@ =~= old(out)@ + esc_str(b@.take(i + 1)));
            }
        }
        i = i + 1;
    }
    proof {
        assert(b@.take(n as int) =~= b@);
    }
}

/// Append one quoted string.
fn push_string(out: &mut Vec<u8>, s: &str)
    ensures
        final(out)@ == old(out)@ + enc_str(str_bytes(s@)),
{
    out.push(34);
    push_escaped(out, s);
    out.push(34);
    proof {
        assert(out@ =~= old(out)@ + enc_str(str_bytes(s@)));
    }
}

/// Append one bracketed array of strings.
fn push_group(out: &mut Vec<u8>, g: &Vec<String>)
    ensures
        final(out)@ == old(out)@ + enc_group(group_bytes(g@)),
{
    out.push(91);
    let n = g.len();
    let mut m: usize = 0;
    proof {
        assert(group_bytes(g@).take(0) =~= Seq::<Seq<u8>>::empty());
        assert(out@ =~= old(out)@ + seq![91u8] + enc_strs(group_bytes(g@).take(0)));
    }
    while m < n
        invariant
            m <= n,
            n == g@.len(),
            out@ == old(out)@ + seq![91u8] + enc_strs(group_bytes(g@).take(m as int)),
        decreases n - m,
    {
        if m > 0 {
            out.push(44);
        }
        let ghost before = out@;
        push_string(out, g[m].as_str());
        proof {
            let gb = group_bytes(g@);
            assert(gb.take(m + 1) =~= gb.take(m as int).push(gb[m as int]));
            lemma_enc_strs_push(gb.take(m as int), gb[m as int]);
            assert(gb[m as int] == str_bytes(g@[m as int]@));
            if m == 0 {
                assert(out@ =~= old(out)@ + seq![91u8] + enc_strs(gb.take(m + 1)));
            } else {
                assert(out@ =~= old(out)@ + seq![91u8] + enc_strs(gb.take(m + 1)));
            }
        }
        m = m + 1;
    }
    out.push(93);
    proof {
        assert(group_bytes(g@).take(n as int) =~= group_bytes(g@));
        assert(out@ =~= old(out)@ + enc_group(group_bytes(g@)));
    }
}

/// Append one bracketed array of arrays of strings.
fn push_groups(out: &mut Vec<u8>, gs: &Vec<Vec<String>>)
    ensures
        final(out)@ == old(out)@ + enc_groups(groups_bytes(gs@)),
{
    out.push(91);
    let n = gs.len();
    let mut m: usize = 0;
    proof {
        assert(groups_bytes(gs@).take(0) =~= Seq::<Seq<Seq<u8>>>::empty());
        assert(out@ =~= old(out)@ + seq![91u8] + enc_groups_items(groups_bytes(gs@).take(0)));
    }
    while m < n
        invariant
            m <= n,
            n == gs@.len(),
            out@ == old(out)@ + seq![91u8] + enc_groups_items(groups_bytes(gs@).take(m as int)),
        decreases n - m,
    {
        if m > 0 {
            out.push(44);
        }
        push_group(out, &gs[m]);
        proof {
            let gb = groups_bytes(gs@);
            assert(gb.take(m + 1) =~= gb.take(m as int).push(gb[m as int]));
            lemma_enc_groups_items_push(gb.take(m as int), gb[m as int]);
            assert(gb[m as int] == group_bytes(gs@[m as int]@));
            assert(out@ =~= old(out)@ + seq![91u8] + enc_groups_items(gb.take(m + 1)));
        }
        m = m + 1;
    }
    out.push(93);
    proof {
        assert(groups_bytes(gs@).take(n as int) =~= groups_bytes(gs@));
        assert(out@ =~= old(out)@ + enc_groups(groups_bytes(gs@)));
    }
}

/// Encode a report as its JSON document.
pub fn encode_report(r: &Report) -> (out: Vec<u8>)
    ensures
        out@ == enc_report_bytes(groups_bytes(r.identicals@), groups_bytes(r.similars@)),
{
    let mut out: Vec<u8> = Vec::new();
    out.push(123);
    out.push(34);
    out.push(105);
    out.push(100);
    out.push(101);
    out.push(110);
    out.push(116);
    out.push(105);
    out.push(99);
    out.push(97);
    out.push(108);
    out.push(115);
    out.push(34);
    out.push(58);
    proof {
        assert(out@ =~= report_head());
    }
    push_groups(&mut out, &r.identicals);
    let ghost afteri = out@;
    out.push(44);
    out.push(34);
    out.push(115);
    out.push(105);
    out.push(109);
    out.push(105);
    out.push(108);
    out.push(97);
    out.push(114);
    out.push(115);
    out.push(34);
    out.push(58);
    proof {
        assert(out@ =~= afteri + report_mid());
    }
    push_groups(&mut out, &r.similars);
    out.push(125);
    proof {
        assert(out@ =~= enc_report_bytes(
            groups_bytes(r.identicals@),
            groups_bytes(r.similars@),
        ));
    }
    out
}


/// The byte a simple escape stands for, or `None` when the letter is not
/// an escape.
pub open spec fn simple_escape(e: u8) -> Option<u8> {
    if e == 34 {
        Some(34u8)
    } else if e == 92 {
        Some(92u8)
    } else if e == 47 {
        Some(47u8)
    } else if e == 98 {
        Some(8u8)
    } else if e == 102 {
        Some(12u8)
    } else if e == 110 {
        Some(10u8)
    } else if e == 114 {
        Some(13u8)
    } else if e == 116 {
        Some(9u8)
    } else {
        None
    }
}

/// Parse string content up to and over the closing quote: the unescaped
/// bytes and the position after the quote.
pub open spec fn p_str_body(b: Seq<u8>, pos: int) -> Option<(Seq<u8>, int)>
    decreases b.len() - pos,
{
    if pos < 0 || pos >= b.len() {
        None
    } else if b[pos] == 34 {
        Some((Seq::empty(), pos + 1))
    } else if b[pos] == 92 {
        if pos + 1 < b.len() && b[pos + 1] == 117 {
            if pos + 5 < b.len() && b[pos + 2] == 48 && b[pos + 3] == 48 && is_hex_digit(
                b[pos + 4],
            ) && is_hex_digit(b[pos + 5]) {
                let c = (16 * hex_val(b[pos + 4]) + hex_val(b[pos + 5])) as u8;
                match p_str_body(b, pos + 6) {
                    Some(t) => Some((seq![c] + t.0, t.1)),
                    None => None,
                }
            } else {
                None
            }
        } else if pos + 1 < b.len() && simple_escape(b[pos + 1]) is Some {
            let c = simple_escape(b[pos + 1])->Some_0;
            match p_str_body(b, pos + 2) {
                Some(t) => Some((seq![c] + t.0, t.1)),
                None => None,
            }
        } else {
            None
        }
    } else if b[pos] >= 32 {
        match p_str_body(b, pos + 1) {
            Some(t) => Some((seq![b[pos]] + t.0, t.1)),
            None => None,
        }
    } else {
        None
    }
}

/// A parsed string body ends after its start and within the input.
proof fn lemma_p_str_body_bounds(b: Seq<u8>, pos: int)
    ensures
        p_str_body(b, pos) matches Some(t) ==> pos < t.1 <= b.len(),
    decreases b.len() - pos,
{
    if 0 <= pos < b.len() {
        if b[pos] == 92 {
            if pos + 1 < b.len() && b[pos + 1] == 117 {
                if pos + 5 < b.len() {
                    lemma_p_str_body_bounds(b, pos + 6);
                }
            } else if pos + 1 < b.len() {
                lemma_p_str_body_bounds(b, pos + 2);
            }
        } else if b[pos] != 34 && b[pos] >= 32 {
            lemma_p_str_body_bounds(b, pos + 1);
        }
    }
}

/// Parse a quoted string.
pub open spec fn p_str(b: Seq<u8>, pos: int) -> Option<(Seq<u8>, int)> {
    if 0 <= pos < b.len() && b[pos] == 34 {
        p_str_body(b, pos + 1)
    } else {
        None
    }
}

/// Parse one or more comma-separated strings up to and over the closing
/// bracket.
pub open spec fn p_strs_items(b: Seq<u8>, pos: int) -> Option<(Seq<Seq<u8>>, int)>
    decreases b.len() - pos,
    via p_strs_items_dec
{
    match p_str(b, pos) {
        Some((s, e)) => {
            if 0 <= e < b.len() && b[e] == 44 {
                match p_strs_items(b, e + 1) {
                    Some((t, e2)) => Some((seq![s] + t, e2)),
                    None => None,
                }
            } else if 0 <= e < b.len() && b[e] == 93 {
                Some((seq![s], e + 1))
            } else {
                None
            }
        },
        None => None,
    }
}

#[via_fn]
proof fn p_strs_items_dec(b: Seq<u8>, pos: int) {
    if 0 <= pos < b.len() && b[pos] == 34 {
        lemma_p_str_body_bounds(b, pos + 1);
    }
}

/// A parsed run of strings ends after its start and within the input.
proof fn lemma_p_strs_items_bounds(b: Seq<u8>, pos: int)
    ensures
        p_strs_items(b, pos) matches Some(t) ==> pos < t.1 <= b.len(),
    decreases b.len() - pos,
{
    if 0 <= pos < b.len() && b[pos] == 34 {
        lemma_p_str_body_bounds(b, pos + 1);
        match p_str(b, pos) {
            Some((s, e)) => {
                if 0 <= e < b.len() && b[e] == 44 {
                    lemma_p_strs_items_bounds(b, e + 1);
                }
            },
            None => {},
        }
    }
}

/// Parse a bracketed array of strings.
pub open spec fn p_group(b: Seq<u8>, pos: int) -> Option<(Seq<Seq<u8>>, int)> {
    if 0 <= pos < b.len() && b[pos] == 91 {
        if pos + 1 < b.len() && b[pos + 1] == 93 {
            Some((Seq::empty(), pos + 2))
        } else {
            p_strs_items(b, pos + 1)
        }
    } else {
        None
    }
}

/// A parsed group ends after its start and within the input.
proof fn lemma_p_group_bounds(b: Seq<u8>, pos: int)
    ensures
        p_group(b, pos) matches Some(t) ==> pos < t.1 <= b.len(),
{
    lemma_p_strs_items_bounds(b, pos + 1);
}

/// Parse one or more comma-separated arrays of strings up to and over
/// the closing bracket.
pub open spec fn p_groups_items(b: Seq<u8>, pos: int) -> Option<(Seq<Seq<Seq<u8>>>, int)>
    decreases b.len() - pos,
    via p_groups_items_dec
{
    match p_group(b, pos) {
        Some((g, e)) => {
            if 0 <= e < b.len() && b[e] == 44 {
                match p_groups_items(b, e + 1) {
                    Some((t, e2)) => Some((seq![g] + t, e2)),
                    None => None,
                }
            } else if 0 <= e < b.len() && b[e] == 93 {
                Some((seq![g], e + 1))
            } else {
                None
            }
        },
        None => None,
    }
}

#[via_fn]
proof fn p_groups_items_dec(b: Seq<u8>, pos: int) {
    lemma_p_group_bounds(b, pos);
}

/// A parsed run of groups ends after its start and within the input.
proof fn lemma_p_groups_items_bounds(b: Seq<u8>, pos: int)
    ensures
        p_groups_items(b, pos) matches Some(t) ==> pos < t.1 <= b.len(),
    decreases b.len() - pos,
{
    lemma_p_group_bounds(b, pos);
    match p_group(b, pos) {
        Some((g, e)) => {
            if 0 <= e < b.len() && b[e] == 44 {
                lemma_p_groups_items_bounds(b, e + 1);
            }
        },
        None => {},
    }
}

/// Parse a bracketed array of arrays of strings.
pub open spec fn p_groups(b: Seq<u8>, pos: int) -> Option<(Seq<Seq<Seq<u8>>>, int)> {
    if 0 <= pos < b.len() && b[pos] == 91 {
        if pos + 1 < b.len() && b[pos + 1] == 93 {
            Some((Seq::empty(), pos + 2))
        } else {
            p_groups_items(b, pos + 1)
        }
    } else {
        None
    }
}

/// A parsed collection ends after its start and within the input.
proof fn lemma_p_groups_bounds(b: Seq<u8>, pos: int)
    ensures
        p_groups(b, pos) matches Some(t) ==> pos < t.1 <= b.len(),
{
    lemma_p_groups_items_bounds(b, pos + 1);
}

/// Parse a whole report document: both collections, or nothing when the
/// document is not of the report's shape.
pub open spec fn p_report(b: Seq<u8>) -> Option<(Seq<Seq<Seq<u8>>>, Seq<Seq<Seq<u8>>>)> {
    if b.len() >= 14 && b.subrange(0, 14) == report_head() {
        match p_groups(b, 14) {
            Some((i, e)) => {
                if e + 12 <= b.len() && b.subrange(e, e + 12) == report_mid() {
                    match p_groups(b, e + 12) {
                        Some((sm, e2)) => {
                            if e2 + 1 == b.len() && e2 < b.len() && b[e2] == 125 {
                                Some((i, sm))
                            } else {
                                None
                            }
                        },
                        None => None,
                    }
                } else {
                    None
                }
            },
            None => None,
        }
    } else {
        None
    }
}


/// Parsing an encoded string body (its escaped content and closing
/// quote) gives the content back and stops right after the quote.
proof fn lemma_rt_str_body(s: Seq<u8>, b: Seq<u8>, pos: int)
    requires
        0 <= pos,
        pos + esc_str(s).len() + 1 <= b.len(),
        b.subrange(pos, pos + esc_str(s).len() + 1) == esc_str(s) + seq![34u8],
    ensures
        p_str_body(b, pos) == Some((s, pos + esc_str(s).len() + 1)),
    decreases s.len(),
{
    if s.len() == 0 {
        assert(esc_str(s).len() == 0);
        assert(b[pos] == (esc_str(s) + seq![34u8])[0]);
        assert(b[pos] == 34);
    } else {
        lemma_esc_str_front(s);
        let c = s.first();
        let rest = s.drop_first();
        let ec = esc_char(c);
        assert(esc_str(s) == ec + esc_str(rest));
        assert forall|k: int| 0 <= k < ec.len() implies b[pos + k] == ec[k] by {
            assert(b[pos + k] == b.subrange(pos, pos + esc_str(s).len() + 1)[k]);
            assert((esc_str(s) + seq![34u8])[k] == (ec + esc_str(rest))[k]);
        }
        assert(b.subrange(
            pos + ec.len(),
            pos + ec.len() + esc_str(rest).len() + 1,
        ) =~= esc_str(rest) + seq![34u8]) by {
            assert forall|k: int| 0 <= k < esc_str(rest).len() + 1 implies b.subrange(
                pos + ec.len(),
                pos + ec.len() + esc_str(rest).len() + 1,
            )[k] == (esc_str(rest) + seq![34u8])[k] by {
                assert(b[pos + ec.len() + k] == b.subrange(
                    pos,
                    pos + esc_str(s).len() + 1,
                )[ec.len() + k]);
                assert((esc_str(s) + seq![34u8])[ec.len() + k] == (esc_str(rest) + seq![
                    34u8,
                ])[k]);
            }
        }
        lemma_rt_str_body(rest, b, pos + ec.len());
        if c == 34 || c == 92 || c < 32 {
            assert(ec == seq![
                92u8,
                117u8,
                48u8,
                48u8,
                hex_digit(c / 16),
                hex_digit((c % 16) as u8),
            ]);
            assert(b[pos] == 92 && b[pos + 1] == 117 && b[pos + 2] == 48 && b[pos + 3] == 48);
            assert(b[pos + 4] == hex_digit(c / 16) && b[pos + 5] == hex_digit((c % 16) as u8));
            assert(is_hex_digit(b[pos + 4]) && is_hex_digit(b[pos + 5]));
            assert(hex_val(hex_digit(c / 16)) == c / 16);
            assert(hex_val(hex_digit((c % 16) as u8)) == c % 16);
            assert((16 * hex_val(b[pos + 4]) + hex_val(b[pos + 5])) as u8 == c);
            assert(p_str_body(b, pos + 6) == Some((rest, pos + esc_str(s).len() + 1)));
            assert(seq![c] + rest =~= s);
        } else {
            assert(ec == seq![c]);
            assert(b[pos + 0] == ec[0]);
            assert(ec[0] == c);
            assert(b[pos] == c);
            assert(c != 34 && c != 92 && c >= 32);
            assert(p_str_body(b, pos + 1) == Some((rest, pos + esc_str(s).len() + 1)));
            assert(seq![c] + rest =~= s);
        }
    }
}

/// Parsing an encoded quoted string gives the content back.
proof fn lemma_rt_str(s: Seq<u8>, b: Seq<u8>, pos: int)
    requires
        0 <= pos,
        pos + enc_str(s).len() <= b.len(),
        b.subrange(pos, pos + enc_str(s).len()) == enc_str(s),
    ensures
        p_str(b, pos) == Some((s, pos + enc_str(s).len())),
{
    assert(b[pos] == enc_str(s)[0]);
    assert(enc_str(s)[0] == 34);
    assert(b.subrange(pos + 1, pos + 1 + esc_str(s).len() + 1) =~= esc_str(s) + seq![34u8]) by {
        assert forall|k: int| 0 <= k < esc_str(s).len() + 1 implies b.subrange(
            pos + 1,
            pos + 1 + esc_str(s).len() + 1,
        )[k] == (esc_str(s) + seq![34u8])[k] by {
            assert(b[pos + 1 + k] == b.subrange(pos, pos + enc_str(s).len())[1 + k]);
            assert(enc_str(s)[1 + k] == (esc_str(s) + seq![34u8])[k]);
        }
    }
    lemma_rt_str_body(s, b, pos + 1);
}

/// Parsing encoded comma-joined strings followed by a closing bracket
/// gives the strings back.
proof fn lemma_rt_strs_items(g: Seq<Seq<u8>>, b: Seq<u8>, pos: int)
    requires
        g.len() >= 1,
        0 <= pos,
        pos + enc_strs(g).len() + 1 <= b.len(),
        b.subrange(pos, pos + enc_strs(g).len() + 1) == enc_strs(g) + seq![93u8],
    ensures
        p_strs_items(b, pos) == Some((g, pos + enc_strs(g).len() + 1)),
    decreases g.len(),
{
    let first = g.first();
    if g.len() == 1 {
        assert(enc_strs(g) == enc_str(first));
        assert(b.subrange(pos, pos + enc_str(first).len()) =~= enc_str(first)) by {
            assert forall|k: int| 0 <= k < enc_str(first).len() implies b.subrange(
                pos,
                pos + enc_str(first).len(),
            )[k] == enc_str(first)[k] by {
                assert(b[pos + k] == b.subrange(pos, pos + enc_strs(g).len() + 1)[k]);
                assert((enc_strs(g) + seq![93u8])[k] == enc_str(first)[k]);
            }
        }
        lemma_rt_str(first, b, pos);
        let e = pos + enc_str(first).len();
        assert(b[e] == (enc_strs(g) + seq![93u8])[enc_strs(g).len() as int]);
        assert(b[e] == 93);
        assert(seq![first] =~= g);
    } else {
        let rest = g.drop_first();
        assert(enc_strs(g) == enc_str(first) + seq![44u8] + enc_strs(rest));
        assert(b.subrange(pos, pos + enc_str(first).len()) =~= enc_str(first)) by {
            assert forall|k: int| 0 <= k < enc_str(first).len() implies b.subrange(
                pos,
                pos + enc_str(first).len(),
            )[k] == enc_str(first)[k] by {
                assert(b[pos + k] == b.subrange(pos, pos + enc_strs(g).len() + 1)[k]);
                assert((enc_strs(g) + seq![93u8])[k] == enc_str(first)[k]);
            }
        }
        lemma_rt_str(first, b, pos);
        let e = pos + enc_str(first).len();
        assert(b[e] == (enc_strs(g) + seq![93u8])[enc_str(first).len() as int]);
        assert(b[e] == 44);
        assert(b.subrange(e + 1, e + 1 + enc_strs(rest).len() + 1) =~= enc_strs(rest) + seq![
            93u8,
        ]) by {
            assert forall|k: int| 0 <= k < enc_strs(rest).len() + 1 implies b.subrange(
                e + 1,
                e + 1 + enc_strs(rest).len() + 1,
            )[k] == (enc_strs(rest) + seq![93u8])[k] by {
                assert(b[e + 1 + k] == b.subrange(pos, pos + enc_strs(g).len() + 1)[enc_str(
                    first,
                ).len() + 1 + k]);
                assert((enc_strs(g) + seq![93u8])[enc_str(first).len() + 1 + k] == (enc_strs(
                    rest,
                ) + seq![93u8])[k]);
            }
        }
        lemma_rt_strs_items(rest, b, e + 1);
        assert(seq![first] + rest =~= g);
    }
}

/// Parsing an encoded array of strings gives the strings back.
proof fn lemma_rt_group(g: Seq<Seq<u8>>, b: Seq<u8>, pos: int)
    requires
        0 <= pos,
        pos + enc_group(g).len() <= b.len(),
        b.subrange(pos, pos + enc_group(g).len()) == enc_group(g),
    ensures
        p_group(b, pos) == Some((g, pos + enc_group(g).len())),
{
    assert(b[pos] == enc_group(g)[0]);
    assert(enc_group(g)[0] == 91);
    if g.len() == 0 {
        assert(enc_group(g).len() == 2);
        assert(b[pos + 1] == enc_group(g)[1]);
        assert(enc_strs(g).len() == 0);
        assert(enc_group(g)[1] == 93);
        assert(p_group(b, pos) == Some((Seq::<Seq<u8>>::empty(), pos + 2)));
        assert(Seq::<Seq<u8>>::empty() =~= g);
    } else {
        assert(b[pos + 1] == enc_group(g)[1]);
        assert(enc_group(g)[1] == enc_strs(g)[0]);
        assert(enc_strs(g)[0] == enc_str(g.first())[0]) by {
            if g.len() == 1 {
            } else {
                assert(enc_strs(g) == enc_str(g.first()) + seq![44u8] + enc_strs(
                    g.drop_first(),
                ));
            }
        }
        assert(enc_str(g.first())[0] == 34);
        assert(b[pos + 1] != 93);
        assert(b.subrange(pos + 1, pos + 1 + enc_strs(g).len() + 1) =~= enc_strs(g) + seq![
            93u8,
        ]) by {
            assert forall|k: int| 0 <= k < enc_strs(g).len() + 1 implies b.subrange(
                pos + 1,
                pos + 1 + enc_strs(g).len() + 1,
            )[k] == (enc_strs(g) + seq![93u8])[k] by {
                assert(b[pos + 1 + k] == b.subrange(pos, pos + enc_group(g).len())[1 + k]);
                assert(enc_group(g)[1 + k] == (enc_strs(g) + seq![93u8])[k]);
            }
        }
        lemma_rt_strs_items(g, b, pos + 1);
    }
}

/// Parsing encoded comma-joined groups followed by a closing bracket
/// gives the groups back.
proof fn lemma_rt_groups_items(gs: Seq<Seq<Seq<u8>>>, b: Seq<u8>, pos: int)
    requires
        gs.len() >= 1,
        0 <= pos,
        pos + enc_groups_items(gs).len() + 1 <= b.len(),
        b.subrange(pos, pos + enc_groups_items(gs).len() + 1) == enc_groups_items(gs) + seq![
            93u8,
        ],
    ensures
        p_groups_items(b, pos) == Some((gs, pos + enc_groups_items(gs).len() + 1)),
    decreases gs.len(),
{
    let first = gs.first();
    if gs.len() == 1 {
        assert(enc_groups_items(gs) == enc_group(first));
        assert(b.subrange(pos, pos + enc_group(first).len()) =~= enc_group(first)) by {
            assert forall|k: int| 0 <= k < enc_group(first).len() implies b.subrange(
                pos,
                pos + enc_group(first).len(),
            )[k] == enc_group(first)[k] by {
                assert(b[pos + k] == b.subrange(pos, pos + enc_groups_items(gs).len() + 1)[k]);
                assert((enc_groups_items(gs) + seq![93u8])[k] == enc_group(first)[k]);
            }
        }
        lemma_rt_group(first, b, pos);
        let e = pos + enc_group(first).len();
        assert(b[e] == (enc_groups_items(gs) + seq![93u8])[enc_groups_items(gs).len() as int]);
        assert(b[e] == 93);
        assert(seq![first] =~= gs);
    } else {
        let rest = gs.drop_first();
        assert(enc_groups_items(gs) == enc_group(first) + seq![44u8] + enc_groups_items(rest));
        assert(b.subrange(pos, pos + enc_group(first).len()) =~= enc_group(first)) by {
            assert forall|k: int| 0 <= k < enc_group(first).len() implies b.subrange(
                pos,
                pos + enc_group(first).len(),
            )[k] == enc_group(first)[k] by {
                assert(b[pos + k] == b.subrange(pos, pos + enc_groups_items(gs).len() + 1)[k]);
                assert((enc_groups_items(gs) + seq![93u8])[k] == enc_group(first)[k]);
            }
        }
        lemma_rt_group(first, b, pos);
        let e = pos + enc_group(first).len();
        assert(b[e] == (enc_groups_items(gs) + seq![93u8])[enc_group(first).len() as int]);
        assert(b[e] == 44);
        assert(b.subrange(e + 1, e + 1 + enc_groups_items(rest).len() + 1) =~= enc_groups_items(
            rest,
        ) + seq![93u8]) by {
            assert forall|k: int| 0 <= k < enc_groups_items(rest).len() + 1 implies b.subrange(
                e + 1,
                e + 1 + enc_groups_items(rest).len() + 1,
            )[k] == (enc_groups_items(rest) + seq![93u8])[k] by {
                assert(b[e + 1 + k] == b.subrange(
                    pos,
                    pos + enc_groups_items(gs).len() + 1,
                )[enc_group(first).len() + 1 + k]);
                assert((enc_groups_items(gs) + seq![93u8])[enc_group(first).len() + 1 + k] == (
                enc_groups_items(rest) + seq![93u8])[k]);
            }
        }
        lemma_rt_groups_items(rest, b, e + 1);
        assert(seq![first] + rest =~= gs);
    }
}

/// Parsing an encoded array of arrays of strings gives the groups back.
proof fn lemma_rt_groups(gs: Seq<Seq<Seq<u8>>>, b: Seq<u8>, pos: int)
    requires
        0 <= pos,
        pos + enc_groups(gs).len() <= b.len(),
        b.subrange(pos, pos + enc_groups(gs).len()) == enc_groups(gs),
    ensures
        p_groups(b, pos) == Some((gs, pos + enc_groups(gs).len())),
{
    assert(b[pos] == enc_groups(gs)[0]);
    assert(enc_groups(gs)[0] == 91);
    if gs.len() == 0 {
        assert(enc_groups(gs).len() == 2);
        assert(b[pos + 1] == enc_groups(gs)[1]);
        assert(enc_groups_items(gs).len() == 0);
        assert(enc_groups(gs)[1] == 93);
        assert(p_groups(b, pos) == Some((Seq::<Seq<Seq<u8>>>::empty(), pos + 2)));
        assert(Seq::<Seq<Seq<u8>>>::empty() =~= gs);
    } else {
        assert(b[pos + 1] == enc_groups(gs)[1]);
        assert(enc_groups(gs)[1] == enc_groups_items(gs)[0]);
        assert(enc_groups_items(gs)[0] == enc_group(gs.first())[0]) by {
            if gs.len() == 1 {
            } else {
                assert(enc_groups_items(gs) == enc_group(gs.first()) + seq![44u8]
                    + enc_groups_items(gs.drop_first()));
            }
        }
        assert(enc_group(gs.first())[0] == 91);
        assert(b[pos + 1] != 93);
        assert(b.subrange(pos + 1, pos + 1 + enc_groups_items(gs).len() + 1)
            =~= enc_groups_items(gs) + seq![93u8]) by {
            assert forall|k: int|
                0 <= k < enc_groups_items(gs).len() + 1 implies b.subrange(
                pos + 1,
                pos + 1 + enc_groups_items(gs).len() + 1,
            )[k] == (enc_groups_items(gs) + seq![93u8])[k] by {
                assert(b[pos + 1 + k] == b.subrange(pos, pos + enc_groups(gs).len())[1 + k]);
                assert(enc_groups(gs)[1 + k] == (enc_groups_items(gs) + seq![93u8])[k]);
            }
        }
        lemma_rt_groups_items(gs, b, pos + 1);
    }
}

/// Round trip: parsing an encoded report document reproduces exactly the
/// groups that were encoded.
pub proof fn lemma_report_round_trip(i: Seq<Seq<Seq<u8>>>, s: Seq<Seq<Seq<u8>>>)
    ensures
        p_report(enc_report_bytes(i, s)) == Some((i, s)),
{
    let b = enc_report_bytes(i, s);
    let ei: int = 14 + enc_groups(i).len() as int;
    let es: int = ei + 12 + enc_groups(s).len() as int;
    assert(b.len() == es + 1);
    assert(b.subrange(0, 14) =~= report_head());
    assert(b.subrange(14, ei) =~= enc_groups(i));
    lemma_rt_groups(i, b, 14);
    assert(b.subrange(ei, ei + 12) =~= report_mid());
    assert(b.subrange(ei + 12, es) =~= enc_groups(s));
    lemma_rt_groups(s, b, ei + 12);
    assert(b[es] == 125);
}


/// Whether every string of every parsed group is valid UTF-8.
pub open spec fn all_strs_utf8(gs: Seq<Seq<Seq<u8>>>) -> bool {
    forall|g: int, m: int|
        0 <= g < gs.len() && 0 <= m < gs[g].len() ==> vstd::utf8::valid_utf8(#[trigger] gs[g][m])
}

/// Parse string content up to and over the closing quote.
fn x_str_body(b: &Vec<u8>, pos: usize) -> (r: Option<(Vec<u8>, usize)>)
    ensures
        r is Some <==> p_str_body(b@, pos as int) is Some,
        r matches Some(t) ==> p_str_body(b@, pos as int) == Some((t.0@, t.1 as int)),
    decreases b@.len() - pos,
{
    let n = b.len();
    if pos >= n {
        return None;
    }
    let c = b[pos];
    if c == 34 {
        let v: Vec<u8> = Vec::new();
        proof {
            assert(v@ =~= Seq::<u8>::empty());
        }
        return Some((v, pos + 1));
    }
    if c == 92 {
        if n - pos > 1 && b[pos + 1] == 117 {
            if n - pos > 5 && b[pos + 2] == 48 && b[pos + 3] == 48 {
                let h1 = b[pos + 4];
                let h2 = b[pos + 5];
                let v1: u8 = if 48 <= h1 && h1 <= 57 {
                    h1 - 48
                } else if 97 <= h1 && h1 <= 102 {
                    h1 - 87
                } else if 65 <= h1 && h1 <= 70 {
                    h1 - 55
                } else {
                    return None;
                };
                let v2: u8 = if 48 <= h2 && h2 <= 57 {
                    h2 - 48
                } else if 97 <= h2 && h2 <= 102 {
                    h2 - 87
                } else if 65 <= h2 && h2 <= 70 {
                    h2 - 55
                } else {
                    return None;
                };
                let d: u8 = 16 * v1 + v2;
                match x_str_body(b, pos + 6) {
                    Some((mut v, e)) => {
                        let ghost tail = v@;
                        v.insert(0, d);
                        proof {
                            assert(v@ =~= seq![d] + tail);
                        }
                        Some((v, e))
                    },
                    None => None,
                }
            } else {
                None
            }
        } else if n - pos > 1 {
            let e1 = b[pos + 1];
            let d: u8 = if e1 == 34 {
                34
            } else if e1 == 92 {
                92
            } else if e1 == 47 {
                47
            } else if e1 == 98 {
                8
            } else if e1 == 102 {
                12
            } else if e1 == 110 {
                10
            } else if e1 == 114 {
                13
            } else if e1 == 116 {
                9
            } else {
                return None;
            };
            proof {
                assert(simple_escape(b@[pos + 1]) == Some(d));
            }
            match x_str_body(b, pos + 2) {
                Some((mut v, e)) => {
                    let ghost tail = v@;
                    v.insert(0, d);
                    proof {
                        assert(v@ =~= seq![d] + tail);
                    }
                    Some((v, e))
                },
                None => None,
            }
        } else {
            None
        }
    } else if c >= 32 {
        match x_str_body(b, pos + 1) {
            Some((mut v, e)) => {
                let ghost tail = v@;
                v.insert(0, c);
                proof {
                    assert(v@ =~= seq![c] + tail);
                }
                Some((v, e))
            },
            None => None,
        }
    } else {
        None
    }
}

/// Parse one or more comma-separated strings up to and over the closing
/// bracket.
fn x_strs_items(b: &Vec<u8>, pos: usize) -> (r: Option<(Vec<Vec<u8>>, usize)>)
    ensures
        r is Some <==> p_strs_items(b@, pos as int) is Some,
        r matches Some(t) ==> p_strs_items(b@, pos as int) matches Some(u) && u.0.len()
            == t.0@.len() && (forall|m: int| 0 <= m < u.0.len() ==> u.0[m] == #[trigger] t.0@[
        m]@) && u.1 == t.1 as int,
    decreases b@.len() - pos,
{
    let n = b.len();
    if pos >= n || b[pos] != 34 {
        return None;
    }
    let (v, e) = match x_str_body(b, pos + 1) {
        Some(t) => t,
        None => {
            return None;
        },
    };
    proof {
        lemma_p_str_body_bounds(b@, pos + 1);
    }
    if e < n && b[e] == 44 {
        match x_strs_items(b, e + 1) {
            Some((mut vs, e2)) => {
                let ghost tail = vs@;
                vs.insert(0, v);
                proof {
                    assert(vs@ =~= seq![v] + tail);
                    let u = p_strs_items(b@, pos as int)->Some_0;
                    let ut = p_strs_items(b@, e + 1)->Some_0;
                    assert forall|m: int| 0 <= m < u.0.len() implies u.0[m]
                        == #[trigger] vs@[m]@ by {
                        if m > 0 {
                            assert(u.0[m] == ut.0[m - 1]);
                            assert(vs@[m]@ == tail[m - 1]@);
                        }
                    }
                }
                Some((vs, e2))
            },
            None => None,
        }
    } else if e < n && b[e] == 93 {
        let mut vs: Vec<Vec<u8>> = Vec::new();
        vs.push(v);
        proof {
            let u = p_strs_items(b@, pos as int)->Some_0;
            assert(u.0 =~= seq![v@]);
            assert forall|m: int| 0 <= m < u.0.len() implies u.0[m] == #[trigger] vs@[m]@ by {}
        }
        Some((vs, e + 1))
    } else {
        None
    }
}

/// Parse a bracketed array of strings.
fn x_group(b: &Vec<u8>, pos: usize) -> (r: Option<(Vec<Vec<u8>>, usize)>)
    ensures
        r is Some <==> p_group(b@, pos as int) is Some,
        r matches Some(t) ==> p_group(b@, pos as int) matches Some(u) && u.0.len() == t.0@.len()
            && (forall|m: int| 0 <= m < u.0.len() ==> u.0[m] == #[trigger] t.0@[m]@) && u.1
            == t.1 as int,
{
    let n = b.len();
    if pos >= n || b[pos] != 91 {
        return None;
    }
    if pos + 1 < n && b[pos + 1] == 93 {
        let vs: Vec<Vec<u8>> = Vec::new();
        proof {
            let u = p_group(b@, pos as int)->Some_0;
            assert(u.0 =~= Seq::<Seq<u8>>::empty());
        }
        return Some((vs, pos + 2));
    }
    x_strs_items(b, pos + 1)
}

/// Parse one or more comma-separated arrays of strings up to and over
/// the closing bracket.
fn x_groups_items(b: &Vec<u8>, pos: usize) -> (r: Option<(Vec<Vec<Vec<u8>>>, usize)>)
    ensures
        r is Some <==> p_groups_items(b@, pos as int) is Some,
        r matches Some(t) ==> p_groups_items(b@, pos as int) matches Some(u) && u.0.len()
            == t.0@.len() && (forall|g: int, m: int|
            0 <= g < u.0.len() && 0 <= m < u.0[g].len() ==> u.0[g].len() == t.0@[g]@.len()
                && #[trigger] u.0[g][m] == #[trigger] t.0@[g]@[m]@) && (forall|g: int|
            0 <= g < u.0.len() ==> #[trigger] u.0[g].len() == t.0@[g]@.len()) && u.1
            == t.1 as int,
    decreases b@.len() - pos,
{
    let n = b.len();
    let (v, e) = match x_group(b, pos) {
        Some(t) => t,
        None => {
            return None;
        },
    };
    proof {
        lemma_p_group_bounds(b@, pos as int);
    }
    if e < n && b[e] == 44 {
        match x_groups_items(b, e + 1) {
            Some((mut vs, e2)) => {
                let ghost tail = vs@;
                vs.insert(0, v);
                proof {
                    assert(vs@ =~= seq![v] + tail);
                    let u = p_groups_items(b@, pos as int)->Some_0;
                    let ut = p_groups_items(b@, e + 1)->Some_0;
                    let ug = p_group(b@, pos as int)->Some_0;
                    assert forall|g: int| 0 <= g < u.0.len()
                        implies #[trigger] u.0[g].len() == vs@[g]@.len() by {
                        if g > 0 {
                            assert(u.0[g] == ut.0[g - 1]);
                            assert(vs@[g]@ == tail[g - 1]@);
                        }
                    }
                    assert forall|g: int, m: int|
                        0 <= g < u.0.len() && 0 <= m < u.0[g].len()
                        implies #[trigger] u.0[g][m] == #[trigger] vs@[g]@[m]@ by {
                        if g > 0 {
                            assert(u.0[g] == ut.0[g - 1]);
                            assert(vs@[g]@ == tail[g - 1]@);
                        }
                    }
                }
                Some((vs, e2))
            },
            None => None,
        }
    } else if e < n && b[e] == 93 {
        let mut vs: Vec<Vec<Vec<u8>>> = Vec::new();
        vs.push(v);
        proof {
            let u = p_groups_items(b@, pos as int)->Some_0;
            let ug = p_group(b@, pos as int)->Some_0;
            assert(u.0 =~= seq![ug.0]);
        }
        Some((vs, e + 1))
    } else {
        None
    }
}

/// Parse a bracketed array of arrays of strings.
fn x_groups(b: &Vec<u8>, pos: usize) -> (r: Option<(Vec<Vec<Vec<u8>>>, usize)>)
    ensures
        r is Some <==> p_groups(b@, pos as int) is Some,
        r matches Some(t) ==> p_groups(b@, pos as int) matches Some(u) && u.0.len()
            == t.0@.len() && (forall|g: int, m: int|
            0 <= g < u.0.len() && 0 <= m < u.0[g].len() ==> #[trigger] u.0[g][m]
                == #[trigger] t.0@[g]@[m]@) && (forall|g: int|
            0 <= g < u.0.len() ==> #[trigger] u.0[g].len() == t.0@[g]@.len()) && u.1
            == t.1 as int,
{
    let n = b.len();
    if pos >= n || b[pos] != 91 {
        return None;
    }
    if pos + 1 < n && b[pos + 1] == 93 {
        let vs: Vec<Vec<Vec<u8>>> = Vec::new();
        proof {
            let u = p_groups(b@, pos as int)->Some_0;
            assert(u.0 =~= Seq::<Seq<Seq<u8>>>::empty());
        }
        return Some((vs, pos + 2));
    }
    x_groups_items(b, pos + 1)
}

/// Turn parsed byte groups into string groups; `None` when some string
/// is not valid UTF-8.
fn strings_of_groups(gs: Vec<Vec<Vec<u8>>>) -> (r: Option<Vec<Vec<String>>>)
    ensures
        r is Some <==> (forall|g: int, m: int|
            0 <= g < gs@.len() && 0 <= m < gs@[g]@.len() ==> vstd::utf8::valid_utf8(
                #[trigger] gs@[g]@[m]@,
            )),
        r matches Some(v) ==> groups_bytes(v@) =~~= Seq::new(
            gs@.len(),
            |g: int| Seq::new(gs@[g]@.len(), |m: int| gs@[g]@[m]@),
        ),
{
    let n = gs.len();
    let mut out: Vec<Vec<String>> = Vec::new();
    let mut g: usize = 0;
    while g < n
        invariant
            g <= n,
            n == gs@.len(),
            out@.len() == g,
            forall|g2: int, m: int|
                0 <= g2 < g && 0 <= m < gs@[g2]@.len() ==> vstd::utf8::valid_utf8(
                    #[trigger] gs@[g2]@[m]@,
                ),
            forall|g2: int| 0 <= g2 < g ==> #[trigger] out@[g2]@.len() == gs@[g2]@.len(),
            forall|g2: int, m: int|
                0 <= g2 < g && 0 <= m < out@[g2]@.len() ==> str_bytes(#[trigger] out@[g2]@[m]@)
                    == gs@[g2]@[m]@,
        decreases n - g,
    {
        let grp = &gs[g];
        let gn = grp.len();
        let mut sg: Vec<String> = Vec::new();
        let mut m: usize = 0;
        while m < gn
            invariant
                m <= gn,
                gn == grp@.len(),
                grp@ == gs@[g as int]@,
                g < gs@.len(),
                sg@.len() == m,
                forall|m2: int| 0 <= m2 < m ==> vstd::utf8::valid_utf8(#[trigger] grp@[m2]@),
                forall|m2: int|
                    0 <= m2 < m ==> str_bytes(#[trigger] sg@[m2]@) == grp@[m2]@,
            decreases gn - m,
        {
            let mut bcopy: Vec<u8> = Vec::new();
            let bm = &grp[m];
            let bn = bm.len();
            let mut k: usize = 0;
            while k < bn
                invariant
                    k <= bn,
                    bn == bm@.len(),
                    bm@ == grp@[m as int]@,
                    m < grp@.len(),
                    bcopy@ =~= bm@.take(k as int),
                decreases bn - k,
            {
                let x = bm[k];
                bcopy.push(x);
                k = k + 1;
                proof {
                    assert(bcopy@ =~= bm@.take(k as int));
                }
            }
            proof {
                assert(bcopy@ =~= grp@[m as int]@);
            }
            match string_from_bytes(bcopy) {
                Some(st) => {
                    sg.push(st);
                },
                None => {
                    proof {
                        assert(!vstd::utf8::valid_utf8(gs@[g as int]@[m as int]@));
                    }
                    return None;
                },
            }
            m = m + 1;
        }
        out.push(sg);
        g = g + 1;
    }
    proof {
        assert(groups_bytes(out@) =~~= Seq::new(
            gs@.len(),
            |g: int| Seq::new(gs@[g]@.len(), |m: int| gs@[g]@[m]@),
        ));
    }
    Some(out)
}

/// Parse a report document.
///
/// Succeeds exactly when the document has the report's shape and every
/// string in it is valid UTF-8; the report then holds exactly the parsed
/// groups.
pub fn parse_report(b: &Vec<u8>) -> (r: Result<Report, String>)
    ensures
        r matches Ok(rep) ==> p_report(b@) matches Some(t) && groups_bytes(rep.identicals@)
            =~~= t.0 && groups_bytes(rep.similars@) =~~= t.1,
        r is Ok <==> (p_report(b@) matches Some(t) && all_strs_utf8(t.0) && all_strs_utf8(t.1)),
{
    let n = b.len();
    if n < 14 {
        return Err(String::from_str("not a report document"));
    }
    let head: [u8; 14] = [123, 34, 105, 100, 101, 110, 116, 105, 99, 97, 108, 115, 34, 58];
    let mut k: usize = 0;
    while k < 14
        invariant
            k <= 14,
            n == b@.len(),
            n >= 14,
            head@ =~= report_head(),
            forall|j: int| 0 <= j < k ==> b@[j] == report_head()[j],
        decreases 14 - k,
    {
        if b[k] != head[k] {
            proof {
                assert(b@[k as int] != report_head()[k as int]);
                assert(b@.subrange(0, 14) != report_head());
            }
            return Err(String::from_str("not a report document"));
        }
        k = k + 1;
    }
    proof {
        assert(b@.subrange(0, 14) =~= report_head());
    }
    let (ident_bytes, e) = match x_groups(b, 14) {
        Some(t) => t,
        None => {
            proof {
                assert(p_report(b@) is None);
            }
            return Err(String::from_str("not a report document"));
        },
    };
    proof {
        lemma_p_groups_bounds(b@, 14);
    }
    if n - e < 12 {
        proof {
            assert(p_report(b@) is None);
        }
        return Err(String::from_str("not a report document"));
    }
    let mid: [u8; 12] = [44, 34, 115, 105, 109, 105, 108, 97, 114, 115, 34, 58];
    let mut k2: usize = 0;
    while k2 < 12
        invariant
            k2 <= 12,
            n == b@.len(),
            e + 12 <= n,
            mid@ =~= report_mid(),
            b@.subrange(0, 14) == report_head(),
            p_groups(b@, 14) matches Some(t) && t.1 == e as int,
            forall|j: int| 0 <= j < k2 ==> b@[e + j] == report_mid()[j],
        decreases 12 - k2,
    {
        if b[e + k2] != mid[k2] {
            proof {
                assert(b@[e + k2] != report_mid()[k2 as int]);
                assert(b@.subrange(e as int, e + 12) != report_mid());
                assert(p_report(b@) is None);
            }
            return Err(String::from_str("not a report document"));
        }
        k2 = k2 + 1;
    }
    proof {
        assert(b@.subrange(e as int, e + 12) =~= report_mid());
    }
    let (sim_bytes, e2) = match x_groups(b, e + 12) {
        Some(t) => t,
        None => {
            proof {
                assert(p_report(b@) is None);
            }
            return Err(String::from_str("not a report document"));
        },
    };
    proof {
        lemma_p_groups_bounds(b@, e + 12);
    }
    if !(e2 < n && n - e2 == 1 && b[e2] == 125) {
        proof {
            assert(p_report(b@) is None);
        }
        return Err(String::from_str("not a report document"));
    }
    proof {
        assert(p_report(b@) matches Some(t) && t.0 == p_groups(b@, 14)->Some_0.0 && t.1
            == p_groups(b@, e + 12)->Some_0.0);
    }
    let ghost ti = p_groups(b@, 14)->Some_0.0;
    let ghost ts = p_groups(b@, e + 12)->Some_0.0;
    proof {
        assert forall|g: int, m: int|
            0 <= g < ident_bytes@.len() && 0 <= m < ident_bytes@[g]@.len()
            implies #[trigger] ident_bytes@[g]@[m]@ == ti[g][m] && ti[g].len()
                == ident_bytes@[g]@.len() by {}
        assert forall|g: int, m: int|
            0 <= g < sim_bytes@.len() && 0 <= m < sim_bytes@[g]@.len()
            implies #[trigger] sim_bytes@[g]@[m]@ == ts[g][m] && ts[g].len()
                == sim_bytes@[g]@.len() by {}
    }
    let identicals = match strings_of_groups(ident_bytes) {
        Some(v) => v,
        None => {
            proof {
                let (g, m) = choose|g: int, m: int|
                    0 <= g < ident_bytes@.len() && 0 <= m < ident_bytes@[g]@.len()
                        && !vstd::utf8::valid_utf8(ident_bytes@[g]@[m]@);
                assert(!vstd::utf8::valid_utf8(ti[g][m]));
                assert(!all_strs_utf8(ti));
            }
            return Err(String::from_str("a path is not valid text"));
        },
    };
    let similars = match strings_of_groups(sim_bytes) {
        Some(v) => v,
        None => {
            proof {
                let (g, m) = choose|g: int, m: int|
                    0 <= g < sim_bytes@.len() && 0 <= m < sim_bytes@[g]@.len()
                        && !vstd::utf8::valid_utf8(sim_bytes@[g]@[m]@);
                assert(!vstd::utf8::valid_utf8(ts[g][m]));
                assert(!all_strs_utf8(ts));
            }
            return Err(String::from_str("a path is not valid text"));
        },
    };
    proof {
        assert(groups_bytes(identicals@) =~~= ti);
        assert(groups_bytes(similars@) =~~= ts);
        assert forall|g: int, m: int|
            0 <= g < ti.len() && 0 <= m < ti[g].len()
            implies vstd::utf8::valid_utf8(#[trigger] ti[g][m]) by {
            assert(vstd::utf8::valid_utf8(ident_bytes@[g]@[m]@));
        }
        assert forall|g: int, m: int|
            0 <= g < ts.len() && 0 <= m < ts[g].len()
            implies vstd::utf8::valid_utf8(#[trigger] ts[g][m]) by {
            assert(vstd::utf8::valid_utf8(sim_bytes@[g]@[m]@));
        }
    }
    Ok(Report::from(identicals, similars))
}

} // verus!
