//! The diff pipeline: group fingerprinted files by exact content digest,
//! pick one representative per group, cluster representatives by
//! perceptual-digest distance, and assemble the report.

use vstd::prelude::*;

verus! {

use vstd::assert_multisets_equal;
use vstd::seq_lib::group_to_multiset_ensures;
use crate::files::{File, display_of};
use crate::report::Report;

broadcast use vstd::seq_lib::group_to_multiset_ensures;
use crate::paths::{
    bytes_le, str_bytes, path_le, lemma_bytes_le_total, lemma_bytes_le_transitive,
};

/// The default value for [diff_report]'s `bits` argument.
pub const DEFAULT_BITS: u32 = 0;

/// Whether some group holds position `i`.
pub open spec fn covers(gs: Seq<Vec<usize>>, i: int) -> bool {
    exists|g: int, m: int| 0 <= g < gs.len() && 0 <= m < gs[g]@.len() && gs[g]@[m] == i
}

/// The positions in `keys` holding `k`, in increasing order.
pub open spec fn idxs_with_key(keys: Seq<u128>, k: u128) -> Seq<usize>
    decreases keys.len(),
{
    if keys.len() == 0 {
        Seq::empty()
    } else if keys.last() == k {
        idxs_with_key(keys.drop_last(), k).push((keys.len() - 1) as usize)
    } else {
        idxs_with_key(keys.drop_last(), k)
    }
}

/// The members of `idxs_with_key` are exactly the positions holding the
/// key, listed in strictly increasing order.
proof fn lemma_idxs_members(keys: Seq<u128>, k: u128)
    requires
        keys.len() <= usize::MAX,
    ensures
        forall|m: int|
            0 <= m < idxs_with_key(keys, k).len() ==> #[trigger] idxs_with_key(keys, k)[m]
                < keys.len() && keys[idxs_with_key(keys, k)[m] as int] == k,
        forall|j: int| 0 <= j < keys.len() && keys[j] == k
            ==> exists|m: int|
                0 <= m < idxs_with_key(keys, k).len() && idxs_with_key(keys, k)[m] == j,
        forall|m1: int, m2: int|
            0 <= m1 < m2 < idxs_with_key(keys, k).len() ==> #[trigger] idxs_with_key(keys, k)[m1]
                < #[trigger] idxs_with_key(keys, k)[m2],
    decreases keys.len(),
{
    let f = idxs_with_key(keys, k);
    if keys.len() > 0 {
        let kp = keys.drop_last();
        let fp = idxs_with_key(kp, k);
        lemma_idxs_members(kp, k);
        assert forall|m: int| 0 <= m < f.len() implies #[trigger] f[m] < keys.len()
            && keys[f[m] as int] == k by {
            if m < fp.len() {
                assert(f[m] == fp[m]);
                assert(kp[fp[m] as int] == k);
                assert(keys[fp[m] as int] == kp[fp[m] as int]);
            }
        }
        assert forall|j: int| 0 <= j < keys.len() && keys[j] == k
            implies exists|m: int| 0 <= m < f.len() && f[m] == j by {
            if j < keys.len() - 1 {
                assert(kp[j] == k);
                let m = choose|m: int| 0 <= m < fp.len() && fp[m] == j;
                assert(f[m] == j);
            } else {
                assert(keys.last() == k);
                assert(f[f.len() - 1] == j);
            }
        }
    }
}

/// Partition the positions of `keys` into groups of equal keys.
///
/// Each group is a strictly increasing run of positions that share one
/// key and exhaust it; every position lands in exactly one group, and
/// distinct groups carry distinct keys.
pub fn partition_by_key(keys: &Vec<u128>) -> (gs: Vec<Vec<usize>>)
    ensures
        forall|g: int| 0 <= g < gs@.len() ==> #[trigger] gs@[g]@.len() >= 1,
        forall|g: int, m: int|
            0 <= g < gs@.len() && 0 <= m < gs@[g]@.len() ==> #[trigger] gs@[g]@[m]
                < keys@.len(),
        forall|g: int, m: int|
            0 <= g < gs@.len() && 0 <= m < gs@[g]@.len() ==> keys@[#[trigger] gs@[g]@[m] as int]
                == keys@[gs@[g]@[0] as int],
        forall|g: int, j: int|
            #![trigger keys@[j], gs@[g]@[0]]
            0 <= g < gs@.len() && 0 <= j < keys@.len() && keys@[j] == keys@[gs@[g]@[0] as int]
                ==> exists|m: int| 0 <= m < gs@[g]@.len() && gs@[g]@[m] == j,
        forall|i: int| 0 <= i < keys@.len() ==> #[trigger] covers(gs@, i),
        forall|g: int, m1: int, m2: int|
            0 <= g < gs@.len() && 0 <= m1 < m2 < gs@[g]@.len() ==> #[trigger] gs@[g]@[m1]
                < #[trigger] gs@[g]@[m2],
        forall|g1: int, g2: int|
            0 <= g1 < gs@.len() && 0 <= g2 < gs@.len() && g1 != g2
                ==> keys@[#[trigger] gs@[g1]@[0] as int] != keys@[#[trigger] gs@[g2]@[0] as int],
{
    let n = keys.len();
    let mut gs: Vec<Vec<usize>> = Vec::new();
    let ghost mut gkeys: Seq<u128> = Seq::empty();
    let mut t: usize = 0;
    while t < n
        invariant
            t <= n,
            n == keys@.len(),
            gs@.len() == gkeys.len(),
            forall|g: int| 0 <= g < gkeys.len()
                ==> gs@[g]@ == idxs_with_key(keys@, #[trigger] gkeys[g]),
            forall|g1: int, g2: int| 0 <= g1 < g2 < gkeys.len() ==> gkeys[g1] != gkeys[g2],
            forall|g: int| 0 <= g < gkeys.len()
                ==> exists|j: int| 0 <= j < t && keys@[j] == #[trigger] gkeys[g],
            forall|j: int| 0 <= j < t ==> gkeys.contains(#[trigger] keys@[j]),
        decreases n - t,
    {
        let kt = keys[t];
        let mut seen = false;
        let mut t0: usize = 0;
        while t0 < t
            invariant
                t0 <= t,
                t < n,
                n == keys@.len(),
                kt == keys@[t as int],
                seen <==> exists|j: int| 0 <= j < t0 && keys@[j] == kt,
            decreases t - t0,
        {
            if keys[t0] == kt {
                seen = true;
            }
            t0 = t0 + 1;
        }
        if !seen {
            let mut grp: Vec<usize> = Vec::new();
            let mut j2: usize = 0;
            while j2 < n
                invariant
                    j2 <= n,
                    n == keys@.len(),
                    kt == keys@[t as int],
                    grp@ == idxs_with_key(keys@.take(j2 as int), kt),
                decreases n - j2,
            {
                proof {
                    let ks = keys@.take(j2 + 1);
                    assert(ks.drop_last() =~= keys@.take(j2 as int));
                    assert(ks.last() == keys@[j2 as int]);
                    assert(idxs_with_key(ks, kt) == (if ks.last() == kt {
                        idxs_with_key(keys@.take(j2 as int), kt).push(j2)
                    } else {
                        idxs_with_key(keys@.take(j2 as int), kt)
                    }));
                }
                if keys[j2] == kt {
                    grp.push(j2);
                }
                j2 = j2 + 1;
            }
            proof {
                assert(keys@.take(n as int) =~= keys@);
                lemma_idxs_members(keys@, kt);
                assert(idxs_with_key(keys@, kt).contains(t));
                assert(grp@.len() >= 1);
            }
            gs.push(grp);
            proof {
                let old_gkeys = gkeys;
                gkeys = gkeys.push(kt);
                assert forall|g: int| 0 <= g < old_gkeys.len()
                    implies gkeys[g] == old_gkeys[g] by {}
                assert forall|j: int| 0 <= j < t + 1
                    implies gkeys.contains(#[trigger] keys@[j]) by {
                    if keys@[j] == kt {
                        assert(gkeys[gkeys.len() - 1] == keys@[j]);
                    } else {
                        assert(old_gkeys.contains(keys@[j]));
                        let g = choose|g: int|
                            0 <= g < old_gkeys.len() && old_gkeys[g] == keys@[j];
                        assert(gkeys[g] == keys@[j]);
                    }
                }
            }
        } else {
            proof {
                let j = choose|j: int| 0 <= j < t && keys@[j] == kt;
                assert(gkeys.contains(keys@[j]));
            }
        }
        t = t + 1;
    }
    proof {
        assert forall|g: int, m: int|
            0 <= g < gs@.len() && 0 <= m < gs@[g]@.len()
            implies #[trigger] gs@[g]@[m] < keys@.len() && keys@[gs@[g]@[m] as int] == gkeys[g]
                && keys@[gs@[g]@[m] as int] == keys@[gs@[g]@[0] as int] by {
            lemma_idxs_members(keys@, gkeys[g]);
            assert(gs@[g]@[0] < keys@.len() && keys@[gs@[g]@[0] as int] == gkeys[g]);
        }
        assert forall|g: int| 0 <= g < gs@.len() implies #[trigger] gs@[g]@.len() >= 1 by {
            let j = choose|j: int| 0 <= j < n && keys@[j] == gkeys[g];
            lemma_idxs_members(keys@, gkeys[g]);
            let m = choose|m: int|
                0 <= m < idxs_with_key(keys@, gkeys[g]).len() && idxs_with_key(
                    keys@,
                    gkeys[g],
                )[m] == j;
        }
        assert forall|g: int, j: int|
            #![trigger keys@[j], gs@[g]@[0]]
            0 <= g < gs@.len() && 0 <= j < keys@.len() && keys@[j] == keys@[gs@[g]@[0] as int]
            implies exists|m: int| 0 <= m < gs@[g]@.len() && gs@[g]@[m] == j by {
            lemma_idxs_members(keys@, gkeys[g]);
            assert(keys@[gs@[g]@[0] as int] == gkeys[g]);
        }
        assert forall|i: int| 0 <= i < keys@.len() implies #[trigger] covers(gs@, i) by {
            assert(gkeys.contains(keys@[i]));
            let g = choose|g: int| 0 <= g < gkeys.len() && gkeys[g] == keys@[i];
            lemma_idxs_members(keys@, gkeys[g]);
            let m = choose|m: int|
                0 <= m < idxs_with_key(keys@, gkeys[g]).len() && idxs_with_key(
                    keys@,
                    gkeys[g],
                )[m] == i;
            assert(0 <= g < gs@.len() && 0 <= m < gs@[g]@.len() && gs@[g]@[m] == i);
        }
        assert forall|g: int, m1: int, m2: int|
            0 <= g < gs@.len() && 0 <= m1 < m2 < gs@[g]@.len()
            implies #[trigger] gs@[g]@[m1] < #[trigger] gs@[g]@[m2] by {
            lemma_idxs_members(keys@, gkeys[g]);
        }
        assert forall|g1: int, g2: int|
            0 <= g1 < gs@.len() && 0 <= g2 < gs@.len() && g1 != g2
            implies keys@[#[trigger] gs@[g1]@[0] as int] != keys@[#[trigger] gs@[
        g2]@[0] as int] by {
            lemma_idxs_members(keys@, gkeys[g1]);
            lemma_idxs_members(keys@, gkeys[g2]);
            assert(keys@[gs@[g1]@[0] as int] == gkeys[g1]);
            assert(keys@[gs@[g2]@[0] as int] == gkeys[g2]);
        }
    }
    gs
}

/// The representative of a group of file positions: the member with the
/// byte-lexicographically smallest path, the earliest among ties.
pub open spec fn rep_of(files: Seq<File>, grp: Seq<usize>) -> int
    decreases grp.len(),
{
    if grp.len() == 0 {
        -1
    } else if grp.len() == 1 {
        grp[0] as int
    } else {
        let rest = rep_of(files, grp.drop_first());
        if bytes_le(str_bytes(files[grp[0] as int].path@), str_bytes(files[rest].path@)) {
            grp[0] as int
        } else {
            rest
        }
    }
}

/// The representative is a member of the group, and its path is least.
pub proof fn lemma_rep_of_min(files: Seq<File>, grp: Seq<usize>)
    requires
        grp.len() >= 1,
        forall|m: int| 0 <= m < grp.len() ==> #[trigger] grp[m] < files.len(),
    ensures
        exists|m: int| 0 <= m < grp.len() && grp[m] == rep_of(files, grp),
        0 <= rep_of(files, grp) < files.len(),
        forall|m: int|
            0 <= m < grp.len() ==> bytes_le(
                str_bytes(files[rep_of(files, grp)].path@),
                str_bytes(files[#[trigger] grp[m] as int].path@),
            ),
    decreases grp.len(),
{
    let r = rep_of(files, grp);
    if grp.len() == 1 {
        assert(grp[0] == r);
        lemma_bytes_le_total(str_bytes(files[r].path@), str_bytes(files[r].path@));
    } else {
        let tail = grp.drop_first();
        assert(forall|m: int| 0 <= m < tail.len() ==> #[trigger] tail[m] < files.len());
        lemma_rep_of_min(files, tail);
        let rest = rep_of(files, tail);
        let b0 = str_bytes(files[grp[0] as int].path@);
        let br = str_bytes(files[rest].path@);
        if bytes_le(b0, br) {
            assert(r == grp[0] as int);
            assert forall|m: int| 0 <= m < grp.len() implies bytes_le(
                str_bytes(files[r].path@),
                str_bytes(files[#[trigger] grp[m] as int].path@),
            ) by {
                if m == 0 {
                    lemma_bytes_le_total(b0, b0);
                } else {
                    assert(tail[m - 1] == grp[m]);
                    lemma_bytes_le_transitive(
                        b0,
                        br,
                        str_bytes(files[grp[m] as int].path@),
                    );
                }
            }
        } else {
            assert(r == rest);
            lemma_bytes_le_total(b0, br);
            assert(bytes_le(br, b0));
            assert forall|m: int| 0 <= m < grp.len() implies bytes_le(
                str_bytes(files[r].path@),
                str_bytes(files[#[trigger] grp[m] as int].path@),
            ) by {
                if m == 0 {
                } else {
                    assert(tail[m - 1] == grp[m]);
                }
            }
            let m0 = choose|m: int| 0 <= m < tail.len() && tail[m] == rest;
            assert(grp[m0 + 1] == rest);
        }
    }
}

/// From each exact-duplicate group, select exactly one representative:
/// the member whose path is byte-lexicographically smallest. The choice
/// is a function of the inputs alone, so re-running the pipeline on an
/// unchanged file set picks the same representative per group.
pub fn select_representative(files: &Vec<File>, grp: &Vec<usize>) -> (r: usize)
    requires
        grp@.len() >= 1,
        forall|m: int| 0 <= m < grp@.len() ==> #[trigger] grp@[m] < files@.len(),
    ensures
        r == rep_of(files@, grp@),
        r < files@.len(),
        exists|m: int| 0 <= m < grp@.len() && grp@[m] == r,
        forall|m: int|
            0 <= m < grp@.len() ==> bytes_le(
                str_bytes(files@[r as int].path@),
                str_bytes(files@[#[trigger] grp@[m] as int].path@),
            ),
{
    let n = grp.len();
    let mut m: usize = n - 1;
    let mut best: usize = grp[m];
    proof {
        assert(grp@.skip(m as int) =~= seq![grp@[m as int]]);
        assert(rep_of(files@, grp@.skip(m as int)) == best);
    }
    while m > 0
        invariant
            m < n,
            n == grp@.len(),
            forall|k: int| 0 <= k < grp@.len() ==> #[trigger] grp@[k] < files@.len(),
            best < files@.len(),
            best == rep_of(files@, grp@.skip(m as int)),
        decreases m,
    {
        m = m - 1;
        let cand = grp[m];
        proof {
            assert(grp@.skip(m as int).drop_first() =~= grp@.skip(m + 1));
            assert(grp@.skip(m as int)[0] == grp@[m as int]);
            assert(grp@.skip(m as int).len() >= 2);
        }
        let le = path_le(files[cand].path.as_str(), files[best].path.as_str());
        if le {
            best = cand;
        }
        proof {
            assert(best == rep_of(files@, grp@.skip(m as int)));
        }
    }
    proof {
        assert(grp@.skip(0) =~= grp@);
        lemma_rep_of_min(files@, grp@);
    }
    best
}

/// The display-path bytes of the file at a position.
pub open spec fn disp_bytes(files: Seq<File>, i: int) -> Seq<u8> {
    str_bytes(display_of(files[i].path@))
}

/// A sequence of strings in byte-lexicographic order.
pub open spec fn sorted_strs(s: Seq<String>) -> bool {
    forall|i: int, j: int|
        0 <= i < j < s.len() ==> bytes_le(str_bytes(s[i]@), str_bytes(s[j]@))
}

/// Inserting an element anywhere adds it to the sequence's multiset.
proof fn lemma_seq_insert_multiset(s: Seq<usize>, i: int, x: usize)
    requires
        0 <= i <= s.len(),
    ensures
        s.insert(i, x).to_multiset() == s.to_multiset().insert(x),
{
    broadcast use group_to_multiset_ensures;

    let t = s.insert(i, x);
    assert(t.remove(i) =~= s);
    assert(t[i] == x);
    assert(t.remove(i).to_multiset() =~= t.to_multiset().remove(x));
    assert(t.contains(x));
    assert(t.to_multiset().count(x) > 0);
    assert_multisets_equal!(t.to_multiset(), s.to_multiset().insert(x), y => {
        assert(t.remove(i).to_multiset().count(y) == t.to_multiset().remove(x).count(y));
    });
}

/// Where a new position's display path slots into a display-sorted run.
fn find_insert_pos(files: &Vec<File>, out: &Vec<usize>, d: &String) -> (p: usize)
    requires
        forall|k: int| 0 <= k < out@.len() ==> #[trigger] out@[k] < files@.len(),
        forall|i: int, j: int|
            0 <= i < j < out@.len() ==> bytes_le(
                disp_bytes(files@, out@[i] as int),
                disp_bytes(files@, out@[j] as int),
            ),
    ensures
        p <= out@.len(),
        forall|k: int|
            0 <= k < p ==> bytes_le(disp_bytes(files@, #[trigger] out@[k] as int), str_bytes(d@)),
        forall|k: int|
            p <= k < out@.len() ==> bytes_le(
                str_bytes(d@),
                disp_bytes(files@, #[trigger] out@[k] as int),
            ),
{
    let n = out.len();
    let mut p: usize = 0;
    while p < n
        invariant
            p <= n,
            n == out@.len(),
            forall|k: int| 0 <= k < out@.len() ==> #[trigger] out@[k] < files@.len(),
            forall|i: int, j: int|
                0 <= i < j < out@.len() ==> bytes_le(
                    disp_bytes(files@, out@[i] as int),
                    disp_bytes(files@, out@[j] as int),
                ),
            forall|k: int|
                0 <= k < p ==> bytes_le(
                    disp_bytes(files@, #[trigger] out@[k] as int),
                    str_bytes(d@),
                ),
        decreases n - p,
    {
        let od = files[out[p]].displayname();
        let le = path_le(od.as_str(), d.as_str());
        if !le {
            proof {
                let ob = disp_bytes(files@, out@[p as int] as int);
                assert(od@ == display_of(files@[out@[p as int] as int].path@));
                lemma_bytes_le_total(ob, str_bytes(d@));
                assert(bytes_le(str_bytes(d@), ob));
                assert forall|k: int| p <= k < out@.len() implies bytes_le(
                    str_bytes(d@),
                    disp_bytes(files@, #[trigger] out@[k] as int),
                ) by {
                    if k > p {
                        lemma_bytes_le_transitive(
                            str_bytes(d@),
                            ob,
                            disp_bytes(files@, out@[k] as int),
                        );
                    }
                }
            }
            return p;
        }
        proof {
            assert(od@ == display_of(files@[out@[p as int] as int].path@));
        }
        p = p + 1;
    }
    p
}

/// Sort a group of file positions by display path, keeping exactly its
/// members.
pub fn sort_group_by_display(files: &Vec<File>, grp: &Vec<usize>) -> (r: Vec<usize>)
    requires
        forall|m: int| 0 <= m < grp@.len() ==> #[trigger] grp@[m] < files@.len(),
    ensures
        r@.to_multiset() == grp@.to_multiset(),
        r@.len() == grp@.len(),
        forall|m: int| 0 <= m < r@.len() ==> #[trigger] r@[m] < files@.len(),
        forall|i: int, j: int|
            0 <= i < j < r@.len() ==> bytes_le(
                disp_bytes(files@, r@[i] as int),
                disp_bytes(files@, r@[j] as int),
            ),
{
    broadcast use group_to_multiset_ensures;

    let n = grp.len();
    let mut out: Vec<usize> = Vec::new();
    let mut t: usize = 0;
    proof {
        assert(grp@.take(0) =~= Seq::<usize>::empty());
        assert(out@.to_multiset() =~= grp@.take(0).to_multiset());
    }
    while t < n
        invariant
            t <= n,
            n == grp@.len(),
            forall|m: int| 0 <= m < grp@.len() ==> #[trigger] grp@[m] < files@.len(),
            forall|m: int| 0 <= m < out@.len() ==> #[trigger] out@[m] < files@.len(),
            out@.to_multiset() == grp@.take(t as int).to_multiset(),
            out@.len() == t,
            forall|i: int, j: int|
                0 <= i < j < out@.len() ==> bytes_le(
                    disp_bytes(files@, out@[i] as int),
                    disp_bytes(files@, out@[j] as int),
                ),
        decreases n - t,
    {
        let idx = grp[t];
        let d = files[idx].displayname();
        proof {
            assert(d@ == display_of(files@[idx as int].path@));
        }
        let p = find_insert_pos(files, &out, &d);
        let ghost old_out = out@;
        out.insert(p, idx);
        proof {
            lemma_seq_insert_multiset(old_out, p as int, idx);
            assert(grp@.take(t + 1) =~= grp@.take(t as int).push(grp@[t as int]));
            assert(grp@.take(t as int).push(grp@[t as int]).to_multiset() =~= grp@.take(
                t as int,
            ).to_multiset().insert(grp@[t as int]));
            assert(grp@.take(t + 1).to_multiset() =~= grp@.take(t as int).to_multiset().insert(
                grp@[t as int],
            ));
            let newv = out@;
            assert forall|i: int, j: int| 0 <= i < j < newv.len() implies bytes_le(
                disp_bytes(files@, newv[i] as int),
                disp_bytes(files@, newv[j] as int),
            ) by {
                let db = str_bytes(d@);
                assert(db == disp_bytes(files@, idx as int));
                if i < p && j < p {
                    assert(newv[i] == old_out[i] && newv[j] == old_out[j]);
                } else if i < p && j == p {
                    assert(newv[i] == old_out[i] && newv[j] == idx);
                } else if i < p && j > p {
                    assert(newv[i] == old_out[i] && newv[j] == old_out[j - 1]);
                    if i < j - 1 {
                        assert(bytes_le(
                            disp_bytes(files@, old_out[i] as int),
                            disp_bytes(files@, old_out[j - 1] as int),
                        ));
                    } else {
                        lemma_bytes_le_transitive(
                            disp_bytes(files@, old_out[i] as int),
                            db,
                            disp_bytes(files@, old_out[j - 1] as int),
                        );
                    }
                } else if i == p {
                    assert(newv[i] == idx && newv[j] == old_out[j - 1]);
                } else {
                    assert(newv[i] == old_out[i - 1] && newv[j] == old_out[j - 1]);
                }
            }
        }
        t = t + 1;
    }
    proof {
        assert(grp@.take(n as int) =~= grp@);
    }
    out
}


/// Whether a string group holds the display path of the file at
/// position `i`.
pub open spec fn has_display(files: Seq<File>, entry: Seq<String>, i: int) -> bool {
    exists|m: int| 0 <= m < entry.len() && entry[m]@ == display_of(files[i].path@)
}

/// Whether a string is the display path of some member of a group of
/// file positions.
pub open spec fn from_group(files: Seq<File>, s: Seq<char>, grp: Seq<usize>) -> bool {
    exists|m2: int| 0 <= m2 < grp.len() && s == display_of(files[grp[m2] as int].path@)
}

/// Whether a string group matches some input group of two or more
/// positions.
pub open spec fn entry_from_some_group(
    files: Seq<File>,
    groups: Seq<Vec<usize>>,
    entry: Seq<String>,
) -> bool {
    exists|g: int|
        0 <= g < groups.len() && groups[g]@.len() >= 2 && entry_matches(files, entry, groups[g]@)
}

/// Whether some output entry matches the given group of positions.
pub open spec fn group_expanded(files: Seq<File>, out: Seq<Vec<String>>, grp: Seq<usize>) -> bool {
    exists|e: int| 0 <= e < out.len() && entry_matches(files, out[e]@, grp)
}

/// Whether a group of strings holds exactly the display paths of a group
/// of file positions, counted as sets.
pub open spec fn entry_matches(files: Seq<File>, entry: Seq<String>, grp: Seq<usize>) -> bool {
    &&& entry.len() == grp.len()
    &&& forall|m: int|
        0 <= m < entry.len() ==> from_group(files, #[trigger] entry[m]@, grp)
    &&& forall|m2: int|
        0 <= m2 < grp.len() ==> has_display(files, entry, #[trigger] grp[m2] as int)
}

/// Whether every group lists pairwise distinct positions.
pub open spec fn groups_distinct(groups: Seq<Vec<usize>>) -> bool {
    forall|g: int, m1: int, m2: int|
        0 <= g < groups.len() && 0 <= m1 < m2 < groups[g]@.len() ==> #[trigger] groups[g]@[m1]
            != #[trigger] groups[g]@[m2]
}

/// The positions of the groups of two or more members, in order.
pub open spec fn big_idxs(groups: Seq<Vec<usize>>) -> Seq<int>
    decreases groups.len(),
{
    if groups.len() == 0 {
        Seq::empty()
    } else if groups.last()@.len() >= 2 {
        big_idxs(groups.drop_last()).push(groups.len() - 1)
    } else {
        big_idxs(groups.drop_last())
    }
}

/// `big_idxs` lists, in strictly increasing order, exactly the positions
/// of the groups of two or more members.
pub proof fn lemma_big_idxs(groups: Seq<Vec<usize>>)
    ensures
        forall|e: int|
            0 <= e < big_idxs(groups).len() ==> 0 <= #[trigger] big_idxs(groups)[e]
                < groups.len() && groups[big_idxs(groups)[e]]@.len() >= 2,
        forall|e1: int, e2: int|
            0 <= e1 < e2 < big_idxs(groups).len() ==> #[trigger] big_idxs(groups)[e1]
                < #[trigger] big_idxs(groups)[e2],
        forall|g: int|
            0 <= g < groups.len() && #[trigger] groups[g]@.len() >= 2 ==> big_idxs(
                groups,
            ).contains(g),
    decreases groups.len(),
{
    if groups.len() > 0 {
        let gp = groups.drop_last();
        lemma_big_idxs(gp);
        let f = big_idxs(groups);
        let fp = big_idxs(gp);
        assert forall|e: int| 0 <= e < f.len() implies 0 <= #[trigger] f[e] < groups.len()
            && groups[f[e]]@.len() >= 2 by {
            if e < fp.len() {
                assert(f[e] == fp[e]);
                assert(gp[fp[e]]@ == groups[fp[e]]@);
            } else {
                assert(groups.last()@.len() >= 2);
                assert(f[e] == groups.len() - 1);
            }
        }
        assert forall|g: int| 0 <= g < groups.len() && #[trigger] groups[g]@.len() >= 2
            implies f.contains(g) by {
            if g < groups.len() - 1 {
                assert(gp[g]@.len() >= 2);
                assert(fp.contains(g));
                let e = choose|e: int| 0 <= e < fp.len() && fp[e] == g;
                assert(f[e] == g);
            } else {
                assert(f[f.len() - 1] == g);
            }
        }
        assert forall|e1: int, e2: int| 0 <= e1 < e2 < f.len() implies #[trigger] f[e1]
            < #[trigger] f[e2] by {
            if e2 < fp.len() {
                assert(f[e1] == fp[e1] && f[e2] == fp[e2]);
            } else {
                assert(groups.last()@.len() >= 2);
                assert(f[e2] == groups.len() - 1);
                assert(f[e1] == fp[e1]);
                assert(fp[e1] < gp.len());
            }
        }
    }
}

/// A sequence carrying the same multiset as a duplicate-free one is
/// itself duplicate-free.
proof fn lemma_to_multiset_distinct(a: Seq<usize>, b: Seq<usize>)
    requires
        a.to_multiset() == b.to_multiset(),
        forall|i: int, j: int| 0 <= i < j < a.len() ==> a[i] != a[j],
    ensures
        forall|i: int, j: int| 0 <= i < j < b.len() ==> b[i] != b[j],
{
    broadcast use group_to_multiset_ensures;

    assert forall|i: int, j: int| 0 <= i < j < b.len() implies b[i] != b[j] by {
        if b[i] == b[j] {
            let v = b[i];
            let br = b.remove(i);
            assert(br.to_multiset() =~= b.to_multiset().remove(v));
            assert(br[j - 1] == v);
            assert(br.contains(v));
            assert(br.to_multiset().count(v) > 0);
            assert(b.to_multiset().count(v) >= 2);
            assert(a.to_multiset().count(v) >= 2);
            assert(a.contains(v));
            let i2 = choose|i2: int| 0 <= i2 < a.len() && a[i2] == v;
            let ar = a.remove(i2);
            assert(ar.to_multiset() =~= a.to_multiset().remove(v));
            assert(ar.to_multiset().count(v) > 0);
            assert(ar.contains(v));
            let j2 = choose|j2: int| 0 <= j2 < ar.len() && ar[j2] == v;
            if j2 < i2 {
                assert(a[j2] == v);
            } else {
                assert(a[j2 + 1] == v);
            }
            assert(false);
        }
    }
}

/// Turn each group of at least two file positions into its sorted group
/// of display paths; smaller groups are dropped.
pub fn expand_groups(files: &Vec<File>, groups: &Vec<Vec<usize>>) -> (out: Vec<Vec<String>>)
    requires
        forall|g: int, m: int|
            0 <= g < groups@.len() && 0 <= m < groups@[g]@.len() ==> #[trigger] groups@[g]@[m]
                < files@.len(),
    ensures
        forall|e: int|
            0 <= e < out@.len() ==> sorted_strs(#[trigger] out@[e]@),
        forall|e: int|
            0 <= e < out@.len() ==> entry_from_some_group(files@, groups@, #[trigger] out@[e]@),
        forall|g: int|
            0 <= g < groups@.len() && #[trigger] groups@[g]@.len() >= 2 ==> group_expanded(
                files@,
                out@,
                groups@[g]@,
            ),
        out@.len() == big_idxs(groups@).len(),
        forall|e: int|
            0 <= e < out@.len() ==> entry_matches(
                files@,
                #[trigger] out@[e]@,
                groups@[big_idxs(groups@)[e]]@,
            ),
        forall|e: int, m1: int, m2: int|
            0 <= e < out@.len() && 0 <= m1 < m2 < out@[e]@.len() && distinct_displays(files@)
                && groups_distinct(groups@) ==> #[trigger] out@[e]@[m1]@ != #[trigger] out@[
            e]@[m2]@,
{
    let n = groups.len();
    let mut out: Vec<Vec<String>> = Vec::new();
    let mut g: usize = 0;
    proof {
        assert(groups@.take(0) =~= Seq::<Vec<usize>>::empty());
        assert(big_idxs(groups@.take(0)).len() == 0);
    }
    while g < n
        invariant
            g <= n,
            n == groups@.len(),
            out@.len() == big_idxs(groups@.take(g as int)).len(),
            forall|e: int|
                0 <= e < out@.len() ==> 0 <= #[trigger] big_idxs(groups@.take(g as int))[e] < g
                    && entry_matches(
                    files@,
                    out@[e]@,
                    groups@[big_idxs(groups@.take(g as int))[e]]@,
                ),
            forall|e: int, m1: int, m2: int|
                0 <= e < out@.len() && 0 <= m1 < m2 < out@[e]@.len() && distinct_displays(files@)
                    && groups_distinct(groups@) ==> #[trigger] out@[e]@[m1]@ != #[trigger] out@[
                e]@[m2]@,
            forall|g2: int, m: int|
                0 <= g2 < groups@.len() && 0 <= m < groups@[g2]@.len() ==> #[trigger] groups@[
                g2]@[m] < files@.len(),
            forall|e: int|
                0 <= e < out@.len() ==> sorted_strs(#[trigger] out@[e]@),
            forall|e: int|
                0 <= e < out@.len() ==> entry_from_some_group(
                    files@,
                    groups@,
                    #[trigger] out@[e]@,
                ),
            forall|g2: int|
                0 <= g2 < g && #[trigger] groups@[g2]@.len() >= 2 ==> group_expanded(
                    files@,
                    out@,
                    groups@[g2]@,
                ),
        decreases n - g,
    {
        let grp = &groups[g];
        proof {
            assert(grp@ == groups@[g as int]@);
        }
        if grp.len() >= 2 {
            let sorted = sort_group_by_display(files, grp);
            let mut entry: Vec<String> = Vec::new();
            let mut m: usize = 0;
            while m < sorted.len()
                invariant
                    m <= sorted@.len(),
                    forall|k: int| 0 <= k < sorted@.len() ==> #[trigger] sorted@[k]
                        < files@.len(),
                    entry@.len() == m,
                    forall|k: int|
                        0 <= k < m ==> #[trigger] entry@[k]@ == display_of(
                            files@[sorted@[k] as int].path@,
                        ),
                decreases sorted@.len() - m,
            {
                let d = files[sorted[m]].displayname();
                entry.push(d);
                m = m + 1;
            }
            proof {
                assert(entry@.len() == sorted@.len() && sorted@.len() == grp@.len());
                assert forall|i: int, j: int| 0 <= i < j < entry@.len() implies bytes_le(
                    str_bytes(entry@[i]@),
                    str_bytes(entry@[j]@),
                ) by {
                    assert(bytes_le(
                        disp_bytes(files@, sorted@[i] as int),
                        disp_bytes(files@, sorted@[j] as int),
                    ));
                    assert(entry@[i]@ == display_of(files@[sorted@[i] as int].path@));
                    assert(entry@[j]@ == display_of(files@[sorted@[j] as int].path@));
                }
                assert(sorted_strs(entry@));
                assert forall|m2: int| 0 <= m2 < grp@.len() implies has_display(
                    files@,
                    entry@,
                    #[trigger] grp@[m2] as int,
                ) by {
                    assert(grp@.contains(grp@[m2]));
                    assert(grp@.to_multiset().count(grp@[m2]) > 0);
                    assert(sorted@.to_multiset().count(grp@[m2]) > 0);
                    assert(sorted@.contains(grp@[m2]));
                    let k = choose|k: int| 0 <= k < sorted@.len() && sorted@[k] == grp@[m2];
                    assert(0 <= k < entry@.len() && entry@[k]@ == display_of(
                        files@[grp@[m2] as int].path@,
                    ));
                    assert(has_display(files@, entry@, grp@[m2] as int));
                }
                assert forall|m: int| 0 <= m < entry@.len() implies from_group(
                    files@,
                    #[trigger] entry@[m]@,
                    grp@,
                ) by {
                    assert(sorted@.contains(sorted@[m]));
                    assert(sorted@.to_multiset().count(sorted@[m]) > 0);
                    assert(grp@.to_multiset().count(sorted@[m]) > 0);
                    assert(grp@.contains(sorted@[m]));
                    let m2 = choose|m2: int| 0 <= m2 < grp@.len() && grp@[m2] == sorted@[m];
                    assert(0 <= m2 < grp@.len() && entry@[m]@ == display_of(
                        files@[grp@[m2] as int].path@,
                    ));
                    assert(from_group(files@, entry@[m]@, grp@));
                }
                assert(entry_matches(files@, entry@, grp@));
            }
            let ghost old_out = out@;
            out.push(entry);
            proof {
                if distinct_displays(files@) && groups_distinct(groups@) {
                    assert forall|m1: int, m2: int| 0 <= m1 < m2 < grp@.len() implies grp@[m1]
                        != grp@[m2] by {
                        assert(groups@[g as int]@[m1] != groups@[g as int]@[m2]);
                    }
                    lemma_to_multiset_distinct(grp@, sorted@);
                    assert forall|e: int, m1: int, m2: int|
                        0 <= e < out@.len() && 0 <= m1 < m2 < out@[e]@.len()
                        implies #[trigger] out@[e]@[m1]@ != #[trigger] out@[e]@[m2]@ by {
                        if e < old_out.len() {
                            assert(out@[e]@ == old_out[e]@);
                        } else {
                            assert(out@[e]@ == entry@);
                            assert(sorted@[m1] != sorted@[m2]);
                            assert(entry@[m1]@ == display_of(files@[sorted@[m1] as int].path@));
                            assert(entry@[m2]@ == display_of(files@[sorted@[m2] as int].path@));
                            if sorted@[m1] < sorted@[m2] {
                                assert(display_of(files@[sorted@[m1] as int].path@)
                                    != display_of(files@[sorted@[m2] as int].path@));
                            } else {
                                assert(display_of(files@[sorted@[m2] as int].path@)
                                    != display_of(files@[sorted@[m1] as int].path@));
                            }
                        }
                    }
                }
                assert forall|g2: int|
                    0 <= g2 < g + 1 && #[trigger] groups@[g2]@.len() >= 2
                    implies group_expanded(files@, out@, groups@[g2]@) by {
                    if g2 < g {
                        assert(group_expanded(files@, old_out, groups@[g2]@));
                        let e = choose|e: int|
                            0 <= e < old_out.len() && entry_matches(
                                files@,
                                old_out[e]@,
                                groups@[g2]@,
                            );
                        assert(out@[e]@ == old_out[e]@);
                        assert(0 <= e < out@.len() && entry_matches(
                            files@,
                            out@[e]@,
                            groups@[g2]@,
                        ));
                    } else {
                        let e = out@.len() - 1;
                        assert(out@[e]@ == entry@);
                        assert(0 <= e < out@.len() && entry_matches(
                            files@,
                            out@[e]@,
                            groups@[g2]@,
                        ));
                    }
                }
                assert forall|e: int| 0 <= e < out@.len() implies entry_from_some_group(
                    files@,
                    groups@,
                    #[trigger] out@[e]@,
                ) by {
                    if e < old_out.len() {
                        assert(out@[e]@ == old_out[e]@);
                        assert(entry_from_some_group(files@, groups@, old_out[e]@));
                    } else {
                        assert(out@[e]@ == entry@);
                        assert(0 <= g < groups@.len() && groups@[g as int]@.len() >= 2
                            && entry_matches(files@, out@[e]@, groups@[g as int]@));
                        assert(entry_from_some_group(files@, groups@, out@[e]@));
                    }
                }
            }
        }
        proof {
            let tk = groups@.take(g + 1);
            assert(tk.drop_last() =~= groups@.take(g as int));
            assert(tk.last() == groups@[g as int]);
            lemma_big_idxs(groups@.take(g as int));
            assert(big_idxs(tk) == (if groups@[g as int]@.len() >= 2 {
                big_idxs(groups@.take(g as int)).push(g as int)
            } else {
                big_idxs(groups@.take(g as int))
            }));
            assert forall|e: int| 0 <= e < out@.len() implies 0 <= #[trigger] big_idxs(tk)[e]
                < g + 1 && entry_matches(files@, out@[e]@, groups@[big_idxs(tk)[e]]@) by {
                if e < big_idxs(groups@.take(g as int)).len() {
                    assert(big_idxs(tk)[e] == big_idxs(groups@.take(g as int))[e]);
                } else {
                    assert(big_idxs(tk)[e] == g as int);
                }
            }
        }
        g = g + 1;
    }
    proof {
        assert(groups@.take(n as int) =~= groups@);
    }
    out
}


/// The perceptual digest of the file at a position, zero when absent.
pub open spec fn ihash_val(files: Seq<File>, i: int) -> u64 {
    match files[i].ihash {
        Some(d) => d,
        None => 0,
    }
}

/// Whether a sequence of positions holds `x`.
pub open spec fn in_seq(s: Seq<usize>, x: usize) -> bool {
    exists|m: int| 0 <= m < s.len() && s[m] == x
}

/// Whether some group holds both positions.
pub open spec fn some_group_has_both(gs: Seq<Vec<usize>>, a: usize, b: usize) -> bool {
    exists|s: int| 0 <= s < gs.len() && in_seq(gs[s]@, a) && in_seq(gs[s]@, b)
}

/// Whether some group holds `x`.
pub open spec fn in_some_group(gs: Seq<Vec<usize>>, x: usize) -> bool {
    exists|s: int| 0 <= s < gs.len() && in_seq(gs[s]@, x)
}

/// Whether `y` stands among the first `upto` entries of `preps` with a
/// perceptual digest in the cluster `scc`.
pub open spec fn from_scc_prefix(
    files: Seq<File>,
    preps: Seq<usize>,
    scc: Seq<u64>,
    upto: int,
    y: usize,
) -> bool {
    exists|x: int|
        0 <= x < upto && y == preps[x] && scc_has(scc, ihash_val(files, preps[x] as int))
}

/// Whether a cluster (a group of digest values) holds `d`.
pub open spec fn scc_has(scc: Seq<u64>, d: u64) -> bool {
    exists|q: int| 0 <= q < scc.len() && scc[q] == d
}

/// Whether `d` is the perceptual digest of one of the given positions.
pub open spec fn digest_among(files: Seq<File>, preps: Seq<usize>, d: u64) -> bool {
    exists|k: int| 0 <= k < preps.len() && ihash_val(files, preps[k] as int) == d
}

/// A chain of perceptual digests, each carried by one of the given
/// positions, with every adjacent pair within `bits` of one another.
pub open spec fn chain_ok(files: Seq<File>, preps: Seq<usize>, bits: u32, c: Seq<u64>) -> bool {
    &&& c.len() >= 1
    &&& forall|i: int| 0 <= i < c.len() ==> digest_among(files, preps, #[trigger] c[i])
    &&& forall|i: int|
        0 <= i < c.len() - 1 ==> crate::digest::hamming_of(#[trigger] c[i], c[i + 1]) <= bits
}

/// Whether two digests are joined by a chain of close links among the
/// digests of the given positions.
pub open spec fn chained(files: Seq<File>, preps: Seq<usize>, bits: u32, a: u64, b: u64) -> bool {
    exists|c: Seq<u64>| chain_ok(files, preps, bits, c) && c.first() == a && c.last() == b
}

/// A digest carried by some position is chained to itself.
pub proof fn lemma_chained_refl(files: Seq<File>, preps: Seq<usize>, bits: u32, a: u64)
    requires
        digest_among(files, preps, a),
    ensures
        chained(files, preps, bits, a, a),
{
    let c = seq![a];
    assert(c[0] == a);
    assert(chain_ok(files, preps, bits, c) && c.first() == a && c.last() == a);
}

/// One close link between two carried digests is a chain.
pub proof fn lemma_chained_link(files: Seq<File>, preps: Seq<usize>, bits: u32, a: u64, b: u64)
    requires
        digest_among(files, preps, a),
        digest_among(files, preps, b),
        crate::digest::hamming_of(a, b) <= bits,
    ensures
        chained(files, preps, bits, a, b),
{
    let c = seq![a, b];
    assert(c[0] == a && c[1] == b);
    assert(chain_ok(files, preps, bits, c) && c.first() == a && c.last() == b);
}

/// Chains run both ways.
pub proof fn lemma_chained_sym(files: Seq<File>, preps: Seq<usize>, bits: u32, a: u64, b: u64)
    requires
        chained(files, preps, bits, a, b),
    ensures
        chained(files, preps, bits, b, a),
{
    let c = choose|c: Seq<u64>|
        chain_ok(files, preps, bits, c) && c.first() == a && c.last() == b;
    let r = c.reverse();
    assert forall|i: int| 0 <= i < r.len() implies digest_among(files, preps, #[trigger] r[i]) by {
        assert(r[i] == c[c.len() - 1 - i]);
    }
    assert forall|i: int| 0 <= i < r.len() - 1 implies crate::digest::hamming_of(
        #[trigger] r[i],
        r[i + 1],
    ) <= bits by {
        let j = c.len() - 2 - i;
        assert(r[i] == c[j + 1] && r[i + 1] == c[j]);
        crate::digest::lemma_hamming_symmetric(c[j], c[j + 1]);
    }
    assert(r.first() == b && r.last() == a);
    assert(chain_ok(files, preps, bits, r));
}

/// Chains compose.
#[verifier::rlimit(60)]
pub proof fn lemma_chained_trans(
    files: Seq<File>,
    preps: Seq<usize>,
    bits: u32,
    a: u64,
    b: u64,
    d: u64,
)
    requires
        chained(files, preps, bits, a, b),
        chained(files, preps, bits, b, d),
    ensures
        chained(files, preps, bits, a, d),
{
    let c1 = choose|c: Seq<u64>|
        chain_ok(files, preps, bits, c) && c.first() == a && c.last() == b;
    let c2 = choose|c: Seq<u64>|
        chain_ok(files, preps, bits, c) && c.first() == b && c.last() == d;
    let w = c1 + c2.drop_first();
    assert(w.len() == c1.len() + c2.len() - 1);
    assert forall|i: int| 0 <= i < w.len() implies digest_among(files, preps, #[trigger] w[i]) by {
        if i < c1.len() {
            assert(w[i] == c1[i]);
        } else {
            assert(w[i] == c2[i - c1.len() + 1]);
        }
    }
    assert forall|i: int| 0 <= i < w.len() - 1 implies crate::digest::hamming_of(
        #[trigger] w[i],
        w[i + 1],
    ) <= bits by {
        if i + 1 < c1.len() {
            assert(w[i] == c1[i] && w[i + 1] == c1[i + 1]);
        } else if i == c1.len() - 1 {
            assert(w[i] == c1[i] && c1[i] == c1.last());
            assert(w[i + 1] == c2[1]);
            assert(crate::digest::hamming_of(c2[0], c2[1]) <= bits);
            assert(c2[0] == c2.first());
        } else {
            let j = i - c1.len() + 1;
            assert(w[i] == c2[j] && w[i + 1] == c2[j + 1]);
        }
    }
    assert(w.first() == a);
    assert(w.last() == d) by {
        if c2.len() == 1 {
            assert(w =~= c1);
            assert(w.last() == b && c2.first() == c2.last());
        } else {
            assert(w.last() == c2.drop_first().last());
            assert(c2.drop_first().last() == c2.last());
        }
    }
    assert(chain_ok(files, preps, bits, w));
}

/// A key that one of two linked keys' clusters reaches is chained to the
/// first linked key, provided the tracker's clusters are chain-sound.
proof fn lemma_reach_chained(
    files: Seq<File>,
    preps: Seq<usize>,
    bits: u32,
    o: crate::clusterer::Clusterer,
    a: u64,
    b: u64,
    x: u64,
)
    requires
        crate::clusterer::Clusterer::reaches_link(o, a, b, x),
        digest_among(files, preps, a),
        digest_among(files, preps, b),
        crate::digest::hamming_of(a, b) <= bits,
        forall|x2: u64, y2: u64| #[trigger]
            o.same_cluster(x2, y2) ==> chained(files, preps, bits, x2, y2),
    ensures
        chained(files, preps, bits, x, a),
{
    if x == a {
        lemma_chained_refl(files, preps, bits, a);
    } else if x == b {
        lemma_chained_link(files, preps, bits, a, b);
        lemma_chained_sym(files, preps, bits, a, b);
    } else if o.same_cluster(x, a) {
        assert(chained(files, preps, bits, x, a));
    } else {
        assert(o.same_cluster(x, b));
        assert(chained(files, preps, bits, x, b));
        lemma_chained_link(files, preps, bits, a, b);
        lemma_chained_sym(files, preps, bits, a, b);
        lemma_chained_trans(files, preps, bits, x, b, a);
    }
}

/// Every chain runs within one cluster of the tracker, provided every
/// carried digest is registered and every close pair of registered
/// digests shares a cluster.
#[verifier::rlimit(100)]
proof fn lemma_chain_same_cluster(
    cl: crate::clusterer::Clusterer,
    files: Seq<File>,
    preps: Seq<usize>,
    digests: Seq<u64>,
    bits: u32,
    c: Seq<u64>,
)
    requires
        cl.wf(),
        chain_ok(files, preps, bits, c),
        forall|k: int|
            0 <= k < preps.len() ==> scc_has(
                digests,
                ihash_val(files, #[trigger] preps[k] as int),
            ),
        forall|g: int| 0 <= g < digests.len() ==> cl.registered(#[trigger] digests[g]),
        forall|i2: int, j2: int|
            #![trigger digests[i2], digests[j2]]
            0 <= i2 < j2 < digests.len() && crate::digest::hamming_of(digests[i2], digests[j2])
                <= bits ==> cl.same_cluster(digests[i2], digests[j2]),
    ensures
        cl.same_cluster(c.first(), c.last()),
    decreases c.len(),
{
    let k0 = choose|k: int|
        0 <= k < preps.len() && ihash_val(files, preps[k] as int) == c.last();
    assert(scc_has(digests, ihash_val(files, preps[k0] as int)));
    let g0 = choose|g: int|
        0 <= g < digests.len() && digests[g] == ihash_val(files, preps[k0] as int);
    assert(cl.registered(c.last()));
    cl.lemma_key_id(c.last());
    if c.len() == 1 {
        assert(c.first() == c.last());
    } else {
        let cp = c.drop_last();
        assert(chain_ok(files, preps, bits, cp)) by {
            assert forall|i: int| 0 <= i < cp.len() implies digest_among(
                files,
                preps,
                #[trigger] cp[i],
            ) by {
                assert(cp[i] == c[i]);
            }
            assert forall|i: int| 0 <= i < cp.len() - 1 implies crate::digest::hamming_of(
                #[trigger] cp[i],
                cp[i + 1],
            ) <= bits by {
                assert(cp[i] == c[i] && cp[i + 1] == c[i + 1]);
            }
        }
        lemma_chain_same_cluster(cl, files, preps, digests, bits, cp);
        let u = c[c.len() - 2];
        let v = c.last();
        assert(cp.last() == u && cp.first() == c.first());
        assert(crate::digest::hamming_of(u, v) <= bits);
        let ku = choose|k: int| 0 <= k < preps.len() && ihash_val(files, preps[k] as int) == u;
        assert(scc_has(digests, ihash_val(files, preps[ku] as int)));
        let gu = choose|g: int|
            0 <= g < digests.len() && digests[g] == ihash_val(files, preps[ku] as int);
        assert(digests[gu] == u && digests[g0] == v);
        assert(cl.same_cluster(u, v)) by {
            if u == v {
            } else {
                assert(gu != g0);
                if gu < g0 {
                    assert(cl.same_cluster(digests[gu], digests[g0]));
                } else {
                    crate::digest::lemma_hamming_symmetric(u, v);
                    assert(cl.same_cluster(digests[g0], digests[gu]));
                }
            }
        }
    }
}

/// Cluster the files at positions `preps` (the representatives carrying
/// a perceptual digest) by perceptual-digest distance: the groups are
/// the connected components of the close-pair relation. Every position
/// lands in exactly one group; two positions share a group exactly when
/// a chain of links of at most `bits` joins their digests.
#[verifier::rlimit(100)]
pub fn build_similar_groups(files: &Vec<File>, preps: &Vec<usize>, bits: u32) -> (sgroups: Vec<
    Vec<usize>,
>)
    requires
        forall|k: int| 0 <= k < preps@.len() ==> #[trigger] preps@[k] < files@.len(),
        forall|k: int| 0 <= k < preps@.len() ==> files@[#[trigger] preps@[k] as int].ihash
            is Some,
        forall|k1: int, k2: int|
            0 <= k1 < k2 < preps@.len() ==> #[trigger] preps@[k1] != #[trigger] preps@[k2],
    ensures
        forall|s: int, m: int|
            0 <= s < sgroups@.len() && 0 <= m < sgroups@[s]@.len() ==> #[trigger] sgroups@[s]@[m]
                < files@.len(),
        forall|s: int, m: int|
            0 <= s < sgroups@.len() && 0 <= m < sgroups@[s]@.len() ==> in_seq(
                preps@,
                #[trigger] sgroups@[s]@[m],
            ),
        forall|s: int, m1: int, m2: int|
            0 <= s < sgroups@.len() && 0 <= m1 < m2 < sgroups@[s]@.len()
                ==> #[trigger] sgroups@[s]@[m1] != #[trigger] sgroups@[s]@[m2],
        forall|k1: int, k2: int|
            #![trigger preps@[k1], preps@[k2]]
            0 <= k1 < preps@.len() && 0 <= k2 < preps@.len() && k1 != k2
                && crate::digest::hamming_of(
                ihash_val(files@, preps@[k1] as int),
                ihash_val(files@, preps@[k2] as int),
            ) <= bits ==> some_group_has_both(sgroups@, preps@[k1], preps@[k2]),
        forall|s1: int, m1: int, s2: int, m2: int|
            0 <= s1 < sgroups@.len() && 0 <= m1 < sgroups@[s1]@.len() && 0 <= s2 < sgroups@.len()
                && 0 <= m2 < sgroups@[s2]@.len() && s1 != s2 ==> #[trigger] sgroups@[s1]@[m1]
                != #[trigger] sgroups@[s2]@[m2],
        forall|k: int|
            0 <= k < preps@.len() ==> in_some_group(sgroups@, #[trigger] preps@[k]),
        forall|s: int, m1: int, m2: int|
            0 <= s < sgroups@.len() && 0 <= m1 < sgroups@[s]@.len() && 0 <= m2 < sgroups@[
            s]@.len() ==> chained(
                files@,
                preps@,
                bits,
                ihash_val(files@, #[trigger] sgroups@[s]@[m1] as int),
                ihash_val(files@, #[trigger] sgroups@[s]@[m2] as int),
            ),
        forall|s: int, m: int, k: int|
            0 <= s < sgroups@.len() && 0 <= m < sgroups@[s]@.len() && 0 <= k < preps@.len()
                && chained(
                files@,
                preps@,
                bits,
                ihash_val(files@, #[trigger] sgroups@[s]@[m] as int),
                ihash_val(files@, #[trigger] preps@[k] as int),
            ) ==> in_seq(sgroups@[s]@, preps@[k]),
{
    let np = preps.len();
    let mut pkeys: Vec<u128> = Vec::new();
    let mut k: usize = 0;
    while k < np
        invariant
            k <= np,
            np == preps@.len(),
            forall|x: int| 0 <= x < preps@.len() ==> #[trigger] preps@[x] < files@.len(),
            forall|x: int| 0 <= x < preps@.len() ==> files@[#[trigger] preps@[x] as int].ihash
                is Some,
            pkeys@.len() == k,
            forall|x: int|
                0 <= x < k ==> #[trigger] pkeys@[x] == ihash_val(
                    files@,
                    preps@[x] as int,
                ) as u128,
        decreases np - k,
    {
        let idx = preps[k];
        pkeys.push(files[idx].ihash.unwrap() as u128);
        k = k + 1;
    }
    let pgroups = partition_by_key(&pkeys);
    let ng = pgroups.len();
    let mut digests: Vec<u64> = Vec::new();
    let mut g: usize = 0;
    while g < ng
        invariant
            g <= ng,
            np == preps@.len(),
            pkeys@.len() == np,
            ng == pgroups@.len(),
            forall|x: int| 0 <= x < preps@.len() ==> #[trigger] preps@[x] < files@.len(),
            forall|x: int| 0 <= x < preps@.len() ==> files@[#[trigger] preps@[x] as int].ihash
                is Some,
            forall|x: int|
                0 <= x < np ==> #[trigger] pkeys@[x] == ihash_val(
                    files@,
                    preps@[x] as int,
                ) as u128,
            forall|g2: int| 0 <= g2 < pgroups@.len() ==> #[trigger] pgroups@[g2]@.len() >= 1,
            forall|g2: int, m: int|
                0 <= g2 < pgroups@.len() && 0 <= m < pgroups@[g2]@.len()
                    ==> #[trigger] pgroups@[g2]@[m] < np,
            digests@.len() == g,
            forall|g2: int|
                0 <= g2 < g ==> #[trigger] digests@[g2] as u128 == pkeys@[pgroups@[
                g2]@[0] as int],
        decreases ng - g,
    {
        let pg = &pgroups[g];
        let anchor = pg[0];
        let idx = preps[anchor];
        digests.push(files[idx].ihash.unwrap());
        proof {
            assert(pg@ == pgroups@[g as int]@);
            assert(digests@[g as int] as u128 == pkeys@[pgroups@[g as int]@[0] as int]);
        }
        g = g + 1;
    }
    let nd = digests.len();
    proof {
        lemma_digests_cover(files@, preps@, pkeys@, pgroups@, digests@);
    }
    let mut clusterer = crate::clusterer::Clusterer::new();
    let mut d: usize = 0;
    while d < nd
        invariant
            d <= nd,
            nd == digests@.len(),
            clusterer.wf(),
            forall|x: int| 0 <= x < d ==> clusterer.registered(#[trigger] digests@[x]),
            forall|x: u64| #[trigger]
                clusterer.registered(x) ==> exists|g: int| 0 <= g < nd && digests@[g] == x,
            forall|x: u64, y: u64| #[trigger] clusterer.same_cluster(x, y) ==> x == y,
        decreases nd - d,
    {
        let ghost ocl = clusterer;
        clusterer.add_single(&digests[d]);
        proof {
            assert forall|x: u64| #[trigger] clusterer.registered(x) implies exists|g: int|
                0 <= g < nd && digests@[g] == x by {
                if !ocl.registered(x) {
                    assert(digests@[d as int] == x);
                }
            }
            assert forall|x: u64, y: u64| #[trigger] clusterer.same_cluster(x, y)
                implies x == y by {
                crate::clusterer::Clusterer::lemma_add_single_sound(
                    ocl,
                    clusterer,
                    digests@[d as int],
                    x,
                    y,
                );
            }
        }
        d = d + 1;
    }
    proof {
        assert forall|x: u64, y: u64| #[trigger] clusterer.same_cluster(x, y) implies chained(
            files@,
            preps@,
            bits,
            x,
            y,
        ) by {
            let g = choose|g: int| 0 <= g < nd && digests@[g] == x;
            assert(digest_among(files@, preps@, digests@[g]));
            lemma_chained_refl(files@, preps@, bits, x);
        }
    }
    let mut i: usize = 0;
    while i < nd
        invariant
            i <= nd,
            nd == digests@.len(),
            clusterer.wf(),
            forall|x: int| 0 <= x < nd ==> clusterer.registered(#[trigger] digests@[x]),
            forall|g: int| 0 <= g < nd ==> digest_among(files@, preps@, #[trigger] digests@[g]),
            forall|x: u64| #[trigger]
                clusterer.registered(x) ==> exists|g: int| 0 <= g < nd && digests@[g] == x,
            forall|x: u64, y: u64| #[trigger]
                clusterer.same_cluster(x, y) ==> chained(files@, preps@, bits, x, y),
            forall|i2: int, j2: int|
                #![trigger digests@[i2], digests@[j2]]
                0 <= i2 < j2 < nd && i2 < i && crate::digest::hamming_of(
                    digests@[i2],
                    digests@[j2],
                ) <= bits ==> clusterer.same_cluster(digests@[i2], digests@[j2]),
        decreases nd - i,
    {
        let mut j: usize = i + 1;
        while j < nd
            invariant
                i < nd,
                i + 1 <= j <= nd,
                nd == digests@.len(),
                clusterer.wf(),
                forall|x: int| 0 <= x < nd ==> clusterer.registered(#[trigger] digests@[x]),
                forall|g: int| 0 <= g < nd ==> digest_among(
                    files@,
                    preps@,
                    #[trigger] digests@[g],
                ),
                forall|x: u64| #[trigger]
                    clusterer.registered(x) ==> exists|g: int|
                        0 <= g < nd && digests@[g] == x,
                forall|x: u64, y: u64| #[trigger]
                    clusterer.same_cluster(x, y) ==> chained(files@, preps@, bits, x, y),
                forall|i2: int, j2: int|
                    #![trigger digests@[i2], digests@[j2]]
                    0 <= i2 < j2 < nd && (i2 < i || (i2 == i && j2 < j))
                        && crate::digest::hamming_of(digests@[i2], digests@[j2]) <= bits
                        ==> clusterer.same_cluster(digests@[i2], digests@[j2]),
            decreases nd - j,
        {
            let h = crate::digest::hamming(digests[i], digests[j]);
            if h <= bits {
                let ghost ocl = clusterer;
                clusterer.add_link(&digests[i], &digests[j]);
                proof {
                    let di = digests@[i as int];
                    let dj = digests@[j as int];
                    assert(digest_among(files@, preps@, di));
                    assert(digest_among(files@, preps@, dj));
                    assert forall|x: u64| #[trigger] clusterer.registered(x)
                        implies exists|g: int| 0 <= g < nd && digests@[g] == x by {
                        if !ocl.registered(x) {
                            assert(x == di || x == dj);
                        }
                    }
                    assert forall|x: u64, y: u64| #[trigger] clusterer.same_cluster(x, y)
                        implies chained(files@, preps@, bits, x, y) by {
                        crate::clusterer::Clusterer::lemma_add_link_sound(
                            ocl,
                            clusterer,
                            di,
                            dj,
                            x,
                            y,
                        );
                        if !ocl.same_cluster(x, y) {
                            lemma_reach_chained(files@, preps@, bits, ocl, di, dj, x);
                            lemma_reach_chained(files@, preps@, bits, ocl, di, dj, y);
                            lemma_chained_sym(files@, preps@, bits, y, di);
                            lemma_chained_trans(files@, preps@, bits, x, di, y);
                        }
                    }
                }
            }
            j = j + 1;
        }
        i = i + 1;
    }
    let sccs = clusterer.into_sccs();
    let ghost cl = clusterer;
    let ns = sccs.len();
    let mut sgroups: Vec<Vec<usize>> = Vec::new();
    let mut s: usize = 0;
    while s < ns
        invariant
            s <= ns,
            ns == sccs@.len(),
            np == preps@.len(),
            forall|x: int| 0 <= x < preps@.len() ==> #[trigger] preps@[x] < files@.len(),
            forall|x: int| 0 <= x < preps@.len() ==> files@[#[trigger] preps@[x] as int].ihash
                is Some,
            forall|x1: int, x2: int|
                0 <= x1 < x2 < preps@.len() ==> #[trigger] preps@[x1] != #[trigger] preps@[x2],
            sgroups@.len() == s,
            forall|s2: int, m: int|
                0 <= s2 < sgroups@.len() && 0 <= m < sgroups@[s2]@.len() ==> #[trigger] sgroups@[
                s2]@[m] < files@.len(),
            forall|s2: int, m: int|
                0 <= s2 < sgroups@.len() && 0 <= m < sgroups@[s2]@.len() ==> in_seq(
                    preps@,
                    #[trigger] sgroups@[s2]@[m],
                ),
            forall|s2: int, m1: int, m2: int|
                0 <= s2 < sgroups@.len() && 0 <= m1 < m2 < sgroups@[s2]@.len()
                    ==> #[trigger] sgroups@[s2]@[m1] != #[trigger] sgroups@[s2]@[m2],
            forall|s2: int, k2: int|
                #![trigger sgroups@[s2], preps@[k2]]
                0 <= s2 < s && 0 <= k2 < np && scc_has(
                    sccs@[s2]@,
                    ihash_val(files@, preps@[k2] as int),
                ) ==> in_seq(sgroups@[s2]@, preps@[k2]),
            forall|s2: int, m: int|
                0 <= s2 < sgroups@.len() && 0 <= m < sgroups@[s2]@.len() ==> scc_has(
                    sccs@[s2]@,
                    ihash_val(files@, #[trigger] sgroups@[s2]@[m] as int),
                ),
        decreases ns - s,
    {
        let scc = &sccs[s];
        let mut grp: Vec<usize> = Vec::new();
        let mut k2: usize = 0;
        while k2 < np
            invariant
                k2 <= np,
                np == preps@.len(),
                forall|x: int| 0 <= x < preps@.len() ==> #[trigger] preps@[x] < files@.len(),
                forall|x: int| 0 <= x < preps@.len()
                    ==> files@[#[trigger] preps@[x] as int].ihash is Some,
                forall|x1: int, x2: int|
                    0 <= x1 < x2 < preps@.len() ==> #[trigger] preps@[x1] != #[trigger] preps@[
                    x2],
                scc@ == sccs@[s as int]@,
                forall|m: int| 0 <= m < grp@.len() ==> #[trigger] grp@[m] < files@.len(),
                forall|m: int| 0 <= m < grp@.len() ==> from_scc_prefix(
                    files@,
                    preps@,
                    scc@,
                    k2 as int,
                    #[trigger] grp@[m],
                ),
                forall|x: int|
                    #![trigger preps@[x]]
                    0 <= x < k2 && scc_has(scc@, ihash_val(files@, preps@[x] as int)) ==> in_seq(
                        grp@,
                        preps@[x],
                    ),
                forall|m1: int, m2: int|
                    0 <= m1 < m2 < grp@.len() ==> #[trigger] grp@[m1] != #[trigger] grp@[m2],
            decreases np - k2,
        {
            let dv = files[preps[k2]].ihash.unwrap();
            let mut inscc = false;
            let mut q: usize = 0;
            let nq = scc.len();
            while q < nq
                invariant
                    q <= nq,
                    nq == scc@.len(),
                    dv == ihash_val(files@, preps@[k2 as int] as int),
                    inscc <==> exists|q2: int| 0 <= q2 < q && scc@[q2] == dv,
                decreases nq - q,
            {
                if scc[q] == dv {
                    inscc = true;
                }
                q = q + 1;
            }
            let ghost old_grp = grp@;
            if inscc {
                proof {
                    assert(scc_has(scc@, dv));
                    assert forall|m: int| 0 <= m < grp@.len()
                        implies #[trigger] grp@[m] != preps@[k2 as int] by {
                        assert(from_scc_prefix(files@, preps@, scc@, k2 as int, grp@[m]));
                        let x = choose|x: int|
                            0 <= x < k2 && grp@[m] == preps@[x] && scc_has(
                                scc@,
                                ihash_val(files@, preps@[x] as int),
                            );
                        assert(preps@[x] != preps@[k2 as int]);
                    }
                }
                grp.push(preps[k2]);
            } else {
                proof {
                    assert(!scc_has(scc@, dv));
                }
            }
            proof {
                assert forall|x: int|
                    #![trigger preps@[x]]
                    0 <= x < k2 + 1 && scc_has(scc@, ihash_val(files@, preps@[x] as int))
                    implies in_seq(grp@, preps@[x]) by {
                    if x < k2 {
                        assert(in_seq(old_grp, preps@[x]));
                        let m = choose|m: int| 0 <= m < old_grp.len() && old_grp[m] == preps@[x];
                        assert(grp@[m] == preps@[x]);
                    } else {
                        assert(grp@[grp@.len() - 1] == preps@[x]);
                    }
                }
                assert forall|m: int| 0 <= m < grp@.len() implies from_scc_prefix(
                    files@,
                    preps@,
                    scc@,
                    k2 + 1,
                    #[trigger] grp@[m],
                ) by {
                    if m < old_grp.len() {
                        assert(from_scc_prefix(files@, preps@, scc@, k2 as int, old_grp[m]));
                        let x = choose|x: int|
                            0 <= x < k2 && old_grp[m] == preps@[x] && scc_has(
                                scc@,
                                ihash_val(files@, preps@[x] as int),
                            );
                        assert(0 <= x < k2 + 1 && grp@[m] == preps@[x] && scc_has(
                            scc@,
                            ihash_val(files@, preps@[x] as int),
                        ));
                    } else {
                        assert(0 <= k2 < k2 + 1 && grp@[m] == preps@[k2 as int] && scc_has(
                            scc@,
                            ihash_val(files@, preps@[k2 as int] as int),
                        ));
                    }
                }
            }
            k2 = k2 + 1;
        }
        let ghost old_sgroups = sgroups@;
        sgroups.push(grp);
        proof {
            assert forall|s2: int, m: int|
                0 <= s2 < sgroups@.len() && 0 <= m < sgroups@[s2]@.len() implies scc_has(
                sccs@[s2]@,
                ihash_val(files@, #[trigger] sgroups@[s2]@[m] as int),
            ) by {
                if s2 < s {
                    assert(sgroups@[s2]@ == old_sgroups[s2]@);
                } else {
                    assert(sgroups@[s2]@ == grp@);
                    assert(from_scc_prefix(files@, preps@, scc@, np as int, grp@[m]));
                    let x = choose|x: int|
                        0 <= x < np && grp@[m] == preps@[x] && scc_has(
                            scc@,
                            ihash_val(files@, preps@[x] as int),
                        );
                    assert(scc@ == sccs@[s as int]@);
                }
            }
            assert forall|s2: int, x: int|
                #![trigger sgroups@[s2], preps@[x]]
                0 <= s2 < s + 1 && 0 <= x < np && scc_has(
                    sccs@[s2]@,
                    ihash_val(files@, preps@[x] as int),
                ) implies in_seq(sgroups@[s2]@, preps@[x]) by {
                if s2 < s {
                    assert(sgroups@[s2]@ == old_sgroups[s2]@);
                    assert(in_seq(old_sgroups[s2]@, preps@[x]));
                } else {
                    assert(sgroups@[s2]@ == grp@);
                    assert(in_seq(grp@, preps@[x]));
                }
            }
        }
        s = s + 1;
    }
    proof {
        lemma_digests_cover(files@, preps@, pkeys@, pgroups@, digests@);
        lemma_similar_groups_complete(
            files@,
            preps@,
            pkeys@,
            pgroups@,
            digests@,
            bits,
            cl,
            sccs@,
            sgroups@,
        );
        lemma_similar_groups_final(files@, preps@, digests@, bits, cl, sccs@, sgroups@);
    }
    sgroups
}

/// Each anchor digest is a carried digest, and every position's digest
/// stands among the anchors.
#[verifier::rlimit(100)]
proof fn lemma_digests_cover(
    files: Seq<File>,
    preps: Seq<usize>,
    pkeys: Seq<u128>,
    pgroups: Seq<Vec<usize>>,
    digests: Seq<u64>,
)
    requires
        pkeys.len() == preps.len(),
        forall|x: int|
            0 <= x < preps.len() ==> #[trigger] pkeys[x] == ihash_val(
                files,
                preps[x] as int,
            ) as u128,
        forall|i: int| 0 <= i < pkeys.len() ==> #[trigger] covers(pgroups, i),
        forall|g: int, m: int|
            0 <= g < pgroups.len() && 0 <= m < pgroups[g]@.len() ==> #[trigger] pgroups[g]@[m]
                < pkeys.len(),
        forall|g: int| 0 <= g < pgroups.len() ==> #[trigger] pgroups[g]@.len() >= 1,
        forall|g: int, m: int|
            0 <= g < pgroups.len() && 0 <= m < pgroups[g]@.len() ==> pkeys[#[trigger] pgroups[
            g]@[m] as int] == pkeys[pgroups[g]@[0] as int],
        digests.len() == pgroups.len(),
        forall|g: int|
            0 <= g < digests.len() ==> #[trigger] digests[g] as u128 == pkeys[pgroups[
            g]@[0] as int],
    ensures
        forall|k: int|
            0 <= k < preps.len() ==> scc_has(
                digests,
                ihash_val(files, #[trigger] preps[k] as int),
            ),
        forall|g: int| 0 <= g < digests.len() ==> digest_among(files, preps, #[trigger] digests[g]),
{
    assert forall|k: int| 0 <= k < preps.len() implies scc_has(
        digests,
        ihash_val(files, #[trigger] preps[k] as int),
    ) by {
        assert(covers(pgroups, k));
        let (ga, ma) = choose|ga: int, ma: int|
            0 <= ga < pgroups.len() && 0 <= ma < pgroups[ga]@.len() && pgroups[ga]@[ma] == k;
        assert(pkeys[k] == pkeys[pgroups[ga]@[0] as int]);
        assert(digests[ga] as u128 == pkeys[k]);
        assert(digests[ga] == ihash_val(files, preps[k] as int));
        assert(scc_has(digests, ihash_val(files, preps[k] as int)));
    }
    assert forall|g: int| 0 <= g < digests.len() implies digest_among(
        files,
        preps,
        #[trigger] digests[g],
    ) by {
        let anchor = pgroups[g]@[0];
        assert(digests[g] as u128 == pkeys[anchor as int]);
        assert(pkeys[anchor as int] == ihash_val(files, preps[anchor as int] as int) as u128);
        assert(digests[g] == ihash_val(files, preps[anchor as int] as int));
    }
}

/// Every pair of positions whose digests lie within `bits` of one
/// another lands in one common group.
proof fn lemma_similar_groups_complete(
    files: Seq<File>,
    preps: Seq<usize>,
    pkeys: Seq<u128>,
    pgroups: Seq<Vec<usize>>,
    digests: Seq<u64>,
    bits: u32,
    cl: crate::clusterer::Clusterer,
    sccs: Seq<Vec<u64>>,
    sgroups: Seq<Vec<usize>>,
)
    requires
        cl.wf(),
        pkeys.len() == preps.len(),
        forall|x: int|
            0 <= x < preps.len() ==> #[trigger] pkeys[x] == ihash_val(
                files,
                preps[x] as int,
            ) as u128,
        forall|i: int| 0 <= i < pkeys.len() ==> #[trigger] covers(pgroups, i),
        forall|g: int, m: int|
            0 <= g < pgroups.len() && 0 <= m < pgroups[g]@.len() ==> #[trigger] pgroups[g]@[m]
                < pkeys.len(),
        forall|g: int| 0 <= g < pgroups.len() ==> #[trigger] pgroups[g]@.len() >= 1,
        forall|g: int, m: int|
            0 <= g < pgroups.len() && 0 <= m < pgroups[g]@.len() ==> pkeys[#[trigger] pgroups[
            g]@[m] as int] == pkeys[pgroups[g]@[0] as int],
        digests.len() == pgroups.len(),
        forall|g: int|
            0 <= g < digests.len() ==> #[trigger] digests[g] as u128 == pkeys[pgroups[
            g]@[0] as int],
        forall|x: int| 0 <= x < digests.len() ==> cl.registered(#[trigger] digests[x]),
        forall|i2: int, j2: int|
            #![trigger digests[i2], digests[j2]]
            0 <= i2 < j2 < digests.len() && crate::digest::hamming_of(digests[i2], digests[j2])
                <= bits ==> cl.same_cluster(digests[i2], digests[j2]),
        forall|k: u64|
            cl.registered(k) ==> exists|g: int, m: int|
                0 <= g < sccs.len() && 0 <= m < sccs[g]@.len() && sccs[g]@[m] == k,
        forall|g1: int, m1: int, g2: int, m2: int|
            0 <= g1 < sccs.len() && 0 <= m1 < sccs[g1]@.len() && 0 <= g2 < sccs.len() && 0 <= m2
                < sccs[g2]@.len() && g1 != g2 ==> !cl.same_cluster(sccs[g1]@[m1], sccs[g2]@[m2]),
        sgroups.len() == sccs.len(),
        forall|s2: int, k2: int|
            #![trigger sgroups[s2], preps[k2]]
            0 <= s2 < sgroups.len() && 0 <= k2 < preps.len() && scc_has(
                sccs[s2]@,
                ihash_val(files, preps[k2] as int),
            ) ==> in_seq(sgroups[s2]@, preps[k2]),
    ensures
        forall|k1: int, k2: int|
            #![trigger preps[k1], preps[k2]]
            0 <= k1 < preps.len() && 0 <= k2 < preps.len() && k1 != k2
                && crate::digest::hamming_of(
                ihash_val(files, preps[k1] as int),
                ihash_val(files, preps[k2] as int),
            ) <= bits ==> some_group_has_both(sgroups, preps[k1], preps[k2]),
{
    assert forall|k1: int, k2: int|
        #![trigger preps[k1], preps[k2]]
        0 <= k1 < preps.len() && 0 <= k2 < preps.len() && k1 != k2 && crate::digest::hamming_of(
            ihash_val(files, preps[k1] as int),
            ihash_val(files, preps[k2] as int),
        ) <= bits implies some_group_has_both(sgroups, preps[k1], preps[k2]) by {
        let d1 = ihash_val(files, preps[k1] as int);
        let d2 = ihash_val(files, preps[k2] as int);
        assert(covers(pgroups, k1));
        assert(covers(pgroups, k2));
        let (ga, ma) = choose|ga: int, ma: int|
            0 <= ga < pgroups.len() && 0 <= ma < pgroups[ga]@.len() && pgroups[ga]@[ma] == k1;
        let (gb, mb) = choose|gb: int, mb: int|
            0 <= gb < pgroups.len() && 0 <= mb < pgroups[gb]@.len() && pgroups[gb]@[mb] == k2;
        assert(pkeys[k1] == pkeys[pgroups[ga]@[0] as int]);
        assert(pkeys[k2] == pkeys[pgroups[gb]@[0] as int]);
        assert(digests[ga] as u128 == pkeys[k1]);
        assert(digests[gb] as u128 == pkeys[k2]);
        assert(digests[ga] == d1 && digests[gb] == d2);
        assert(cl.registered(d1) && cl.registered(d2));
        if d1 != d2 {
            assert(ga != gb);
            if ga < gb {
                assert(cl.same_cluster(digests[ga], digests[gb]));
            } else {
                crate::digest::lemma_hamming_symmetric(d1, d2);
                assert(cl.same_cluster(digests[gb], digests[ga]));
            }
        }
        assert(cl.same_cluster(d1, d1)) by {
            cl.lemma_key_id(d1);
        }
        assert(cl.same_cluster(d1, d2) || cl.same_cluster(d2, d1) || d1 == d2);
        let (s1, m1) = choose|s1: int, m1: int|
            0 <= s1 < sccs.len() && 0 <= m1 < sccs[s1]@.len() && sccs[s1]@[m1] == d1;
        let (s2x, m2x) = choose|s2x: int, m2x: int|
            0 <= s2x < sccs.len() && 0 <= m2x < sccs[s2x]@.len() && sccs[s2x]@[m2x] == d2;
        assert(s1 == s2x) by {
            if s1 != s2x {
                assert(!cl.same_cluster(sccs[s1]@[m1], sccs[s2x]@[m2x]));
                assert(!cl.same_cluster(sccs[s2x]@[m2x], sccs[s1]@[m1]));
            }
        }
        assert(scc_has(sccs[s1]@, d1));
        assert(scc_has(sccs[s1]@, d2));
        assert(in_seq(sgroups[s1]@, preps[k1]));
        assert(in_seq(sgroups[s1]@, preps[k2]));
        assert(some_group_has_both(sgroups, preps[k1], preps[k2]));
    }
}

/// Two distinct groups drawn from distinct clusters share no position.
#[verifier::rlimit(100)]
proof fn lemma_sgroups_disjoint(
    files: Seq<File>,
    preps: Seq<usize>,
    digests: Seq<u64>,
    bits: u32,
    cl: crate::clusterer::Clusterer,
    sccs: Seq<Vec<u64>>,
    sgroups: Seq<Vec<usize>>,
)
    requires
        forall|s2: int, m: int|
            0 <= s2 < sgroups.len() && 0 <= m < sgroups[s2]@.len() ==> scc_has(
                sccs[s2]@,
                ihash_val(files, #[trigger] sgroups[s2]@[m] as int),
            ),
        forall|g1: int, m1: int, g2: int, m2: int|
            0 <= g1 < sccs.len() && 0 <= m1 < sccs[g1]@.len() && 0 <= g2 < sccs.len() && 0 <= m2
                < sccs[g2]@.len() && sccs[g1]@[m1] == sccs[g2]@[m2] ==> g1 == g2 && m1 == m2,
        sgroups.len() == sccs.len(),
    ensures
        forall|s1: int, m1: int, s2: int, m2: int|
            0 <= s1 < sgroups.len() && 0 <= m1 < sgroups[s1]@.len() && 0 <= s2 < sgroups.len()
                && 0 <= m2 < sgroups[s2]@.len() && s1 != s2 ==> #[trigger] sgroups[s1]@[m1]
                != #[trigger] sgroups[s2]@[m2],
{
    assert forall|s1: int, m1: int, s2: int, m2: int|
        0 <= s1 < sgroups.len() && 0 <= m1 < sgroups[s1]@.len() && 0 <= s2 < sgroups.len() && 0
            <= m2 < sgroups[s2]@.len() && s1 != s2 implies #[trigger] sgroups[s1]@[m1]
        != #[trigger] sgroups[s2]@[m2] by {
        if sgroups[s1]@[m1] == sgroups[s2]@[m2] {
            let dd = ihash_val(files, sgroups[s1]@[m1] as int);
            assert(scc_has(sccs[s1]@, dd));
            assert(scc_has(sccs[s2]@, dd));
            let q1 = choose|q: int| 0 <= q < sccs[s1]@.len() && sccs[s1]@[q] == dd;
            let q2 = choose|q: int| 0 <= q < sccs[s2]@.len() && sccs[s2]@[q] == dd;
            assert(sccs[s1]@[q1] == sccs[s2]@[q2]);
            assert(false);
        }
    }
}

/// Every position lands in some group.
#[verifier::rlimit(100)]
proof fn lemma_sgroups_cover(
    files: Seq<File>,
    preps: Seq<usize>,
    digests: Seq<u64>,
    bits: u32,
    cl: crate::clusterer::Clusterer,
    sccs: Seq<Vec<u64>>,
    sgroups: Seq<Vec<usize>>,
)
    requires
        forall|k: int|
            0 <= k < preps.len() ==> scc_has(
                digests,
                ihash_val(files, #[trigger] preps[k] as int),
            ),
        forall|x: int| 0 <= x < digests.len() ==> cl.registered(#[trigger] digests[x]),
        forall|k: u64|
            cl.registered(k) ==> exists|g: int, m: int|
                0 <= g < sccs.len() && 0 <= m < sccs[g]@.len() && sccs[g]@[m] == k,
        sgroups.len() == sccs.len(),
        forall|s2: int, k2: int|
            #![trigger sgroups[s2], preps[k2]]
            0 <= s2 < sgroups.len() && 0 <= k2 < preps.len() && scc_has(
                sccs[s2]@,
                ihash_val(files, preps[k2] as int),
            ) ==> in_seq(sgroups[s2]@, preps[k2]),
    ensures
        forall|k: int|
            0 <= k < preps.len() ==> in_some_group(sgroups, #[trigger] preps[k]),
{
    assert forall|k: int| 0 <= k < preps.len() implies in_some_group(
        sgroups,
        #[trigger] preps[k],
    ) by {
        let dd = ihash_val(files, preps[k] as int);
        assert(scc_has(digests, dd));
        let g = choose|g: int| 0 <= g < digests.len() && digests[g] == dd;
        assert(cl.registered(digests[g]));
        let (sg, mg) = choose|sg: int, mg: int|
            0 <= sg < sccs.len() && 0 <= mg < sccs[sg]@.len() && sccs[sg]@[mg] == digests[g];
        assert(scc_has(sccs[sg]@, dd));
        assert(0 <= sg < sgroups.len() && in_seq(sgroups[sg]@, preps[k]));
        assert(in_some_group(sgroups, preps[k]));
    }
}

/// The digests of two members of one group are chain-connected.
#[verifier::rlimit(100)]
proof fn lemma_sgroups_chained(
    files: Seq<File>,
    preps: Seq<usize>,
    digests: Seq<u64>,
    bits: u32,
    cl: crate::clusterer::Clusterer,
    sccs: Seq<Vec<u64>>,
    sgroups: Seq<Vec<usize>>,
)
    requires
        forall|s2: int, m: int|
            0 <= s2 < sgroups.len() && 0 <= m < sgroups[s2]@.len() ==> scc_has(
                sccs[s2]@,
                ihash_val(files, #[trigger] sgroups[s2]@[m] as int),
            ),
        forall|g: int, m1: int, m2: int|
            0 <= g < sccs.len() && 0 <= m1 < sccs[g]@.len() && 0 <= m2 < sccs[g]@.len()
                ==> cl.same_cluster(sccs[g]@[m1], sccs[g]@[m2]),
        forall|x: u64, y: u64| #[trigger]
            cl.same_cluster(x, y) ==> chained(files, preps, bits, x, y),
        sgroups.len() == sccs.len(),
    ensures
        forall|s: int, m1: int, m2: int|
            0 <= s < sgroups.len() && 0 <= m1 < sgroups[s]@.len() && 0 <= m2 < sgroups[s]@.len()
                ==> chained(
                files,
                preps,
                bits,
                ihash_val(files, #[trigger] sgroups[s]@[m1] as int),
                ihash_val(files, #[trigger] sgroups[s]@[m2] as int),
            ),
{
    assert forall|s: int, m1: int, m2: int|
        0 <= s < sgroups.len() && 0 <= m1 < sgroups[s]@.len() && 0 <= m2 < sgroups[s]@.len()
        implies chained(
        files,
        preps,
        bits,
        ihash_val(files, #[trigger] sgroups[s]@[m1] as int),
        ihash_val(files, #[trigger] sgroups[s]@[m2] as int),
    ) by {
        let d1 = ihash_val(files, sgroups[s]@[m1] as int);
        let d2 = ihash_val(files, sgroups[s]@[m2] as int);
        assert(scc_has(sccs[s]@, d1));
        assert(scc_has(sccs[s]@, d2));
        let q1 = choose|q: int| 0 <= q < sccs[s]@.len() && sccs[s]@[q] == d1;
        let q2 = choose|q: int| 0 <= q < sccs[s]@.len() && sccs[s]@[q] == d2;
        assert(cl.same_cluster(sccs[s]@[q1], sccs[s]@[q2]));
        assert(chained(files, preps, bits, d1, d2));
    }
}

/// A group holds every position whose digest chains to a member's.
#[verifier::rlimit(100)]
proof fn lemma_sgroups_closed(
    files: Seq<File>,
    preps: Seq<usize>,
    digests: Seq<u64>,
    bits: u32,
    cl: crate::clusterer::Clusterer,
    sccs: Seq<Vec<u64>>,
    sgroups: Seq<Vec<usize>>,
)
    requires
        cl.wf(),
        forall|k: int|
            0 <= k < preps.len() ==> scc_has(
                digests,
                ihash_val(files, #[trigger] preps[k] as int),
            ),
        forall|x: int| 0 <= x < digests.len() ==> cl.registered(#[trigger] digests[x]),
        forall|i2: int, j2: int|
            #![trigger digests[i2], digests[j2]]
            0 <= i2 < j2 < digests.len() && crate::digest::hamming_of(digests[i2], digests[j2])
                <= bits ==> cl.same_cluster(digests[i2], digests[j2]),
        forall|k: u64|
            cl.registered(k) ==> exists|g: int, m: int|
                0 <= g < sccs.len() && 0 <= m < sccs[g]@.len() && sccs[g]@[m] == k,
        forall|g1: int, m1: int, g2: int, m2: int|
            0 <= g1 < sccs.len() && 0 <= m1 < sccs[g1]@.len() && 0 <= g2 < sccs.len() && 0 <= m2
                < sccs[g2]@.len() && g1 != g2 ==> !cl.same_cluster(sccs[g1]@[m1], sccs[g2]@[m2]),
        forall|s2: int, m: int|
            0 <= s2 < sgroups.len() && 0 <= m < sgroups[s2]@.len() ==> scc_has(
                sccs[s2]@,
                ihash_val(files, #[trigger] sgroups[s2]@[m] as int),
            ),
        sgroups.len() == sccs.len(),
        forall|s2: int, k2: int|
            #![trigger sgroups[s2], preps[k2]]
            0 <= s2 < sgroups.len() && 0 <= k2 < preps.len() && scc_has(
                sccs[s2]@,
                ihash_val(files, preps[k2] as int),
            ) ==> in_seq(sgroups[s2]@, preps[k2]),
    ensures
        forall|s: int, m: int, k: int|
            0 <= s < sgroups.len() && 0 <= m < sgroups[s]@.len() && 0 <= k < preps.len()
                && chained(
                files,
                preps,
                bits,
                ihash_val(files, #[trigger] sgroups[s]@[m] as int),
                ihash_val(files, #[trigger] preps[k] as int),
            ) ==> in_seq(sgroups[s]@, preps[k]),
{
    assert forall|s: int, m: int, k: int|
        0 <= s < sgroups.len() && 0 <= m < sgroups[s]@.len() && 0 <= k < preps.len() && chained(
            files,
            preps,
            bits,
            ihash_val(files, #[trigger] sgroups[s]@[m] as int),
            ihash_val(files, #[trigger] preps[k] as int),
        ) implies in_seq(sgroups[s]@, preps[k]) by {
        let d1 = ihash_val(files, sgroups[s]@[m] as int);
        let d2 = ihash_val(files, preps[k] as int);
        let c = choose|c: Seq<u64>|
            chain_ok(files, preps, bits, c) && c.first() == d1 && c.last() == d2;
        lemma_chain_same_cluster(cl, files, preps, digests, bits, c);
        assert(cl.same_cluster(d1, d2));
        assert(scc_has(sccs[s]@, d1));
        let q1 = choose|q: int| 0 <= q < sccs[s]@.len() && sccs[s]@[q] == d1;
        assert(scc_has(digests, d2));
        let g = choose|g: int| 0 <= g < digests.len() && digests[g] == d2;
        assert(cl.registered(digests[g]));
        let (sg, mg) = choose|sg: int, mg: int|
            0 <= sg < sccs.len() && 0 <= mg < sccs[sg]@.len() && sccs[sg]@[mg] == digests[g];
        assert(sg == s) by {
            if sg != s {
                assert(!cl.same_cluster(sccs[s]@[q1], sccs[sg]@[mg]));
            }
        }
        assert(scc_has(sccs[s]@, d2));
        assert(in_seq(sgroups[s]@, preps[k]));
    }
}

/// From the tracker's final clusters and the groups drawn from them,
/// derives that the groups are disjoint, cover every position, and are
/// exactly chain-connected components.
#[verifier::rlimit(100)]
proof fn lemma_similar_groups_final(
    files: Seq<File>,
    preps: Seq<usize>,
    digests: Seq<u64>,
    bits: u32,
    cl: crate::clusterer::Clusterer,
    sccs: Seq<Vec<u64>>,
    sgroups: Seq<Vec<usize>>,
)
    requires
        cl.wf(),
        forall|k: int|
            0 <= k < preps.len() ==> scc_has(
                digests,
                ihash_val(files, #[trigger] preps[k] as int),
            ),
        forall|x: int| 0 <= x < digests.len() ==> cl.registered(#[trigger] digests[x]),
        forall|x: u64, y: u64| #[trigger]
            cl.same_cluster(x, y) ==> chained(files, preps, bits, x, y),
        forall|i2: int, j2: int|
            #![trigger digests[i2], digests[j2]]
            0 <= i2 < j2 < digests.len() && crate::digest::hamming_of(digests[i2], digests[j2])
                <= bits ==> cl.same_cluster(digests[i2], digests[j2]),
        forall|k: u64|
            cl.registered(k) ==> exists|g: int, m: int|
                0 <= g < sccs.len() && 0 <= m < sccs[g]@.len() && sccs[g]@[m] == k,
        forall|g: int, m1: int, m2: int|
            0 <= g < sccs.len() && 0 <= m1 < sccs[g]@.len() && 0 <= m2 < sccs[g]@.len()
                ==> cl.same_cluster(sccs[g]@[m1], sccs[g]@[m2]),
        forall|g1: int, m1: int, g2: int, m2: int|
            0 <= g1 < sccs.len() && 0 <= m1 < sccs[g1]@.len() && 0 <= g2 < sccs.len() && 0 <= m2
                < sccs[g2]@.len() && g1 != g2 ==> !cl.same_cluster(sccs[g1]@[m1], sccs[g2]@[m2]),
        forall|g1: int, m1: int, g2: int, m2: int|
            0 <= g1 < sccs.len() && 0 <= m1 < sccs[g1]@.len() && 0 <= g2 < sccs.len() && 0 <= m2
                < sccs[g2]@.len() && sccs[g1]@[m1] == sccs[g2]@[m2] ==> g1 == g2 && m1 == m2,
        sgroups.len() == sccs.len(),
        forall|s2: int, k2: int|
            #![trigger sgroups[s2], preps[k2]]
            0 <= s2 < sgroups.len() && 0 <= k2 < preps.len() && scc_has(
                sccs[s2]@,
                ihash_val(files, preps[k2] as int),
            ) ==> in_seq(sgroups[s2]@, preps[k2]),
        forall|s2: int, m: int|
            0 <= s2 < sgroups.len() && 0 <= m < sgroups[s2]@.len() ==> scc_has(
                sccs[s2]@,
                ihash_val(files, #[trigger] sgroups[s2]@[m] as int),
            ),
    ensures
        forall|s1: int, m1: int, s2: int, m2: int|
            0 <= s1 < sgroups.len() && 0 <= m1 < sgroups[s1]@.len() && 0 <= s2 < sgroups.len()
                && 0 <= m2 < sgroups[s2]@.len() && s1 != s2 ==> #[trigger] sgroups[s1]@[m1]
                != #[trigger] sgroups[s2]@[m2],
        forall|k: int|
            0 <= k < preps.len() ==> in_some_group(sgroups, #[trigger] preps[k]),
        forall|s: int, m1: int, m2: int|
            0 <= s < sgroups.len() && 0 <= m1 < sgroups[s]@.len() && 0 <= m2 < sgroups[s]@.len()
                ==> chained(
                files,
                preps,
                bits,
                ihash_val(files, #[trigger] sgroups[s]@[m1] as int),
                ihash_val(files, #[trigger] sgroups[s]@[m2] as int),
            ),
        forall|s: int, m: int, k: int|
            0 <= s < sgroups.len() && 0 <= m < sgroups[s]@.len() && 0 <= k < preps.len()
                && chained(
                files,
                preps,
                bits,
                ihash_val(files, #[trigger] sgroups[s]@[m] as int),
                ihash_val(files, #[trigger] preps[k] as int),
            ) ==> in_seq(sgroups[s]@, preps[k]),
{
    lemma_sgroups_disjoint(files, preps, digests, bits, cl, sccs, sgroups);
    lemma_sgroups_cover(files, preps, digests, bits, cl, sccs, sgroups);
    lemma_sgroups_chained(files, preps, digests, bits, cl, sccs, sgroups);
    lemma_sgroups_closed(files, preps, digests, bits, cl, sccs, sgroups);
}


/// No two files display the same path.
pub open spec fn distinct_displays(files: Seq<File>) -> bool {
    forall|i: int, j: int|
        #![trigger display_of(files[i].path@), display_of(files[j].path@)]
        0 <= i < j < files.len() ==> display_of(files[i].path@) != display_of(files[j].path@)
}

/// Whether the file at `p` is the representative of its content class:
/// its path is byte-lexicographically least among all files sharing its
/// content digest.
pub open spec fn is_rep(files: Seq<File>, p: int) -> bool {
    &&& 0 <= p < files.len()
    &&& forall|j: int|
        0 <= j < files.len() && #[trigger] files[j].md5 == files[p].md5 ==> bytes_le(
            str_bytes(files[p].path@),
            str_bytes(files[j].path@),
        )
}

/// Whether a group of strings holds the display path `p`.
pub open spec fn group_has(grp: Seq<String>, p: Seq<char>) -> bool {
    exists|m: int| 0 <= m < grp.len() && grp[m]@ == p
}

/// Whether one group holds both display paths.
pub open spec fn in_same_group(gs: Seq<Vec<String>>, a: Seq<char>, b: Seq<char>) -> bool {
    exists|e: int| 0 <= e < gs.len() && group_has(gs[e]@, a) && group_has(gs[e]@, b)
}

/// Whether a string displays a file that shares its content digest with
/// another file.
pub open spec fn is_dup_display(files: Seq<File>, s: Seq<char>) -> bool {
    exists|i: int, j: int|
        0 <= i < files.len() && 0 <= j < files.len() && i != j && files[i].md5 == files[j].md5
            && s == display_of(files[i].path@)
}

/// Whether a string displays a representative that carries a perceptual
/// digest.
pub open spec fn is_rep_display(files: Seq<File>, s: Seq<char>) -> bool {
    exists|p: int| is_rep(files, p) && files[p].ihash is Some && s == display_of(files[p].path@)
}

/// The representative's path is least within the group.
pub open spec fn min_of_group(files: Seq<File>, grp: Seq<usize>, r: usize) -> bool {
    forall|m: int|
        0 <= m < grp.len() ==> bytes_le(
            str_bytes(files[r as int].path@),
            str_bytes(files[#[trigger] grp[m] as int].path@),
        )
}

/// Whether `x` stands among the first `upto` entries of `s`.
pub open spec fn among_first(s: Seq<usize>, upto: int, x: usize) -> bool {
    exists|k: int| 0 <= k < upto && s[k] == x
}


/// Find duplicate and similar files among the given fingerprinted
/// files.
///
/// The report's `identicals` are the groups of two or more files
/// sharing one content digest; its `similars` are the groups of two or
/// more representatives whose perceptual digests are chained together by
/// distances of at most `bits`. Each group lists display paths in
/// byte-lexicographic order.
#[verifier::rlimit(100)]
pub fn diff_report(files: &Vec<File>, bits: u32) -> (r: Report)
    requires
        distinct_displays(files@),
    ensures
        forall|e: int|
            0 <= e < r.identicals@.len() ==> #[trigger] r.identicals@[e]@.len() >= 2
                && sorted_strs(r.identicals@[e]@),
        forall|i: int, j: int|
            #![trigger files@[i].md5, files@[j].md5]
            0 <= i < files@.len() && 0 <= j < files@.len() && i != j && files@[i].md5 == files@[
            j].md5 ==> in_same_group(
                r.identicals@,
                display_of(files@[i].path@),
                display_of(files@[j].path@),
            ),
        forall|e: int, m: int|
            0 <= e < r.identicals@.len() && 0 <= m < r.identicals@[e]@.len() ==> is_dup_display(
                files@,
                #[trigger] r.identicals@[e]@[m]@,
            ),
        forall|e: int|
            0 <= e < r.similars@.len() ==> #[trigger] r.similars@[e]@.len() >= 2 && sorted_strs(
                r.similars@[e]@,
            ),
        forall|p: int, q: int|
            #![trigger files@[p].ihash, files@[q].ihash]
            is_rep(files@, p) && is_rep(files@, q) && p != q && files@[p].ihash is Some
                && files@[q].ihash is Some && crate::digest::hamming_of(
                ihash_val(files@, p),
                ihash_val(files@, q),
            ) <= bits ==> in_same_group(
                r.similars@,
                display_of(files@[p].path@),
                display_of(files@[q].path@),
            ),
        forall|e: int, m: int|
            0 <= e < r.similars@.len() && 0 <= m < r.similars@[e]@.len() ==> is_rep_display(
                files@,
                #[trigger] r.similars@[e]@[m]@,
            ),
        forall|e: int, m1: int, m2: int|
            0 <= e < r.identicals@.len() && 0 <= m1 < m2 < r.identicals@[e]@.len()
                ==> #[trigger] r.identicals@[e]@[m1]@ != #[trigger] r.identicals@[e]@[m2]@,
        forall|e1: int, m1: int, e2: int, m2: int|
            0 <= e1 < r.identicals@.len() && 0 <= m1 < r.identicals@[e1]@.len() && 0 <= e2
                < r.identicals@.len() && 0 <= m2 < r.identicals@[e2]@.len() && e1 != e2
                ==> #[trigger] r.identicals@[e1]@[m1]@ != #[trigger] r.identicals@[e2]@[m2]@,
        forall|e: int, m1: int, m2: int, i: int, j: int|
            #![trigger r.identicals@[e]@[m1], r.identicals@[e]@[m2], files@[i], files@[j]]
            0 <= e < r.identicals@.len() && 0 <= m1 < r.identicals@[e]@.len() && 0 <= m2
                < r.identicals@[e]@.len() && 0 <= i < files@.len() && 0 <= j < files@.len()
                && r.identicals@[e]@[m1]@ == display_of(files@[i].path@)
                && r.identicals@[e]@[m2]@ == display_of(files@[j].path@) ==> files@[i].md5
                == files@[j].md5,
        forall|e: int, m: int, i: int, j: int|
            #![trigger r.identicals@[e]@[m], files@[i], files@[j]]
            0 <= e < r.identicals@.len() && 0 <= m < r.identicals@[e]@.len() && 0 <= i
                < files@.len() && 0 <= j < files@.len() && r.identicals@[e]@[m]@ == display_of(
                files@[i].path@,
            ) && files@[j].md5 == files@[i].md5 ==> group_has(
                r.identicals@[e]@,
                display_of(files@[j].path@),
            ),
        forall|e: int, m1: int, m2: int|
            0 <= e < r.similars@.len() && 0 <= m1 < m2 < r.similars@[e]@.len()
                ==> #[trigger] r.similars@[e]@[m1]@ != #[trigger] r.similars@[e]@[m2]@,
        forall|e1: int, m1: int, e2: int, m2: int|
            0 <= e1 < r.similars@.len() && 0 <= m1 < r.similars@[e1]@.len() && 0 <= e2
                < r.similars@.len() && 0 <= m2 < r.similars@[e2]@.len() && e1 != e2
                ==> #[trigger] r.similars@[e1]@[m1]@ != #[trigger] r.similars@[e2]@[m2]@,
        forall|e: int, m1: int, m2: int, p: int, q: int|
            #![trigger r.similars@[e]@[m1], r.similars@[e]@[m2], files@[p], files@[q]]
            0 <= e < r.similars@.len() && 0 <= m1 < r.similars@[e]@.len() && 0 <= m2
                < r.similars@[e]@.len() && 0 <= p < files@.len() && 0 <= q < files@.len()
                && r.similars@[e]@[m1]@ == display_of(files@[p].path@) && r.similars@[e]@[m2]@
                == display_of(files@[q].path@) ==> rep_chained(
                files@,
                bits,
                ihash_val(files@, p),
                ihash_val(files@, q),
            ),
        forall|p: int, q: int|
            #![trigger files@[p].ihash, files@[q].ihash]
            is_rep(files@, p) && is_rep(files@, q) && p != q && files@[p].ihash is Some
                && files@[q].ihash is Some && rep_chained(
                files@,
                bits,
                ihash_val(files@, p),
                ihash_val(files@, q),
            ) ==> in_same_group(
                r.similars@,
                display_of(files@[p].path@),
                display_of(files@[q].path@),
            ),
{
    let n = files.len();
    let mut keys: Vec<u128> = Vec::new();
    let mut i: usize = 0;
    while i < n
        invariant
            i <= n,
            n == files@.len(),
            keys@.len() == i,
            forall|x: int| 0 <= x < i ==> #[trigger] keys@[x] == files@[x].md5,
        decreases n - i,
    {
        keys.push(files[i].md5);
        i = i + 1;
    }
    let mgroups = partition_by_key(&keys);
    let identicals = expand_groups(files, &mgroups);
    let nmg = mgroups.len();
    let mut reps: Vec<usize> = Vec::new();
    let mut g: usize = 0;
    while g < nmg
        invariant
            g <= nmg,
            n == files@.len(),
            keys@.len() == n,
            nmg == mgroups@.len(),
            forall|g2: int| 0 <= g2 < mgroups@.len() ==> #[trigger] mgroups@[g2]@.len() >= 1,
            forall|g2: int, m: int|
                0 <= g2 < mgroups@.len() && 0 <= m < mgroups@[g2]@.len()
                    ==> #[trigger] mgroups@[g2]@[m] < n,
            reps@.len() == g,
            forall|g2: int|
                0 <= g2 < g ==> #[trigger] reps@[g2] < n && in_seq(mgroups@[g2]@, reps@[g2])
                    && min_of_group(files@, mgroups@[g2]@, reps@[g2]),
        decreases nmg - g,
    {
        let mg = &mgroups[g];
        proof {
            assert(mg@ == mgroups@[g as int]@);
        }
        let rep = select_representative(files, mg);
        reps.push(rep);
        proof {
            let m = choose|m: int| 0 <= m < mg@.len() && mg@[m] == rep;
            assert(in_seq(mgroups@[g as int]@, rep));
            assert(min_of_group(files@, mgroups@[g as int]@, rep));
        }
        g = g + 1;
    }
    proof {
        assert forall|g1: int, g2: int|
            0 <= g1 < reps@.len() && 0 <= g2 < reps@.len() && g1 != g2
            implies #[trigger] reps@[g1] != #[trigger] reps@[g2] by {
            let m1 = choose|m1: int|
                0 <= m1 < mgroups@[g1]@.len() && mgroups@[g1]@[m1] == reps@[g1];
            let m2 = choose|m2: int|
                0 <= m2 < mgroups@[g2]@.len() && mgroups@[g2]@[m2] == reps@[g2];
            assert(keys@[reps@[g1] as int] == keys@[mgroups@[g1]@[0] as int]);
            assert(keys@[reps@[g2] as int] == keys@[mgroups@[g2]@[0] as int]);
            assert(keys@[mgroups@[g1]@[0] as int] != keys@[mgroups@[g2]@[0] as int]);
        }
    }
    let nr = reps.len();
    let mut preps: Vec<usize> = Vec::new();
    let mut k: usize = 0;
    while k < nr
        invariant
            k <= nr,
            n == files@.len(),
            nr == reps@.len(),
            forall|g2: int| 0 <= g2 < reps@.len() ==> #[trigger] reps@[g2] < n,
            forall|g1: int, g2: int|
                0 <= g1 < reps@.len() && 0 <= g2 < reps@.len() && g1 != g2
                    ==> #[trigger] reps@[g1] != #[trigger] reps@[g2],
            forall|x: int| 0 <= x < preps@.len() ==> #[trigger] preps@[x] < n,
            forall|x: int| 0 <= x < preps@.len() ==> files@[#[trigger] preps@[x] as int].ihash
                is Some,
            forall|x: int| 0 <= x < preps@.len() ==> among_first(
                reps@,
                k as int,
                #[trigger] preps@[x],
            ),
            forall|x1: int, x2: int|
                0 <= x1 < x2 < preps@.len() ==> #[trigger] preps@[x1] != #[trigger] preps@[x2],
            forall|k2: int|
                0 <= k2 < k && files@[#[trigger] reps@[k2] as int].ihash is Some ==> in_seq(
                    preps@,
                    reps@[k2],
                ),
        decreases nr - k,
    {
        let idx = reps[k];
        let ghost old_preps = preps@;
        if files[idx].ihash.is_some() {
            proof {
                assert forall|x: int| 0 <= x < preps@.len()
                    implies #[trigger] preps@[x] != idx by {
                    let kx = choose|kx: int| 0 <= kx < k && reps@[kx] == preps@[x];
                    assert(reps@[kx] != reps@[k as int]);
                }
            }
            preps.push(idx);
        }
        proof {
            assert forall|x: int| 0 <= x < preps@.len() implies among_first(
                reps@,
                k + 1,
                #[trigger] preps@[x],
            ) by {
                if x < old_preps.len() {
                    assert(preps@[x] == old_preps[x]);
                    let kx = choose|kx: int| 0 <= kx < k && reps@[kx] == old_preps[x];
                    assert(reps@[kx] == preps@[x]);
                } else {
                    assert(reps@[k as int] == preps@[x]);
                }
            }
            assert forall|k2: int|
                0 <= k2 < k + 1 && files@[#[trigger] reps@[k2] as int].ihash is Some
                implies in_seq(preps@, reps@[k2]) by {
                if k2 < k {
                    let m = choose|m: int|
                        0 <= m < old_preps.len() && old_preps[m] == reps@[k2];
                    assert(preps@[m] == reps@[k2]);
                } else {
                    assert(preps@[preps@.len() - 1] == reps@[k2]);
                }
            }
        }
        k = k + 1;
    }
    let sgroups = build_similar_groups(files, &preps, bits);
    let similars = expand_groups(files, &sgroups);
    let r = Report::from(identicals, similars);
    proof {
        let fs = files@;
        lemma_big_idxs(mgroups@);
        lemma_big_idxs(sgroups@);
        assert(groups_distinct(mgroups@)) by {
            assert forall|g2: int, m1: int, m2: int|
                0 <= g2 < mgroups@.len() && 0 <= m1 < m2 < mgroups@[g2]@.len()
                implies #[trigger] mgroups@[g2]@[m1] != #[trigger] mgroups@[g2]@[m2] by {
                assert(mgroups@[g2]@[m1] < mgroups@[g2]@[m2]);
            }
        }
        assert(groups_distinct(sgroups@));
        lemma_reps_exact(fs, keys@, mgroups@, reps@);
        lemma_identicals_exact(fs, keys@, mgroups@, identicals@);
        assert forall|x: int| 0 <= x < preps@.len() implies is_rep(
            fs,
            #[trigger] preps@[x] as int,
        ) by {
            assert(among_first(reps@, reps@.len() as int, preps@[x]));
            let g2 = choose|g2: int| 0 <= g2 < reps@.len() && reps@[g2] == preps@[x];
            assert(is_rep(fs, reps@[g2] as int));
        }
        assert forall|p: int| #[trigger] is_rep(fs, p) && fs[p].ihash is Some
            implies exists|k: int| 0 <= k < preps@.len() && preps@[k] == p by {
            let g2 = choose|g2: int| 0 <= g2 < reps@.len() && reps@[g2] == p;
            assert(fs[reps@[g2] as int].ihash is Some);
            assert(in_seq(preps@, reps@[g2]));
            let k = choose|k: int| 0 <= k < preps@.len() && preps@[k] == reps@[g2];
            assert(preps@[k] == p);
        }
        lemma_similars_exact(fs, preps@, sgroups@, similars@, bits);
    }
    r
}


/// Whether `d` is the perceptual digest of some representative.
pub open spec fn rep_digest(files: Seq<File>, d: u64) -> bool {
    exists|p: int| is_rep(files, p) && files[p].ihash == Some(d)
}

/// A chain of representatives' digests with every adjacent pair within
/// `bits` of one another.
pub open spec fn rep_chain_ok(files: Seq<File>, bits: u32, c: Seq<u64>) -> bool {
    &&& c.len() >= 1
    &&& forall|i: int| 0 <= i < c.len() ==> rep_digest(files, #[trigger] c[i])
    &&& forall|i: int|
        0 <= i < c.len() - 1 ==> crate::digest::hamming_of(#[trigger] c[i], c[i + 1]) <= bits
}

/// Whether two digests are joined by a chain of close links among the
/// representatives' digests.
pub open spec fn rep_chained(files: Seq<File>, bits: u32, a: u64, b: u64) -> bool {
    exists|c: Seq<u64>| rep_chain_ok(files, bits, c) && c.first() == a && c.last() == b
}

/// A chain among positions that are all representatives with a digest is
/// a chain among representatives' digests.
proof fn lemma_chain_to_rep(files: Seq<File>, preps: Seq<usize>, bits: u32, a: u64, b: u64)
    requires
        chained(files, preps, bits, a, b),
        forall|k: int| 0 <= k < preps.len() ==> is_rep(files, #[trigger] preps[k] as int),
        forall|k: int| 0 <= k < preps.len() ==> files[#[trigger] preps[k] as int].ihash is Some,
    ensures
        rep_chained(files, bits, a, b),
{
    let c = choose|c: Seq<u64>|
        chain_ok(files, preps, bits, c) && c.first() == a && c.last() == b;
    assert forall|i: int| 0 <= i < c.len() implies rep_digest(files, #[trigger] c[i]) by {
        let k = choose|k: int|
            0 <= k < preps.len() && ihash_val(files, preps[k] as int) == c[i];
        assert(files[preps[k] as int].ihash == Some(c[i]));
        assert(is_rep(files, preps[k] as int));
    }
    assert(rep_chain_ok(files, bits, c));
}

/// A chain among representatives' digests runs among the given positions
/// when those list every representative with a digest.
proof fn lemma_rep_to_chain(files: Seq<File>, preps: Seq<usize>, bits: u32, a: u64, b: u64)
    requires
        rep_chained(files, bits, a, b),
        forall|p: int| #[trigger]
            is_rep(files, p) && files[p].ihash is Some ==> exists|k: int|
                0 <= k < preps.len() && preps[k] == p,
    ensures
        chained(files, preps, bits, a, b),
{
    let c = choose|c: Seq<u64>|
        rep_chain_ok(files, bits, c) && c.first() == a && c.last() == b;
    assert forall|i: int| 0 <= i < c.len() implies digest_among(files, preps, #[trigger] c[i]) by {
        let p = choose|p: int| is_rep(files, p) && files[p].ihash == Some(c[i]);
        let k = choose|k: int| 0 <= k < preps.len() && preps[k] == p;
        assert(ihash_val(files, preps[k] as int) == c[i]);
    }
    assert(chain_ok(files, preps, bits, c));
}

/// Two positions displaying the same path are one position.
proof fn lemma_display_inj(files: Seq<File>, i: int, j: int)
    requires
        distinct_displays(files),
        0 <= i < files.len(),
        0 <= j < files.len(),
        display_of(files[i].path@) == display_of(files[j].path@),
    ensures
        i == j,
{
    if i < j {
        assert(display_of(files[i].path@) != display_of(files[j].path@));
    } else if j < i {
        assert(display_of(files[j].path@) != display_of(files[i].path@));
    }
}

/// The chosen representatives are exactly the files whose path is least
/// within their content class.
proof fn lemma_reps_exact(
    files: Seq<File>,
    keys: Seq<u128>,
    mgroups: Seq<Vec<usize>>,
    reps: Seq<usize>,
)
    requires
        distinct_displays(files),
        keys.len() == files.len(),
        forall|x: int| 0 <= x < keys.len() ==> #[trigger] keys[x] == files[x].md5,
        forall|g: int| 0 <= g < mgroups.len() ==> #[trigger] mgroups[g]@.len() >= 1,
        forall|g: int, m: int|
            0 <= g < mgroups.len() && 0 <= m < mgroups[g]@.len() ==> #[trigger] mgroups[g]@[m]
                < keys.len(),
        forall|g: int, m: int|
            0 <= g < mgroups.len() && 0 <= m < mgroups[g]@.len() ==> keys[#[trigger] mgroups[
            g]@[m] as int] == keys[mgroups[g]@[0] as int],
        forall|g: int, j: int|
            #![trigger keys[j], mgroups[g]@[0]]
            0 <= g < mgroups.len() && 0 <= j < keys.len() && keys[j] == keys[mgroups[
            g]@[0] as int] ==> exists|m: int| 0 <= m < mgroups[g]@.len() && mgroups[g]@[m] == j,
        forall|i: int| 0 <= i < keys.len() ==> #[trigger] covers(mgroups, i),
        reps.len() == mgroups.len(),
        forall|g2: int|
            0 <= g2 < reps.len() ==> #[trigger] reps[g2] < files.len() && in_seq(
                mgroups[g2]@,
                reps[g2],
            ) && min_of_group(files, mgroups[g2]@, reps[g2]),
    ensures
        forall|g2: int| 0 <= g2 < reps.len() ==> is_rep(files, #[trigger] reps[g2] as int),
        forall|p: int| #[trigger]
            is_rep(files, p) ==> exists|g2: int| 0 <= g2 < reps.len() && reps[g2] == p,
{
    let fs = files;
    assert forall|g2: int| 0 <= g2 < reps.len() implies is_rep(
        fs,
        #[trigger] reps[g2] as int,
    ) by {
        let rep = reps[g2];
        let m = choose|m: int| 0 <= m < mgroups[g2]@.len() && mgroups[g2]@[m] == rep;
        assert(keys[rep as int] == keys[mgroups[g2]@[0] as int]);
        assert forall|j: int|
            0 <= j < fs.len() && #[trigger] fs[j].md5 == fs[rep as int].md5 implies bytes_le(
            str_bytes(fs[rep as int].path@),
            str_bytes(fs[j].path@),
        ) by {
            assert(keys[j] == fs[j].md5);
            assert(keys[j] == keys[mgroups[g2]@[0] as int]);
            let m2 = choose|m2: int| 0 <= m2 < mgroups[g2]@.len() && mgroups[g2]@[m2] == j;
            assert(min_of_group(fs, mgroups[g2]@, rep));
            assert(bytes_le(
                str_bytes(fs[rep as int].path@),
                str_bytes(fs[mgroups[g2]@[m2] as int].path@),
            ));
        }
    }
    assert forall|p: int| #[trigger] is_rep(fs, p) implies exists|g2: int|
        0 <= g2 < reps.len() && reps[g2] == p by {
        assert(covers(mgroups, p));
        let (gg, mm) = choose|gg: int, mm: int|
            0 <= gg < mgroups.len() && 0 <= mm < mgroups[gg]@.len() && mgroups[gg]@[mm] == p;
        let rep = reps[gg];
        let mr = choose|mr: int| 0 <= mr < mgroups[gg]@.len() && mgroups[gg]@[mr] == rep;
        assert(keys[rep as int] == keys[mgroups[gg]@[0] as int]);
        assert(keys[p] == keys[mgroups[gg]@[0] as int]);
        assert(fs[rep as int].md5 == fs[p].md5);
        assert(bytes_le(str_bytes(fs[p].path@), str_bytes(fs[rep as int].path@)));
        assert(min_of_group(fs, mgroups[gg]@, rep));
        assert(bytes_le(
            str_bytes(fs[rep as int].path@),
            str_bytes(fs[mgroups[gg]@[mm] as int].path@),
        ));
        crate::paths::lemma_bytes_le_antisymmetric(
            str_bytes(fs[p].path@),
            str_bytes(fs[rep as int].path@),
        );
        crate::paths::lemma_str_bytes_injective(fs[p].path@, fs[rep as int].path@);
        if p != rep as int {
            assert(display_of(fs[p].path@) != display_of(fs[rep as int].path@));
        }
        assert(reps[gg] == p);
    }
}

/// Every expanded identity group holds at least two display paths.
#[verifier::rlimit(100)]
proof fn lemma_identicals_sizes(
    files: Seq<File>,
    keys: Seq<u128>,
    mgroups: Seq<Vec<usize>>,
    identicals: Seq<Vec<String>>,
)
    requires
        identicals.len() == big_idxs(mgroups).len(),
        forall|e: int|
            0 <= e < identicals.len() ==> entry_matches(
                files,
                #[trigger] identicals[e]@,
                mgroups[big_idxs(mgroups)[e]]@,
            ),
    ensures
        forall|e: int| 0 <= e < identicals.len() ==> #[trigger] identicals[e]@.len() >= 2,
{
    lemma_big_idxs(mgroups);
    let fs = files;
    assert forall|e: int| 0 <= e < identicals.len() implies #[trigger] identicals[e]@.len()
        >= 2 by {
        let gg = big_idxs(mgroups)[e];
        assert(entry_matches(fs, identicals[e]@, mgroups[gg]@));
        assert(mgroups[gg]@.len() >= 2);
    }
}

/// Two files of one content class share some identity group.
#[verifier::rlimit(100)]
proof fn lemma_identicals_complete(
    files: Seq<File>,
    keys: Seq<u128>,
    mgroups: Seq<Vec<usize>>,
    identicals: Seq<Vec<String>>,
)
    requires
        keys.len() == files.len(),
        forall|x: int| 0 <= x < keys.len() ==> #[trigger] keys[x] == files[x].md5,
        forall|g: int, m: int|
            0 <= g < mgroups.len() && 0 <= m < mgroups[g]@.len() ==> #[trigger] mgroups[g]@[m]
                < keys.len(),
        forall|g: int, m: int|
            0 <= g < mgroups.len() && 0 <= m < mgroups[g]@.len() ==> keys[#[trigger] mgroups[
            g]@[m] as int] == keys[mgroups[g]@[0] as int],
        forall|g: int, j: int|
            #![trigger keys[j], mgroups[g]@[0]]
            0 <= g < mgroups.len() && 0 <= j < keys.len() && keys[j] == keys[mgroups[
            g]@[0] as int] ==> exists|m: int| 0 <= m < mgroups[g]@.len() && mgroups[g]@[m] == j,
        forall|i: int| 0 <= i < keys.len() ==> #[trigger] covers(mgroups, i),
        forall|g: int|
            0 <= g < mgroups.len() && #[trigger] mgroups[g]@.len() >= 2 ==> group_expanded(
                files,
                identicals,
                mgroups[g]@,
            ),
    ensures
        forall|i2: int, j2: int|
            #![trigger files[i2].md5, files[j2].md5]
            0 <= i2 < files.len() && 0 <= j2 < files.len() && i2 != j2 && files[i2].md5
                == files[j2].md5 ==> in_same_group(
                identicals,
                display_of(files[i2].path@),
                display_of(files[j2].path@),
            ),
{
    lemma_big_idxs(mgroups);
    let fs = files;
    assert forall|i2: int, j2: int|
        #![trigger fs[i2].md5, fs[j2].md5]
        0 <= i2 < fs.len() && 0 <= j2 < fs.len() && i2 != j2 && fs[i2].md5 == fs[j2].md5
        implies in_same_group(
        identicals,
        display_of(fs[i2].path@),
        display_of(fs[j2].path@),
    ) by {
        assert(covers(mgroups, i2));
        let (gg, mm) = choose|gg: int, mm: int|
            0 <= gg < mgroups.len() && 0 <= mm < mgroups[gg]@.len() && mgroups[gg]@[mm] == i2;
        assert(keys[i2] == keys[mgroups[gg]@[0] as int]);
        assert(keys[j2] == keys[mgroups[gg]@[0] as int]);
        let m2 = choose|m2: int| 0 <= m2 < mgroups[gg]@.len() && mgroups[gg]@[m2] == j2;
        assert(mm != m2);
        assert(mgroups[gg]@.len() >= 2);
        assert(group_expanded(fs, identicals, mgroups[gg]@));
        let e = choose|e: int|
            0 <= e < identicals.len() && entry_matches(fs, identicals[e]@, mgroups[gg]@);
        assert(has_display(fs, identicals[e]@, mgroups[gg]@[mm] as int));
        assert(has_display(fs, identicals[e]@, mgroups[gg]@[m2] as int));
        let ma = choose|ma: int|
            0 <= ma < identicals[e]@.len() && identicals[e]@[ma]@ == display_of(fs[i2].path@);
        let mb = choose|mb: int|
            0 <= mb < identicals[e]@.len() && identicals[e]@[mb]@ == display_of(fs[j2].path@);
        assert(group_has(identicals[e]@, display_of(fs[i2].path@)));
        assert(group_has(identicals[e]@, display_of(fs[j2].path@)));
        assert(in_same_group(identicals, display_of(fs[i2].path@), display_of(fs[j2].path@)));
    }
}

/// Every listed display path names a file with a content twin.
#[verifier::rlimit(100)]
proof fn lemma_identicals_sound(
    files: Seq<File>,
    keys: Seq<u128>,
    mgroups: Seq<Vec<usize>>,
    identicals: Seq<Vec<String>>,
)
    requires
        keys.len() == files.len(),
        forall|x: int| 0 <= x < keys.len() ==> #[trigger] keys[x] == files[x].md5,
        forall|g: int, m: int|
            0 <= g < mgroups.len() && 0 <= m < mgroups[g]@.len() ==> #[trigger] mgroups[g]@[m]
                < keys.len(),
        forall|g: int, m: int|
            0 <= g < mgroups.len() && 0 <= m < mgroups[g]@.len() ==> keys[#[trigger] mgroups[
            g]@[m] as int] == keys[mgroups[g]@[0] as int],
        groups_distinct(mgroups),
        identicals.len() == big_idxs(mgroups).len(),
        forall|e: int|
            0 <= e < identicals.len() ==> entry_matches(
                files,
                #[trigger] identicals[e]@,
                mgroups[big_idxs(mgroups)[e]]@,
            ),
    ensures
        forall|e: int, m: int|
            0 <= e < identicals.len() && 0 <= m < identicals[e]@.len() ==> is_dup_display(
                files,
                #[trigger] identicals[e]@[m]@,
            ),
{
    lemma_big_idxs(mgroups);
    let fs = files;
    assert forall|e: int, m: int|
        0 <= e < identicals.len() && 0 <= m < identicals[e]@.len() implies is_dup_display(
        fs,
        #[trigger] identicals[e]@[m]@,
    ) by {
        let gg = big_idxs(mgroups)[e];
        assert(entry_matches(fs, identicals[e]@, mgroups[gg]@));
        assert(from_group(fs, identicals[e]@[m]@, mgroups[gg]@));
        let m2 = choose|m2: int|
            0 <= m2 < mgroups[gg]@.len() && identicals[e]@[m]@ == display_of(
                fs[mgroups[gg]@[m2] as int].path@,
            );
        let mo: int = if m2 == 0 {
            1
        } else {
            0
        };
        assert(mgroups[gg]@.len() >= 2);
        if mo < m2 {
            assert(mgroups[gg]@[mo] != mgroups[gg]@[m2]);
        } else {
            assert(mgroups[gg]@[m2] != mgroups[gg]@[mo]);
        }
        assert(keys[mgroups[gg]@[m2] as int] == keys[mgroups[gg]@[0] as int]);
        assert(keys[mgroups[gg]@[mo] as int] == keys[mgroups[gg]@[0] as int]);
        let iw = mgroups[gg]@[m2] as int;
        let jw = mgroups[gg]@[mo] as int;
        assert(fs[iw].md5 == keys[iw] && fs[jw].md5 == keys[jw]);
        assert(iw != jw) by {
            if iw == jw {
                assert(mgroups[gg]@[mo] == mgroups[gg]@[m2]);
            }
        }
        assert(0 <= iw < fs.len() && 0 <= jw < fs.len() && iw != jw && fs[iw].md5 == fs[jw].md5
            && identicals[e]@[m]@ == display_of(fs[iw].path@));
    }
}

/// Two distinct identity groups share no display path.
#[verifier::rlimit(100)]
proof fn lemma_identicals_disjoint(
    files: Seq<File>,
    keys: Seq<u128>,
    mgroups: Seq<Vec<usize>>,
    identicals: Seq<Vec<String>>,
)
    requires
        distinct_displays(files),
        keys.len() == files.len(),
        forall|g: int, m: int|
            0 <= g < mgroups.len() && 0 <= m < mgroups[g]@.len() ==> #[trigger] mgroups[g]@[m]
                < keys.len(),
        forall|g: int, m: int|
            0 <= g < mgroups.len() && 0 <= m < mgroups[g]@.len() ==> keys[#[trigger] mgroups[
            g]@[m] as int] == keys[mgroups[g]@[0] as int],
        forall|g1: int, g2: int|
            0 <= g1 < mgroups.len() && 0 <= g2 < mgroups.len() && g1 != g2
                ==> keys[#[trigger] mgroups[g1]@[0] as int] != keys[#[trigger] mgroups[
            g2]@[0] as int],
        identicals.len() == big_idxs(mgroups).len(),
        forall|e: int|
            0 <= e < identicals.len() ==> entry_matches(
                files,
                #[trigger] identicals[e]@,
                mgroups[big_idxs(mgroups)[e]]@,
            ),
    ensures
        forall|e1: int, m1: int, e2: int, m2: int|
            0 <= e1 < identicals.len() && 0 <= m1 < identicals[e1]@.len() && 0 <= e2
                < identicals.len() && 0 <= m2 < identicals[e2]@.len() && e1 != e2
                ==> #[trigger] identicals[e1]@[m1]@ != #[trigger] identicals[e2]@[m2]@,
{
    lemma_big_idxs(mgroups);
    let fs = files;
    assert forall|e1: int, m1: int, e2: int, m2: int|
        0 <= e1 < identicals.len() && 0 <= m1 < identicals[e1]@.len() && 0 <= e2
            < identicals.len() && 0 <= m2 < identicals[e2]@.len() && e1 != e2
        implies #[trigger] identicals[e1]@[m1]@ != #[trigger] identicals[e2]@[m2]@ by {
        if identicals[e1]@[m1]@ == identicals[e2]@[m2]@ {
            let g1 = big_idxs(mgroups)[e1];
            let g2 = big_idxs(mgroups)[e2];
            assert(g1 != g2) by {
                if e1 < e2 {
                    assert(big_idxs(mgroups)[e1] < big_idxs(mgroups)[e2]);
                } else {
                    assert(big_idxs(mgroups)[e2] < big_idxs(mgroups)[e1]);
                }
            }
            assert(entry_matches(fs, identicals[e1]@, mgroups[g1]@));
            assert(entry_matches(fs, identicals[e2]@, mgroups[g2]@));
            assert(from_group(fs, identicals[e1]@[m1]@, mgroups[g1]@));
            assert(from_group(fs, identicals[e2]@[m2]@, mgroups[g2]@));
            let ma = choose|ma: int|
                0 <= ma < mgroups[g1]@.len() && identicals[e1]@[m1]@ == display_of(
                    fs[mgroups[g1]@[ma] as int].path@,
                );
            let mb = choose|mb: int|
                0 <= mb < mgroups[g2]@.len() && identicals[e2]@[m2]@ == display_of(
                    fs[mgroups[g2]@[mb] as int].path@,
                );
            lemma_display_inj(fs, mgroups[g1]@[ma] as int, mgroups[g2]@[mb] as int);
            assert(keys[mgroups[g1]@[ma] as int] == keys[mgroups[g1]@[0] as int]);
            assert(keys[mgroups[g2]@[mb] as int] == keys[mgroups[g2]@[0] as int]);
            assert(keys[mgroups[g1]@[0] as int] != keys[mgroups[g2]@[0] as int]);
            assert(false);
        }
    }
}

/// All files displayed within one identity group share one digest.
#[verifier::rlimit(100)]
proof fn lemma_identicals_same_class(
    files: Seq<File>,
    keys: Seq<u128>,
    mgroups: Seq<Vec<usize>>,
    identicals: Seq<Vec<String>>,
)
    requires
        distinct_displays(files),
        keys.len() == files.len(),
        forall|x: int| 0 <= x < keys.len() ==> #[trigger] keys[x] == files[x].md5,
        forall|g: int, m: int|
            0 <= g < mgroups.len() && 0 <= m < mgroups[g]@.len() ==> #[trigger] mgroups[g]@[m]
                < keys.len(),
        forall|g: int, m: int|
            0 <= g < mgroups.len() && 0 <= m < mgroups[g]@.len() ==> keys[#[trigger] mgroups[
            g]@[m] as int] == keys[mgroups[g]@[0] as int],
        identicals.len() == big_idxs(mgroups).len(),
        forall|e: int|
            0 <= e < identicals.len() ==> entry_matches(
                files,
                #[trigger] identicals[e]@,
                mgroups[big_idxs(mgroups)[e]]@,
            ),
    ensures
        forall|e: int, m1: int, m2: int, i: int, j: int|
            #![trigger identicals[e]@[m1], identicals[e]@[m2], files[i], files[j]]
            0 <= e < identicals.len() && 0 <= m1 < identicals[e]@.len() && 0 <= m2
                < identicals[e]@.len() && 0 <= i < files.len() && 0 <= j < files.len()
                && identicals[e]@[m1]@ == display_of(files[i].path@) && identicals[e]@[m2]@
                == display_of(files[j].path@) ==> files[i].md5 == files[j].md5,
{
    lemma_big_idxs(mgroups);
    let fs = files;
    assert forall|e: int, m1: int, m2: int, i: int, j: int|
        #![trigger identicals[e]@[m1], identicals[e]@[m2], fs[i], fs[j]]
        0 <= e < identicals.len() && 0 <= m1 < identicals[e]@.len() && 0 <= m2
            < identicals[e]@.len() && 0 <= i < fs.len() && 0 <= j < fs.len()
            && identicals[e]@[m1]@ == display_of(fs[i].path@) && identicals[e]@[m2]@
            == display_of(fs[j].path@) implies fs[i].md5 == fs[j].md5 by {
        let gg = big_idxs(mgroups)[e];
        assert(entry_matches(fs, identicals[e]@, mgroups[gg]@));
        assert(from_group(fs, identicals[e]@[m1]@, mgroups[gg]@));
        assert(from_group(fs, identicals[e]@[m2]@, mgroups[gg]@));
        let ma = choose|ma: int|
            0 <= ma < mgroups[gg]@.len() && identicals[e]@[m1]@ == display_of(
                fs[mgroups[gg]@[ma] as int].path@,
            );
        let mb = choose|mb: int|
            0 <= mb < mgroups[gg]@.len() && identicals[e]@[m2]@ == display_of(
                fs[mgroups[gg]@[mb] as int].path@,
            );
        lemma_display_inj(fs, i, mgroups[gg]@[ma] as int);
        lemma_display_inj(fs, j, mgroups[gg]@[mb] as int);
        assert(keys[i] == keys[mgroups[gg]@[0] as int]);
        assert(keys[j] == keys[mgroups[gg]@[0] as int]);
        assert(fs[i].md5 == keys[i] && fs[j].md5 == keys[j]);
    }
}

/// An identity group holds the display of every file sharing a
/// member's content digest.
#[verifier::rlimit(100)]
proof fn lemma_identicals_closed(
    files: Seq<File>,
    keys: Seq<u128>,
    mgroups: Seq<Vec<usize>>,
    identicals: Seq<Vec<String>>,
)
    requires
        distinct_displays(files),
        keys.len() == files.len(),
        forall|x: int| 0 <= x < keys.len() ==> #[trigger] keys[x] == files[x].md5,
        forall|g: int, m: int|
            0 <= g < mgroups.len() && 0 <= m < mgroups[g]@.len() ==> #[trigger] mgroups[g]@[m]
                < keys.len(),
        forall|g: int, m: int|
            0 <= g < mgroups.len() && 0 <= m < mgroups[g]@.len() ==> keys[#[trigger] mgroups[
            g]@[m] as int] == keys[mgroups[g]@[0] as int],
        forall|g: int, j: int|
            #![trigger keys[j], mgroups[g]@[0]]
            0 <= g < mgroups.len() && 0 <= j < keys.len() && keys[j] == keys[mgroups[
            g]@[0] as int] ==> exists|m: int| 0 <= m < mgroups[g]@.len() && mgroups[g]@[m] == j,
        identicals.len() == big_idxs(mgroups).len(),
        forall|e: int|
            0 <= e < identicals.len() ==> entry_matches(
                files,
                #[trigger] identicals[e]@,
                mgroups[big_idxs(mgroups)[e]]@,
            ),
    ensures
        forall|e: int, m: int, i: int, j: int|
            #![trigger identicals[e]@[m], files[i], files[j]]
            0 <= e < identicals.len() && 0 <= m < identicals[e]@.len() && 0 <= i < files.len()
                && 0 <= j < files.len() && identicals[e]@[m]@ == display_of(files[i].path@)
                && files[j].md5 == files[i].md5 ==> group_has(
                identicals[e]@,
                display_of(files[j].path@),
            ),
{
    lemma_big_idxs(mgroups);
    let fs = files;
    assert forall|e: int, m: int, i: int, j: int|
        #![trigger identicals[e]@[m], fs[i], fs[j]]
        0 <= e < identicals.len() && 0 <= m < identicals[e]@.len() && 0 <= i < fs.len() && 0
            <= j < fs.len() && identicals[e]@[m]@ == display_of(fs[i].path@) && fs[j].md5
            == fs[i].md5 implies group_has(identicals[e]@, display_of(fs[j].path@)) by {
        let gg = big_idxs(mgroups)[e];
        assert(entry_matches(fs, identicals[e]@, mgroups[gg]@));
        assert(from_group(fs, identicals[e]@[m]@, mgroups[gg]@));
        let ma = choose|ma: int|
            0 <= ma < mgroups[gg]@.len() && identicals[e]@[m]@ == display_of(
                fs[mgroups[gg]@[ma] as int].path@,
            );
        lemma_display_inj(fs, i, mgroups[gg]@[ma] as int);
        assert(keys[i] == keys[mgroups[gg]@[0] as int]);
        assert(keys[j] == fs[j].md5 && keys[i] == fs[i].md5);
        assert(keys[j] == keys[mgroups[gg]@[0] as int]);
        let mj = choose|mj: int| 0 <= mj < mgroups[gg]@.len() && mgroups[gg]@[mj] == j;
        assert(has_display(fs, identicals[e]@, mgroups[gg]@[mj] as int));
        let mk = choose|mk: int|
            0 <= mk < identicals[e]@.len() && identicals[e]@[mk]@ == display_of(fs[j].path@);
        assert(group_has(identicals[e]@, display_of(fs[j].path@)));
    }
}

/// The expanded identity groups are exactly the display sets of the full
/// content classes of two or more files: complete, sound, pairwise
/// disjoint, and each closed under the shared content digest.
#[verifier::rlimit(100)]
proof fn lemma_identicals_exact(
    files: Seq<File>,
    keys: Seq<u128>,
    mgroups: Seq<Vec<usize>>,
    identicals: Seq<Vec<String>>,
)
    requires
        distinct_displays(files),
        groups_distinct(mgroups),
        keys.len() == files.len(),
        forall|x: int| 0 <= x < keys.len() ==> #[trigger] keys[x] == files[x].md5,
        forall|g: int, m: int|
            0 <= g < mgroups.len() && 0 <= m < mgroups[g]@.len() ==> #[trigger] mgroups[g]@[m]
                < keys.len(),
        forall|g: int, m: int|
            0 <= g < mgroups.len() && 0 <= m < mgroups[g]@.len() ==> keys[#[trigger] mgroups[
            g]@[m] as int] == keys[mgroups[g]@[0] as int],
        forall|g: int, j: int|
            #![trigger keys[j], mgroups[g]@[0]]
            0 <= g < mgroups.len() && 0 <= j < keys.len() && keys[j] == keys[mgroups[
            g]@[0] as int] ==> exists|m: int| 0 <= m < mgroups[g]@.len() && mgroups[g]@[m] == j,
        forall|i: int| 0 <= i < keys.len() ==> #[trigger] covers(mgroups, i),
        forall|g1: int, g2: int|
            0 <= g1 < mgroups.len() && 0 <= g2 < mgroups.len() && g1 != g2
                ==> keys[#[trigger] mgroups[g1]@[0] as int] != keys[#[trigger] mgroups[
            g2]@[0] as int],
        identicals.len() == big_idxs(mgroups).len(),
        forall|e: int|
            0 <= e < identicals.len() ==> entry_matches(
                files,
                #[trigger] identicals[e]@,
                mgroups[big_idxs(mgroups)[e]]@,
            ),
        forall|g: int|
            0 <= g < mgroups.len() && #[trigger] mgroups[g]@.len() >= 2 ==> group_expanded(
                files,
                identicals,
                mgroups[g]@,
            ),
    ensures
        forall|e: int| 0 <= e < identicals.len() ==> #[trigger] identicals[e]@.len() >= 2,
        forall|i2: int, j2: int|
            #![trigger files[i2].md5, files[j2].md5]
            0 <= i2 < files.len() && 0 <= j2 < files.len() && i2 != j2 && files[i2].md5
                == files[j2].md5 ==> in_same_group(
                identicals,
                display_of(files[i2].path@),
                display_of(files[j2].path@),
            ),
        forall|e: int, m: int|
            0 <= e < identicals.len() && 0 <= m < identicals[e]@.len() ==> is_dup_display(
                files,
                #[trigger] identicals[e]@[m]@,
            ),
        forall|e1: int, m1: int, e2: int, m2: int|
            0 <= e1 < identicals.len() && 0 <= m1 < identicals[e1]@.len() && 0 <= e2
                < identicals.len() && 0 <= m2 < identicals[e2]@.len() && e1 != e2
                ==> #[trigger] identicals[e1]@[m1]@ != #[trigger] identicals[e2]@[m2]@,
        forall|e: int, m1: int, m2: int, i: int, j: int|
            #![trigger identicals[e]@[m1], identicals[e]@[m2], files[i], files[j]]
            0 <= e < identicals.len() && 0 <= m1 < identicals[e]@.len() && 0 <= m2
                < identicals[e]@.len() && 0 <= i < files.len() && 0 <= j < files.len()
                && identicals[e]@[m1]@ == display_of(files[i].path@) && identicals[e]@[m2]@
                == display_of(files[j].path@) ==> files[i].md5 == files[j].md5,
        forall|e: int, m: int, i: int, j: int|
            #![trigger identicals[e]@[m], files[i], files[j]]
            0 <= e < identicals.len() && 0 <= m < identicals[e]@.len() && 0 <= i < files.len()
                && 0 <= j < files.len() && identicals[e]@[m]@ == display_of(files[i].path@)
                && files[j].md5 == files[i].md5 ==> group_has(
                identicals[e]@,
                display_of(files[j].path@),
            ),
{
    lemma_identicals_sizes(files, keys, mgroups, identicals);
    lemma_identicals_complete(files, keys, mgroups, identicals);
    lemma_identicals_sound(files, keys, mgroups, identicals);
    lemma_identicals_disjoint(files, keys, mgroups, identicals);
    lemma_identicals_same_class(files, keys, mgroups, identicals);
    lemma_identicals_closed(files, keys, mgroups, identicals);
}

/// Every expanded similarity group holds at least two display paths.
#[verifier::rlimit(100)]
proof fn lemma_similars_sizes(
    files: Seq<File>,
    preps: Seq<usize>,
    sgroups: Seq<Vec<usize>>,
    similars: Seq<Vec<String>>,
    bits: u32,
)
    requires
        similars.len() == big_idxs(sgroups).len(),
        forall|e: int|
            0 <= e < similars.len() ==> entry_matches(
                files,
                #[trigger] similars[e]@,
                sgroups[big_idxs(sgroups)[e]]@,
            ),
    ensures
        forall|e: int| 0 <= e < similars.len() ==> #[trigger] similars[e]@.len() >= 2,
{
    lemma_big_idxs(sgroups);
    let fs = files;
    assert forall|e: int| 0 <= e < similars.len() implies #[trigger] similars[e]@.len() >= 2 by {
        let gg = big_idxs(sgroups)[e];
        assert(entry_matches(fs, similars[e]@, sgroups[gg]@));
        assert(sgroups[gg]@.len() >= 2);
    }
}

/// Every listed display path names a representative with a digest.
#[verifier::rlimit(100)]
proof fn lemma_similars_sound(
    files: Seq<File>,
    preps: Seq<usize>,
    sgroups: Seq<Vec<usize>>,
    similars: Seq<Vec<String>>,
    bits: u32,
)
    requires
        similars.len() == big_idxs(sgroups).len(),
        forall|e: int|
            0 <= e < similars.len() ==> entry_matches(
                files,
                #[trigger] similars[e]@,
                sgroups[big_idxs(sgroups)[e]]@,
            ),
        forall|s: int, m: int|
            0 <= s < sgroups.len() && 0 <= m < sgroups[s]@.len() ==> in_seq(
                preps,
                #[trigger] sgroups[s]@[m],
            ),
        forall|k: int| 0 <= k < preps.len() ==> is_rep(files, #[trigger] preps[k] as int),
        forall|k: int| 0 <= k < preps.len() ==> files[#[trigger] preps[k] as int].ihash is Some,
    ensures
        forall|e: int, m: int|
            0 <= e < similars.len() && 0 <= m < similars[e]@.len() ==> is_rep_display(
                files,
                #[trigger] similars[e]@[m]@,
            ),
{
    lemma_big_idxs(sgroups);
    let fs = files;
    assert forall|e: int, m: int|
        0 <= e < similars.len() && 0 <= m < similars[e]@.len() implies is_rep_display(
        fs,
        #[trigger] similars[e]@[m]@,
    ) by {
        let gg = big_idxs(sgroups)[e];
        assert(entry_matches(fs, similars[e]@, sgroups[gg]@));
        assert(from_group(fs, similars[e]@[m]@, sgroups[gg]@));
        let m2 = choose|m2: int|
            0 <= m2 < sgroups[gg]@.len() && similars[e]@[m]@ == display_of(
                fs[sgroups[gg]@[m2] as int].path@,
            );
        let pw = sgroups[gg]@[m2];
        assert(in_seq(preps, pw));
        let kx = choose|kx: int| 0 <= kx < preps.len() && preps[kx] == pw;
        assert(is_rep(fs, pw as int) && fs[pw as int].ihash is Some);
    }
}

/// Two representatives with chain-connected digests share some
/// similarity group.
#[verifier::rlimit(100)]
proof fn lemma_similars_chain_complete(
    files: Seq<File>,
    preps: Seq<usize>,
    sgroups: Seq<Vec<usize>>,
    similars: Seq<Vec<String>>,
    bits: u32,
)
    requires
        forall|p: int| #[trigger]
            is_rep(files, p) && files[p].ihash is Some ==> exists|k: int|
                0 <= k < preps.len() && preps[k] == p,
        forall|k: int|
            0 <= k < preps.len() ==> in_some_group(sgroups, #[trigger] preps[k]),
        forall|s: int, m: int, k: int|
            0 <= s < sgroups.len() && 0 <= m < sgroups[s]@.len() && 0 <= k < preps.len()
                && chained(
                files,
                preps,
                bits,
                ihash_val(files, #[trigger] sgroups[s]@[m] as int),
                ihash_val(files, #[trigger] preps[k] as int),
            ) ==> in_seq(sgroups[s]@, preps[k]),
        forall|g: int|
            0 <= g < sgroups.len() && #[trigger] sgroups[g]@.len() >= 2 ==> group_expanded(
                files,
                similars,
                sgroups[g]@,
            ),
        forall|s: int, m: int|
            0 <= s < sgroups.len() && 0 <= m < sgroups[s]@.len() ==> #[trigger] sgroups[s]@[m]
                < files.len(),
    ensures
        forall|p: int, q: int|
            #![trigger files[p].ihash, files[q].ihash]
            is_rep(files, p) && is_rep(files, q) && p != q && files[p].ihash is Some
                && files[q].ihash is Some && rep_chained(
                files,
                bits,
                ihash_val(files, p),
                ihash_val(files, q),
            ) ==> in_same_group(
                similars,
                display_of(files[p].path@),
                display_of(files[q].path@),
            ),
{
    lemma_big_idxs(sgroups);
    let fs = files;
    assert forall|p: int, q: int|
        #![trigger fs[p].ihash, fs[q].ihash]
        is_rep(fs, p) && is_rep(fs, q) && p != q && fs[p].ihash is Some && fs[q].ihash is Some
            && rep_chained(fs, bits, ihash_val(fs, p), ihash_val(fs, q)) implies in_same_group(
        similars,
        display_of(fs[p].path@),
        display_of(fs[q].path@),
    ) by {
        lemma_rep_to_chain(fs, preps, bits, ihash_val(fs, p), ihash_val(fs, q));
        let kp = choose|k: int| 0 <= k < preps.len() && preps[k] == p;
        let kq = choose|k: int| 0 <= k < preps.len() && preps[k] == q;
        assert(in_some_group(sgroups, preps[kp]));
        let s = choose|s: int| 0 <= s < sgroups.len() && in_seq(sgroups[s]@, preps[kp]);
        let mp = choose|m: int| 0 <= m < sgroups[s]@.len() && sgroups[s]@[m] == preps[kp];
        assert(ihash_val(fs, sgroups[s]@[mp] as int) == ihash_val(fs, p));
        assert(chained(
            fs,
            preps,
            bits,
            ihash_val(fs, sgroups[s]@[mp] as int),
            ihash_val(fs, preps[kq] as int),
        ));
        assert(in_seq(sgroups[s]@, preps[kq]));
        let mq = choose|m: int| 0 <= m < sgroups[s]@.len() && sgroups[s]@[m] == preps[kq];
        assert(mp != mq);
        assert(sgroups[s]@.len() >= 2);
        assert(group_expanded(fs, similars, sgroups[s]@));
        let e = choose|e: int|
            0 <= e < similars.len() && entry_matches(fs, similars[e]@, sgroups[s]@);
        assert(has_display(fs, similars[e]@, sgroups[s]@[mp] as int));
        assert(has_display(fs, similars[e]@, sgroups[s]@[mq] as int));
        let ma = choose|ma: int|
            0 <= ma < similars[e]@.len() && similars[e]@[ma]@ == display_of(fs[p].path@);
        let mb = choose|mb: int|
            0 <= mb < similars[e]@.len() && similars[e]@[mb]@ == display_of(fs[q].path@);
        assert(group_has(similars[e]@, display_of(fs[p].path@)));
        assert(group_has(similars[e]@, display_of(fs[q].path@)));
        assert(in_same_group(similars, display_of(fs[p].path@), display_of(fs[q].path@)));
    }
}

/// Two representatives with digests within the threshold share some
/// similarity group.
#[verifier::rlimit(100)]
proof fn lemma_similars_complete(
    files: Seq<File>,
    preps: Seq<usize>,
    sgroups: Seq<Vec<usize>>,
    similars: Seq<Vec<String>>,
    bits: u32,
)
    requires
        forall|k: int| 0 <= k < preps.len() ==> is_rep(files, #[trigger] preps[k] as int),
        forall|k: int| 0 <= k < preps.len() ==> files[#[trigger] preps[k] as int].ihash is Some,
        forall|p: int| #[trigger]
            is_rep(files, p) && files[p].ihash is Some ==> exists|k: int|
                0 <= k < preps.len() && preps[k] == p,
        forall|k: int|
            0 <= k < preps.len() ==> in_some_group(sgroups, #[trigger] preps[k]),
        forall|s: int, m: int, k: int|
            0 <= s < sgroups.len() && 0 <= m < sgroups[s]@.len() && 0 <= k < preps.len()
                && chained(
                files,
                preps,
                bits,
                ihash_val(files, #[trigger] sgroups[s]@[m] as int),
                ihash_val(files, #[trigger] preps[k] as int),
            ) ==> in_seq(sgroups[s]@, preps[k]),
        forall|g: int|
            0 <= g < sgroups.len() && #[trigger] sgroups[g]@.len() >= 2 ==> group_expanded(
                files,
                similars,
                sgroups[g]@,
            ),
        forall|s: int, m: int|
            0 <= s < sgroups.len() && 0 <= m < sgroups[s]@.len() ==> #[trigger] sgroups[s]@[m]
                < files.len(),
    ensures
        forall|p: int, q: int|
            #![trigger files[p].ihash, files[q].ihash]
            is_rep(files, p) && is_rep(files, q) && p != q && files[p].ihash is Some
                && files[q].ihash is Some && crate::digest::hamming_of(
                ihash_val(files, p),
                ihash_val(files, q),
            ) <= bits ==> in_same_group(
                similars,
                display_of(files[p].path@),
                display_of(files[q].path@),
            ),
{
    lemma_big_idxs(sgroups);
    let fs = files;
    lemma_similars_chain_complete(files, preps, sgroups, similars, bits);
    assert forall|p: int, q: int|
        #![trigger fs[p].ihash, fs[q].ihash]
        is_rep(fs, p) && is_rep(fs, q) && p != q && fs[p].ihash is Some && fs[q].ihash is Some
            && crate::digest::hamming_of(ihash_val(fs, p), ihash_val(fs, q)) <= bits
        implies in_same_group(similars, display_of(fs[p].path@), display_of(fs[q].path@)) by {
        let kp = choose|k: int| 0 <= k < preps.len() && preps[k] == p;
        let kq = choose|k: int| 0 <= k < preps.len() && preps[k] == q;
        assert(digest_among(fs, preps, ihash_val(fs, p))) by {
            assert(ihash_val(fs, preps[kp] as int) == ihash_val(fs, p));
        }
        assert(digest_among(fs, preps, ihash_val(fs, q))) by {
            assert(ihash_val(fs, preps[kq] as int) == ihash_val(fs, q));
        }
        lemma_chained_link(fs, preps, bits, ihash_val(fs, p), ihash_val(fs, q));
        lemma_chain_to_rep(fs, preps, bits, ihash_val(fs, p), ihash_val(fs, q));
        assert(rep_chained(fs, bits, ihash_val(fs, p), ihash_val(fs, q)));
    }
}

/// Two distinct similarity groups share no display path.
#[verifier::rlimit(100)]
proof fn lemma_similars_disjoint(
    files: Seq<File>,
    preps: Seq<usize>,
    sgroups: Seq<Vec<usize>>,
    similars: Seq<Vec<String>>,
    bits: u32,
)
    requires
        distinct_displays(files),
        forall|s: int, m: int|
            0 <= s < sgroups.len() && 0 <= m < sgroups[s]@.len() ==> #[trigger] sgroups[s]@[m]
                < files.len(),
        forall|s1: int, m1: int, s2: int, m2: int|
            0 <= s1 < sgroups.len() && 0 <= m1 < sgroups[s1]@.len() && 0 <= s2 < sgroups.len()
                && 0 <= m2 < sgroups[s2]@.len() && s1 != s2 ==> #[trigger] sgroups[s1]@[m1]
                != #[trigger] sgroups[s2]@[m2],
        similars.len() == big_idxs(sgroups).len(),
        forall|e: int|
            0 <= e < similars.len() ==> entry_matches(
                files,
                #[trigger] similars[e]@,
                sgroups[big_idxs(sgroups)[e]]@,
            ),
    ensures
        forall|e1: int, m1: int, e2: int, m2: int|
            0 <= e1 < similars.len() && 0 <= m1 < similars[e1]@.len() && 0 <= e2
                < similars.len() && 0 <= m2 < similars[e2]@.len() && e1 != e2
                ==> #[trigger] similars[e1]@[m1]@ != #[trigger] similars[e2]@[m2]@,
{
    lemma_big_idxs(sgroups);
    let fs = files;
    assert forall|e1: int, m1: int, e2: int, m2: int|
        0 <= e1 < similars.len() && 0 <= m1 < similars[e1]@.len() && 0 <= e2 < similars.len()
            && 0 <= m2 < similars[e2]@.len() && e1 != e2 implies #[trigger] similars[e1]@[m1]@
        != #[trigger] similars[e2]@[m2]@ by {
        if similars[e1]@[m1]@ == similars[e2]@[m2]@ {
            let g1 = big_idxs(sgroups)[e1];
            let g2 = big_idxs(sgroups)[e2];
            assert(g1 != g2) by {
                if e1 < e2 {
                    assert(big_idxs(sgroups)[e1] < big_idxs(sgroups)[e2]);
                } else {
                    assert(big_idxs(sgroups)[e2] < big_idxs(sgroups)[e1]);
                }
            }
            assert(entry_matches(fs, similars[e1]@, sgroups[g1]@));
            assert(entry_matches(fs, similars[e2]@, sgroups[g2]@));
            assert(from_group(fs, similars[e1]@[m1]@, sgroups[g1]@));
            assert(from_group(fs, similars[e2]@[m2]@, sgroups[g2]@));
            let ma = choose|ma: int|
                0 <= ma < sgroups[g1]@.len() && similars[e1]@[m1]@ == display_of(
                    fs[sgroups[g1]@[ma] as int].path@,
                );
            let mb = choose|mb: int|
                0 <= mb < sgroups[g2]@.len() && similars[e2]@[m2]@ == display_of(
                    fs[sgroups[g2]@[mb] as int].path@,
                );
            lemma_display_inj(fs, sgroups[g1]@[ma] as int, sgroups[g2]@[mb] as int);
            assert(false);
        }
    }
}

/// The digests of two files displayed within one similarity group are
/// chain-connected among the representatives' digests.
#[verifier::rlimit(100)]
proof fn lemma_similars_connected(
    files: Seq<File>,
    preps: Seq<usize>,
    sgroups: Seq<Vec<usize>>,
    similars: Seq<Vec<String>>,
    bits: u32,
)
    requires
        distinct_displays(files),
        forall|s: int, m: int|
            0 <= s < sgroups.len() && 0 <= m < sgroups[s]@.len() ==> #[trigger] sgroups[s]@[m]
                < files.len(),
        forall|s: int, m1: int, m2: int|
            0 <= s < sgroups.len() && 0 <= m1 < sgroups[s]@.len() && 0 <= m2 < sgroups[s]@.len()
                ==> chained(
                files,
                preps,
                bits,
                ihash_val(files, #[trigger] sgroups[s]@[m1] as int),
                ihash_val(files, #[trigger] sgroups[s]@[m2] as int),
            ),
        forall|k: int| 0 <= k < preps.len() ==> is_rep(files, #[trigger] preps[k] as int),
        forall|k: int| 0 <= k < preps.len() ==> files[#[trigger] preps[k] as int].ihash is Some,
        similars.len() == big_idxs(sgroups).len(),
        forall|e: int|
            0 <= e < similars.len() ==> entry_matches(
                files,
                #[trigger] similars[e]@,
                sgroups[big_idxs(sgroups)[e]]@,
            ),
    ensures
        forall|e: int, m1: int, m2: int, p: int, q: int|
            #![trigger similars[e]@[m1], similars[e]@[m2], files[p], files[q]]
            0 <= e < similars.len() && 0 <= m1 < similars[e]@.len() && 0 <= m2
                < similars[e]@.len() && 0 <= p < files.len() && 0 <= q < files.len()
                && similars[e]@[m1]@ == display_of(files[p].path@) && similars[e]@[m2]@
                == display_of(files[q].path@) ==> rep_chained(
                files,
                bits,
                ihash_val(files, p),
                ihash_val(files, q),
            ),
{
    lemma_big_idxs(sgroups);
    let fs = files;
    assert forall|e: int, m1: int, m2: int, p: int, q: int|
        #![trigger similars[e]@[m1], similars[e]@[m2], fs[p], fs[q]]
        0 <= e < similars.len() && 0 <= m1 < similars[e]@.len() && 0 <= m2 < similars[e]@.len()
            && 0 <= p < fs.len() && 0 <= q < fs.len() && similars[e]@[m1]@ == display_of(
            fs[p].path@,
        ) && similars[e]@[m2]@ == display_of(fs[q].path@) implies rep_chained(
        fs,
        bits,
        ihash_val(fs, p),
        ihash_val(fs, q),
    ) by {
        let gg = big_idxs(sgroups)[e];
        assert(entry_matches(fs, similars[e]@, sgroups[gg]@));
        assert(from_group(fs, similars[e]@[m1]@, sgroups[gg]@));
        assert(from_group(fs, similars[e]@[m2]@, sgroups[gg]@));
        let ma = choose|ma: int|
            0 <= ma < sgroups[gg]@.len() && similars[e]@[m1]@ == display_of(
                fs[sgroups[gg]@[ma] as int].path@,
            );
        let mb = choose|mb: int|
            0 <= mb < sgroups[gg]@.len() && similars[e]@[m2]@ == display_of(
                fs[sgroups[gg]@[mb] as int].path@,
            );
        lemma_display_inj(fs, p, sgroups[gg]@[ma] as int);
        lemma_display_inj(fs, q, sgroups[gg]@[mb] as int);
        assert(chained(
            fs,
            preps,
            bits,
            ihash_val(fs, sgroups[gg]@[ma] as int),
            ihash_val(fs, sgroups[gg]@[mb] as int),
        ));
        lemma_chain_to_rep(fs, preps, bits, ihash_val(fs, p), ihash_val(fs, q));
    }
}

/// The expanded similarity groups are exactly the display sets of the
/// chain-connected clusters of representatives: complete over chains,
/// sound per member and per pair, and pairwise disjoint.
#[verifier::rlimit(100)]
proof fn lemma_similars_exact(
    files: Seq<File>,
    preps: Seq<usize>,
    sgroups: Seq<Vec<usize>>,
    similars: Seq<Vec<String>>,
    bits: u32,
)
    requires
        distinct_displays(files),
        forall|k: int| 0 <= k < preps.len() ==> #[trigger] preps[k] < files.len(),
        forall|k: int| 0 <= k < preps.len() ==> files[#[trigger] preps[k] as int].ihash is Some,
        forall|k: int| 0 <= k < preps.len() ==> is_rep(files, #[trigger] preps[k] as int),
        forall|p: int| #[trigger]
            is_rep(files, p) && files[p].ihash is Some ==> exists|k: int|
                0 <= k < preps.len() && preps[k] == p,
        forall|s: int, m: int|
            0 <= s < sgroups.len() && 0 <= m < sgroups[s]@.len() ==> #[trigger] sgroups[s]@[m]
                < files.len(),
        forall|s: int, m: int|
            0 <= s < sgroups.len() && 0 <= m < sgroups[s]@.len() ==> in_seq(
                preps,
                #[trigger] sgroups[s]@[m],
            ),
        forall|s1: int, m1: int, s2: int, m2: int|
            0 <= s1 < sgroups.len() && 0 <= m1 < sgroups[s1]@.len() && 0 <= s2 < sgroups.len()
                && 0 <= m2 < sgroups[s2]@.len() && s1 != s2 ==> #[trigger] sgroups[s1]@[m1]
                != #[trigger] sgroups[s2]@[m2],
        forall|k: int|
            0 <= k < preps.len() ==> in_some_group(sgroups, #[trigger] preps[k]),
        forall|s: int, m1: int, m2: int|
            0 <= s < sgroups.len() && 0 <= m1 < sgroups[s]@.len() && 0 <= m2 < sgroups[s]@.len()
                ==> chained(
                files,
                preps,
                bits,
                ihash_val(files, #[trigger] sgroups[s]@[m1] as int),
                ihash_val(files, #[trigger] sgroups[s]@[m2] as int),
            ),
        forall|s: int, m: int, k: int|
            0 <= s < sgroups.len() && 0 <= m < sgroups[s]@.len() && 0 <= k < preps.len()
                && chained(
                files,
                preps,
                bits,
                ihash_val(files, #[trigger] sgroups[s]@[m] as int),
                ihash_val(files, #[trigger] preps[k] as int),
            ) ==> in_seq(sgroups[s]@, preps[k]),
        similars.len() == big_idxs(sgroups).len(),
        forall|e: int|
            0 <= e < similars.len() ==> entry_matches(
                files,
                #[trigger] similars[e]@,
                sgroups[big_idxs(sgroups)[e]]@,
            ),
        forall|g: int|
            0 <= g < sgroups.len() && #[trigger] sgroups[g]@.len() >= 2 ==> group_expanded(
                files,
                similars,
                sgroups[g]@,
            ),
    ensures
        forall|e: int| 0 <= e < similars.len() ==> #[trigger] similars[e]@.len() >= 2,
        forall|p: int, q: int|
            #![trigger files[p].ihash, files[q].ihash]
            is_rep(files, p) && is_rep(files, q) && p != q && files[p].ihash is Some
                && files[q].ihash is Some && crate::digest::hamming_of(
                ihash_val(files, p),
                ihash_val(files, q),
            ) <= bits ==> in_same_group(
                similars,
                display_of(files[p].path@),
                display_of(files[q].path@),
            ),
        forall|e: int, m: int|
            0 <= e < similars.len() && 0 <= m < similars[e]@.len() ==> is_rep_display(
                files,
                #[trigger] similars[e]@[m]@,
            ),
        forall|e1: int, m1: int, e2: int, m2: int|
            0 <= e1 < similars.len() && 0 <= m1 < similars[e1]@.len() && 0 <= e2
                < similars.len() && 0 <= m2 < similars[e2]@.len() && e1 != e2
                ==> #[trigger] similars[e1]@[m1]@ != #[trigger] similars[e2]@[m2]@,
        forall|e: int, m1: int, m2: int, p: int, q: int|
            #![trigger similars[e]@[m1], similars[e]@[m2], files[p], files[q]]
            0 <= e < similars.len() && 0 <= m1 < similars[e]@.len() && 0 <= m2
                < similars[e]@.len() && 0 <= p < files.len() && 0 <= q < files.len()
                && similars[e]@[m1]@ == display_of(files[p].path@) && similars[e]@[m2]@
                == display_of(files[q].path@) ==> rep_chained(
                files,
                bits,
                ihash_val(files, p),
                ihash_val(files, q),
            ),
        forall|p: int, q: int|
            #![trigger files[p].ihash, files[q].ihash]
            is_rep(files, p) && is_rep(files, q) && p != q && files[p].ihash is Some
                && files[q].ihash is Some && rep_chained(
                files,
                bits,
                ihash_val(files, p),
                ihash_val(files, q),
            ) ==> in_same_group(
                similars,
                display_of(files[p].path@),
                display_of(files[q].path@),
            ),
{
    lemma_similars_sizes(files, preps, sgroups, similars, bits);
    lemma_similars_complete(files, preps, sgroups, similars, bits);
    lemma_similars_sound(files, preps, sgroups, similars, bits);
    lemma_similars_disjoint(files, preps, sgroups, similars, bits);
    lemma_similars_connected(files, preps, sgroups, similars, bits);
    lemma_similars_chain_complete(files, preps, sgroups, similars, bits);
}

/// Gather per-file fingerprint outcomes into one all-or-nothing result:
/// every file fingerprinted, or the first error. A single unreadable
/// file therefore aborts the whole run and no report is produced.
pub fn collect_files(results: Vec<Result<File, String>>) -> (r: Result<Vec<File>, String>)
    ensures
        r is Ok <==> (forall|m: int| 0 <= m < results@.len() ==> #[trigger] results@[m] is Ok),
        r matches Ok(v) ==> v@.len() == results@.len() && (forall|m: int|
            0 <= m < v@.len() ==> #[trigger] v@[m] == results@[m]->Ok_0),
        r matches Err(e) ==> exists|m: int|
            0 <= m < results@.len() && (((#[trigger] results@[m]) matches Err(e2) && e@ == e2@))
                && (forall|k: int| 0 <= k < m ==> results@[k] is Ok),
{
    let n = results.len();
    let mut m: usize = 0;
    while m < n
        invariant
            m <= n,
            n == results@.len(),
            forall|k: int| 0 <= k < m ==> #[trigger] results@[k] is Ok,
        decreases n - m,
    {
        match &results[m] {
            Ok(_) => {},
            Err(e) => {
                let msg = e.clone();
                proof {
                    assert((results@[m as int] matches Err(e2) && msg@ == e2@));
                    assert(exists|m2: int|
                        0 <= m2 < results@.len() && (((#[trigger] results@[m2]) matches Err(
                            e2,
                        ) && msg@ == e2@)) && (forall|k: int|
                            0 <= k < m2 ==> results@[k] is Ok));
                }
                return Err(msg);
            },
        }
        m = m + 1;
    }
    let ghost orig = results@;
    let mut rest = results;
    let mut out: Vec<File> = Vec::new();
    while rest.len() > 0
        invariant
            out@.len() + rest@.len() == orig.len(),
            forall|k: int| 0 <= k < orig.len() ==> #[trigger] orig[k] is Ok,
            forall|k: int| 0 <= k < rest@.len() ==> #[trigger] rest@[k] == orig[out@.len() + k],
            forall|k: int| 0 <= k < out@.len() ==> #[trigger] out@[k] == orig[k]->Ok_0,
        decreases rest@.len(),
    {
        let ghost before = rest@;
        let r0 = rest.remove(0);
        proof {
            assert(r0 == orig[out@.len() as int]);
            assert forall|k: int| 0 <= k < rest@.len()
                implies #[trigger] rest@[k] == orig[out@.len() + 1 + k] by {
                assert(rest@[k] == before[k + 1]);
            }
        }
        match r0 {
            Ok(f) => {
                out.push(f);
            },
            Err(_) => {
                proof {
                    assert(orig[out@.len() as int] is Ok);
                    assert(false);
                }
            },
        }
    }
    Ok(out)
}

} // verus!
