//! Ranking and reporting: joining enumerated directories with their scores,
//! ordering the result best-first, and laying out each output line.

use vstd::prelude::*;

use crate::bytes::copy_bytes;
use crate::table::Score;
use crate::table::ScoreTable;
use crate::table::score_view;

verus! {

/// One output row: a score paired with the directory path it ranks.
pub struct RankedResult {
    pub score: Score,
    pub path: Vec<u8>,
}

/// Appends all of `src` to `dst`.
pub(crate) fn push_all(dst: &mut Vec<u8>, src: &Vec<u8>)
    ensures
        final (dst)@ == old(dst)@ + src@,
{
    proof {
        assert(dst@ =~= dst@ + src@.take(0));
    }
    let mut i: usize = 0;
    while i < src.len()
        invariant
            i <= src@.len(),
            dst@ == old(dst)@ + src@.take(i as int),
        decreases src@.len() - i,
    {
        dst.push(src[i]);
        i = i + 1;
        proof {
            assert(dst@ =~= old(dst)@ + src@.take(i as int));
        }
    }
    proof {
        assert(old(dst)@ + src@.take(src@.len() as int) =~= old(dst)@ + src@);
    }
}

/// Pairs every directory with its score from the table, or with the default
/// score where the table binds none; order and length are kept.
pub fn join_scores(dirs: &Vec<Vec<u8>>, table: &ScoreTable, default: &Score) -> (r: Vec<
    RankedResult,
>)
    ensures
        r@.len() == dirs@.len(),
        forall|i: int| 0 <= i < dirs@.len() ==> (#[trigger] r@[i]).path@ == dirs@[i]@,
        forall|i: int|
            0 <= i < dirs@.len() && table@.contains_key(dirs@[i]@) ==> score_view(
                (#[trigger] r@[i]).score,
            ) == table@[dirs@[i]@],
        forall|i: int|
            0 <= i < dirs@.len() && !table@.contains_key(dirs@[i]@) ==> score_view(
                (#[trigger] r@[i]).score,
            ) == score_view(*default),
{
    let mut r: Vec<RankedResult> = Vec::new();
    let mut i: usize = 0;
    while i < dirs.len()
        invariant
            i <= dirs@.len(),
            r@.len() == i,
            forall|j: int| 0 <= j < i ==> (#[trigger] r@[j]).path@ == dirs@[j]@,
            forall|j: int|
                0 <= j < i && table@.contains_key(dirs@[j]@) ==> score_view(
                    (#[trigger] r@[j]).score,
                ) == table@[dirs@[j]@],
            forall|j: int|
                0 <= j < i && !table@.contains_key(dirs@[j]@) ==> score_view(
                    (#[trigger] r@[j]).score,
                ) == score_view(*default),
        decreases dirs@.len() - i,
    {
        let path = copy_bytes(&dirs[i]);
        let score = match table.get(&dirs[i]) {
            Some(s) => s,
            None => default.duplicate(),
        };
        r.push(RankedResult { score, path });
        i = i + 1;
    }
    r
}

/// Non-increasing by score key: every earlier row scores at least as high
/// as every later one.
pub open spec fn sorted_desc(s: Seq<RankedResult>) -> bool {
    forall|i: int, j: int|
        0 <= i <= j < s.len() ==> (#[trigger] s[i]).score.key >= (#[trigger] s[j]).score.key
}

/// Reorders the rows so that higher score keys come first. Rows with equal
/// keys keep no promised relative order.
pub fn sort_by_score_desc(results: Vec<RankedResult>) -> (r: Vec<RankedResult>)
    ensures
        sorted_desc(r@),
        r@.to_multiset() == results@.to_multiset(),
{
    broadcast use vstd::seq_lib::group_to_multiset_ensures;

    let ghost all = results@;
    let mut work = results;
    let mut out: Vec<RankedResult> = Vec::new();
    proof {
        assert(out@ =~= Seq::<RankedResult>::empty());
        vstd::multiset::lemma_multiset_empty_len(out@.to_multiset());
        assert(out@.to_multiset().add(work@.to_multiset()) =~= all.to_multiset());
    }
    while work.len() > 0
        invariant
            out@.to_multiset().add(work@.to_multiset()) == all.to_multiset(),
            sorted_desc(out@),
            forall|i: int, j: int|
                0 <= i < out@.len() && 0 <= j < work@.len() ==> (#[trigger] out@[i]).score.key
                    >= (#[trigger] work@[j]).score.key,
        decreases work@.len(),
    {
        let mut m: usize = 0;
        let mut i: usize = 1;
        while i < work.len()
            invariant
                0 < work@.len(),
                m < i <= work@.len(),
                forall|j: int| 0 <= j < i ==> work@[m as int].score.key
                    >= (#[trigger] work@[j]).score.key,
            decreases work@.len() - i,
        {
            if work[i].score.key > work[m].score.key {
                m = i;
            }
            i = i + 1;
        }
        let ghost work_before = work@;
        let ghost out_before = out@;
        let x = work.remove(m);
        out.push(x);
        proof {
            broadcast use vstd::seq_lib::group_to_multiset_ensures;

            assert(work@ == work_before.remove(m as int));
            assert(work_before.contains(x));
            assert(work_before.to_multiset().count(x) > 0);
            assert(out@.to_multiset().add(work@.to_multiset()) =~= out_before.to_multiset().add(
                work_before.to_multiset(),
            ));
            assert forall|i2: int, j2: int|
                0 <= i2 < out@.len() && 0 <= j2 < work@.len() implies (
            #[trigger] out@[i2]).score.key >= (#[trigger] work@[j2]).score.key by {
                if j2 < m {
                    assert(work@[j2] == work_before[j2]);
                } else {
                    assert(work@[j2] == work_before[j2 + 1]);
                }
            }
        }
    }
    proof {
        broadcast use vstd::seq_lib::group_to_multiset_ensures;

        assert(work@ =~= Seq::<RankedResult>::empty());
        vstd::multiset::lemma_multiset_empty_len(work@.to_multiset());
        assert(out@.to_multiset().add(work@.to_multiset()) =~= out@.to_multiset());
    }
    out
}

/// The width that a rendered score is padded to in an output line.
pub const SCORE_FIELD_WIDTH: usize = 6;

/// A run of `n` spaces (none when `n` is not positive).
pub open spec fn spaces(n: int) -> Seq<u8>
    decreases n,
{
    if n <= 0 {
        Seq::empty()
    } else {
        spaces(n - 1).push(32)
    }
}

/// One output line, without its terminator: the rendered score, padded on
/// the left with spaces to [`SCORE_FIELD_WIDTH`] when shorter, then one
/// space, then the path.
pub open spec fn formatted_line(disp: Seq<u8>, path: Seq<u8>) -> Seq<u8> {
    let pad = if disp.len() < SCORE_FIELD_WIDTH as int {
        spaces(SCORE_FIELD_WIDTH as int - disp.len())
    } else {
        Seq::empty()
    };
    pad + disp + seq![32u8] + path
}

/// Lays out one output line, as [`formatted_line`] describes.
pub fn format_line(score: &Score, path: &Vec<u8>) -> (r: Vec<u8>)
    ensures
        r@ == formatted_line(score.disp@, path@),
{
    let mut r: Vec<u8> = Vec::new();
    let n = if score.disp.len() < SCORE_FIELD_WIDTH {
        SCORE_FIELD_WIDTH - score.disp.len()
    } else {
        0
    };
    let mut i: usize = 0;
    while i < n
        invariant
            i <= n,
            r@ == spaces(i as int),
        decreases n - i,
    {
        r.push(32);
        i = i + 1;
    }
    push_all(&mut r, &score.disp);
    r.push(32);
    push_all(&mut r, path);
    proof {
        assert(r@ =~= formatted_line(score.disp@, path@));
    }
    r
}

/// `base` and `name` joined into one path: a separator is put between them
/// unless `base` is empty or already ends with one.
pub open spec fn joined_path(base: Seq<u8>, name: Seq<u8>) -> Seq<u8> {
    if base.len() == 0 {
        name
    } else if base.last() == 47 {
        base + name
    } else {
        base + seq![47u8] + name
    }
}

/// Joins a base path and a relative name, as [`joined_path`] describes.
pub fn join_path(base: &Vec<u8>, name: &Vec<u8>) -> (r: Vec<u8>)
    ensures
        r@ == joined_path(base@, name@),
{
    let mut r = copy_bytes(base);
    if base.len() > 0 && base[base.len() - 1] != 47 {
        r.push(47);
    }
    push_all(&mut r, name);
    proof {
        assert(r@ =~= joined_path(base@, name@));
    }
    r
}

} // verus!
