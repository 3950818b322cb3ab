//! The score table: a mapping from directory path to relevance score,
//! built fresh from the parsed score listing, later entries for the same
//! path overwriting earlier ones.

use vstd::prelude::*;

use crate::bytes::bytes_eq;
use crate::bytes::copy_bytes;

verus! {

/// A relevance score, as the ranking logic sees it.
///
/// The numeric value itself never enters the library: `key` orders scores
/// (a larger key means a larger score), and `disp` is the score's rendered
/// text, to one decimal place. Both are produced outside, from the
/// floating-point value that the external tool printed.
pub struct Score {
    /// Order key: sorts as the numeric score value does.
    pub key: u64,
    /// The score rendered as text, to one decimal place.
    pub disp: Vec<u8>,
}

/// The mathematical value of a score: its order key and rendered text.
pub open spec fn score_view(s: Score) -> (u64, Seq<u8>) {
    (s.key, s.disp@)
}

impl Score {
    /// Returns a score equal to this one.
    pub fn duplicate(&self) -> (r: Score)
        ensures
            score_view(r) == score_view(*self),
    {
        Score { key: self.key, disp: copy_bytes(&self.disp) }
    }
}

/// The mapping that a run of entries denotes: each entry binds its path,
/// later entries overwriting earlier ones.
spec fn map_of(es: Seq<(Vec<u8>, Score)>) -> Map<Seq<u8>, (u64, Seq<u8>)>
    decreases es.len(),
{
    if es.len() == 0 {
        Map::empty()
    } else {
        map_of(es.drop_last()).insert(es.last().0@, score_view(es.last().1))
    }
}

/// A mapping from directory path to score.
pub struct ScoreTable {
    entries: Vec<(Vec<u8>, Score)>,
}

impl View for ScoreTable {
    type V = Map<Seq<u8>, (u64, Seq<u8>)>;

    closed spec fn view(&self) -> Map<Seq<u8>, (u64, Seq<u8>)> {
        map_of(self.entries@)
    }
}

proof fn lemma_map_of_last_match(es: Seq<(Vec<u8>, Score)>, i: int)
    requires
        0 <= i < es.len(),
        forall|j: int| i < j < es.len() ==> (#[trigger] es[j]).0@ != es[i].0@,
    ensures
        map_of(es).contains_key(es[i].0@),
        map_of(es)[es[i].0@] == score_view(es[i].1),
    decreases es.len(),
{
    if i < es.len() - 1 {
        assert(es.last().0@ != es[i].0@);
        lemma_map_of_last_match(es.drop_last(), i);
    }
}

proof fn lemma_map_of_no_match(es: Seq<(Vec<u8>, Score)>, p: Seq<u8>)
    requires
        forall|j: int| 0 <= j < es.len() ==> (#[trigger] es[j]).0@ != p,
    ensures
        !map_of(es).contains_key(p),
    decreases es.len(),
{
    if es.len() > 0 {
        lemma_map_of_no_match(es.drop_last(), p);
    }
}

impl ScoreTable {
    /// Returns an empty table.
    pub fn new() -> (t: ScoreTable)
        ensures
            t@ == Map::<Seq<u8>, (u64, Seq<u8>)>::empty(),
    {
        ScoreTable { entries: Vec::new() }
    }

    /// Binds `path` to `score`, overwriting any earlier binding.
    pub fn insert(&mut self, path: Vec<u8>, score: Score)
        ensures
            final(self)@ == old(self)@.insert(path@, score_view(score)),
    {
        self.entries.push((path, score));
        proof {
            assert(self.entries@.drop_last() =~= old(self).entries@);
        }
    }

    /// Looks `path` up, returning its score if the table binds one.
    pub fn get(&self, path: &Vec<u8>) -> (r: Option<Score>)
        ensures
            match r {
                Some(s) => self@.contains_key(path@) && score_view(s) == self@[path@],
                None => !self@.contains_key(path@),
            },
    {
        let mut i: usize = self.entries.len();
        while i > 0
            invariant
                i <= self.entries@.len(),
                forall|j: int| i <= j < self.entries@.len() ==> (#[trigger] self.entries@[j]).0@
                    != path@,
            decreases i,
        {
            i = i - 1;
            if bytes_eq(&self.entries[i].0, path) {
                proof {
                    lemma_map_of_last_match(self.entries@, i as int);
                }
                let key = self.entries[i].1.key;
                let disp = copy_bytes(&self.entries[i].1.disp);
                return Some(Score { key, disp });
            }
        }
        proof {
            lemma_map_of_no_match(self.entries@, path@);
        }
        None
    }
}

/// The mapping that a run of (path, parsed score) pairs builds: pairs whose
/// score token did not parse carry `None` and contribute nothing; the rest
/// bind their path, later pairs overwriting earlier ones.
pub open spec fn table_of(ps: Seq<(Vec<u8>, Option<Score>)>) -> Map<Seq<u8>, (u64, Seq<u8>)>
    decreases ps.len(),
{
    if ps.len() == 0 {
        Map::empty()
    } else {
        let m = table_of(ps.drop_last());
        match ps.last().1 {
            Some(s) => m.insert(ps.last().0@, score_view(s)),
            None => m,
        }
    }
}

/// Builds the score table from (path, parsed score) pairs, as [`table_of`]
/// describes: pairs without a score are skipped, later pairs overwrite
/// earlier ones.
pub fn build_table(pairs: Vec<(Vec<u8>, Option<Score>)>) -> (t: ScoreTable)
    ensures
        t@ == table_of(pairs@),
{
    let ghost all = pairs@;
    let mut t = ScoreTable::new();
    let mut rest = pairs;
    while rest.len() > 0
        invariant
            rest@.len() <= all.len(),
            rest@ =~= all.skip(all.len() - rest@.len()),
            t@ == table_of(all.take(all.len() - rest@.len())),
        decreases rest@.len(),
    {
        let ghost k = all.len() - rest@.len();
        let e = rest.remove(0);
        proof {
            assert(e == all[k]);
            assert(rest@ =~= all.skip(k + 1));
            assert(all.take(k + 1).drop_last() =~= all.take(k));
            assert(all.take(k + 1).last() == all[k]);
        }
        match e.1 {
            Some(s) => {
                t.insert(e.0, s);
            },
            None => {},
        }
    }
    proof {
        assert(all.take(all.len() as int) =~= all);
    }
    t
}

/// A path is bound in the built table exactly when some pair carries it
/// with a score that parsed.
pub proof fn lemma_table_contains(ps: Seq<(Vec<u8>, Option<Score>)>, p: Seq<u8>)
    ensures
        table_of(ps).contains_key(p) <==> exists|k: int|
            0 <= k < ps.len() && (#[trigger] ps[k]).1 is Some && ps[k].0@ == p,
    decreases ps.len(),
{
    if ps.len() > 0 {
        lemma_table_contains(ps.drop_last(), p);
        assert(forall|k: int| 0 <= k < ps.len() - 1 ==> (#[trigger] ps[k]) == ps.drop_last()[k]);
        if table_of(ps).contains_key(p) {
            if ps.last().1 is Some && ps.last().0@ == p {
                assert(0 <= ps.len() - 1 < ps.len() && (ps[ps.len() - 1]).1 is Some && ps[ps.len()
                    - 1].0@ == p);
            } else {
                let k = choose|k: int|
                    0 <= k < ps.drop_last().len() && (#[trigger] ps.drop_last()[k]).1 is Some
                        && ps.drop_last()[k].0@ == p;
                assert(0 <= k < ps.len() && (ps[k]).1 is Some && ps[k].0@ == p);
            }
        }
        if exists|k: int| 0 <= k < ps.len() && (#[trigger] ps[k]).1 is Some && ps[k].0@ == p {
            let k = choose|k: int|
                0 <= k < ps.len() && (#[trigger] ps[k]).1 is Some && ps[k].0@ == p;
            if k < ps.len() - 1 {
                assert(ps.drop_last()[k] == ps[k]);
                assert(table_of(ps.drop_last()).contains_key(p));
            }
        }
    }
}

/// Later duplicates win: the built table binds a path to the score of the
/// last pair that carries that path with a score that parsed.
pub proof fn lemma_table_last_wins(ps: Seq<(Vec<u8>, Option<Score>)>, k: int)
    requires
        0 <= k < ps.len(),
        ps[k].1 is Some,
        forall|j: int| k < j < ps.len() ==> !((#[trigger] ps[j]).1 is Some && ps[j].0@ == ps[k].0@),
    ensures
        table_of(ps).contains_key(ps[k].0@),
        table_of(ps)[ps[k].0@] == score_view(ps[k].1.unwrap()),
    decreases ps.len(),
{
    if k == ps.len() - 1 {
    } else {
        assert(forall|j: int| 0 <= j < ps.len() - 1 ==> (#[trigger] ps.drop_last()[j]) == ps[j]);
        lemma_table_last_wins(ps.drop_last(), k);
        assert(!(ps.last().1 is Some && ps.last().0@ == ps[k].0@));
    }
}

} // verus!
