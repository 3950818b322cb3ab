//! Parsing of the score listing printed by the external frecency tool.
//!
//! The listing is text, one entry per line, each line of the form
//! `<score> <path>`: the score is everything up to the first space of the
//! trimmed line, the path is the remainder (so a path may itself contain
//! spaces). Blank lines carry nothing. Which score tokens are numeric is not
//! decided here: this module only cuts the text into candidate
//! (score token, path) pairs.

use vstd::prelude::*;

verus! {

/// The bytes treated as whitespace when lines and fields are trimmed:
/// tab, line feed, vertical tab, form feed, carriage return, space.
pub open spec fn is_ascii_ws(b: u8) -> bool {
    b == 32 || b == 9 || b == 10 || b == 11 || b == 12 || b == 13
}

fn is_ws(b: u8) -> (r: bool)
    ensures
        r == is_ascii_ws(b),
{
    b == 32 || b == 9 || b == 10 || b == 11 || b == 12 || b == 13
}

/// Index of the first occurrence of `b` in `s` at or after `from`, or -1.
pub open spec fn find_byte(s: Seq<u8>, b: u8, from: int) -> int
    decreases s.len() - from,
{
    if from < 0 || from >= s.len() {
        -1
    } else if s[from] == b {
        from
    } else {
        find_byte(s, b, from + 1)
    }
}

proof fn lemma_find_byte_none(s: Seq<u8>, b: u8, from: int)
    requires
        0 <= from <= s.len(),
        forall|j: int| from <= j < s.len() ==> s[j] != b,
    ensures
        find_byte(s, b, from) == -1,
    decreases s.len() - from,
{
    if from < s.len() {
        lemma_find_byte_none(s, b, from + 1);
    }
}

proof fn lemma_find_byte_at(s: Seq<u8>, b: u8, from: int, k: int)
    requires
        0 <= from <= k < s.len(),
        s[k] == b,
        forall|j: int| from <= j < k ==> s[j] != b,
    ensures
        find_byte(s, b, from) == k,
    decreases k - from,
{
    if from < k {
        lemma_find_byte_at(s, b, from + 1, k);
    }
}

/// `s` with leading whitespace removed.
pub open spec fn trim_front(s: Seq<u8>) -> Seq<u8>
    decreases s.len(),
{
    if s.len() > 0 && is_ascii_ws(s[0]) {
        trim_front(s.drop_first())
    } else {
        s
    }
}

/// `s` with trailing whitespace removed.
pub open spec fn trim_back(s: Seq<u8>) -> Seq<u8>
    decreases s.len(),
{
    if s.len() > 0 && is_ascii_ws(s.last()) {
        trim_back(s.drop_last())
    } else {
        s
    }
}

/// `s` with both leading and trailing whitespace removed.
pub open spec fn trimmed(s: Seq<u8>) -> Seq<u8> {
    trim_back(trim_front(s))
}

proof fn lemma_trim_front_skip(s: Seq<u8>, i: int)
    requires
        0 <= i <= s.len(),
        forall|j: int| 0 <= j < i ==> is_ascii_ws(s[j]),
    ensures
        trim_front(s) == trim_front(s.skip(i)),
    decreases i,
{
    if i > 0 {
        assert(s.drop_first() =~= s.skip(1));
        lemma_trim_front_skip(s.skip(1), i - 1);
        assert(s.skip(1).skip(i - 1) =~= s.skip(i));
    } else {
        assert(s.skip(0) =~= s);
    }
}

proof fn lemma_trim_back_take(s: Seq<u8>, i: int)
    requires
        0 <= i <= s.len(),
        forall|j: int| i <= j < s.len() ==> is_ascii_ws(s[j]),
    ensures
        trim_back(s) == trim_back(s.take(i)),
    decreases s.len() - i,
{
    if i < s.len() {
        assert(is_ascii_ws(s.last()));
        assert(s.drop_last() =~= s.take(s.len() - 1));
        lemma_trim_back_take(s.take(s.len() - 1), i);
        assert(s.take(s.len() - 1).take(i) =~= s.take(i));
    } else {
        assert(s.take(s.len() as int) =~= s);
    }
}

/// Returns the bytes of `s` from `lo` (inclusive) to `hi` (exclusive).
pub(crate) fn subvec(s: &Vec<u8>, lo: usize, hi: usize) -> (r: Vec<u8>)
    requires
        lo <= hi <= s@.len(),
    ensures
        r@ == s@.subrange(lo as int, hi as int),
{
    let mut r: Vec<u8> = Vec::new();
    let mut i: usize = lo;
    while i < hi
        invariant
            lo <= i <= hi <= s@.len(),
            r@ == s@.subrange(lo as int, i as int),
        decreases hi - i,
    {
        r.push(s[i]);
        i = i + 1;
        proof {
            assert(r@ =~= s@.subrange(lo as int, i as int));
        }
    }
    r
}

/// Returns `s` with leading and trailing whitespace removed.
pub fn trim(s: &Vec<u8>) -> (r: Vec<u8>)
    ensures
        r@ == trimmed(s@),
{
    let mut lo: usize = 0;
    while lo < s.len() && is_ws(s[lo])
        invariant
            lo <= s@.len(),
            forall|j: int| 0 <= j < lo ==> is_ascii_ws(s@[j]),
        decreases s@.len() - lo,
    {
        lo = lo + 1;
    }
    let mut hi: usize = s.len();
    while hi > lo && is_ws(s[hi - 1])
        invariant
            lo <= hi <= s@.len(),
            forall|j: int| hi <= j < s@.len() ==> is_ascii_ws(s@[j]),
        decreases hi,
    {
        hi = hi - 1;
    }
    let r = subvec(s, lo, hi);
    proof {
        let t = s@.skip(lo as int);
        lemma_trim_front_skip(s@, lo as int);
        assert(trim_front(t) == t);
        lemma_trim_back_take(t, hi - lo);
        assert(t.take(hi - lo) =~= s@.subrange(lo as int, hi as int));
        assert(trim_back(t.take(hi - lo)) == t.take(hi - lo));
    }
    r
}

/// The (score token, path) fields of one line, if the line has any.
///
/// The line is trimmed; an empty result or one without a space yields
/// nothing; otherwise the token is everything before the first space and the
/// path is everything after it, each trimmed again.
pub open spec fn line_fields(line: Seq<u8>) -> Option<(Seq<u8>, Seq<u8>)> {
    let t = trimmed(line);
    let p = find_byte(t, 32, 0);
    if t.len() == 0 || p < 0 {
        None
    } else {
        Some((trimmed(t.take(p)), trimmed(t.skip(p + 1))))
    }
}

/// Cuts one line into its (score token, path) fields, as [`line_fields`]
/// describes.
pub fn parse_line(line: &Vec<u8>) -> (r: Option<(Vec<u8>, Vec<u8>)>)
    ensures
        match r {
            Some(f) => line_fields(line@) == Some((f.0@, f.1@)),
            None => line_fields(line@) is None,
        },
{
    let t = trim(line);
    if t.len() == 0 {
        return None;
    }
    let mut i: usize = 0;
    while i < t.len()
        invariant
            i <= t@.len(),
            t@ == trimmed(line@),
            forall|j: int| 0 <= j < i ==> t@[j] != 32,
        decreases t@.len() - i,
    {
        if t[i] == 32 {
            proof {
                lemma_find_byte_at(t@, 32, 0, i as int);
            }
            let tok = subvec(&t, 0, i);
            let path = subvec(&t, i + 1, t.len());
            let tok = trim(&tok);
            let path = trim(&path);
            proof {
                assert(t@.subrange(0, i as int) =~= t@.take(i as int));
                assert(t@.subrange(i + 1, t@.len() as int) =~= t@.skip(i + 1));
            }
            return Some((tok, path));
        }
        i = i + 1;
    }
    proof {
        lemma_find_byte_none(t@, 32, 0);
    }
    None
}

/// The segments of `s` between line feeds, in order; the line feeds
/// themselves belong to no segment.
pub open spec fn lines_of(s: Seq<u8>) -> Seq<Seq<u8>>
    decreases s.len(),
{
    let p = find_byte(s, 10, 0);
    if 0 <= p < s.len() {
        seq![s.take(p)] + lines_of(s.skip(p + 1))
    } else {
        seq![s]
    }
}

/// Splits `text` at every line feed, as [`lines_of`] describes.
pub fn split_lines(text: &Vec<u8>) -> (r: Vec<Vec<u8>>)
    ensures
        r@.len() == lines_of(text@).len(),
        forall|k: int| 0 <= k < r@.len() ==> (#[trigger] r@[k])@ == lines_of(text@)[k],
{
    let mut r: Vec<Vec<u8>> = Vec::new();
    let ghost mut done: Seq<Seq<u8>> = Seq::empty();
    let mut start: usize = 0;
    let mut i: usize = 0;
    proof {
        assert(text@.skip(0) =~= text@);
        assert(done + lines_of(text@) =~= lines_of(text@));
    }
    while i < text.len()
        invariant
            start <= i <= text@.len(),
            forall|j: int| start <= j < i ==> text@[j] != 10,
            done.len() == r@.len(),
            forall|k: int| 0 <= k < r@.len() ==> (#[trigger] r@[k])@ == done[k],
            lines_of(text@) == done + lines_of(text@.skip(start as int)),
        decreases text@.len() - i,
    {
        if text[i] == 10 {
            let seg = subvec(text, start, i);
            proof {
                let u = text@.skip(start as int);
                assert(u[i - start] == 10);
                lemma_find_byte_at(u, 10, 0, i - start);
                assert(u.take(i - start) =~= text@.subrange(start as int, i as int));
                assert(u.skip(i - start + 1) =~= text@.skip(i + 1));
                assert(lines_of(u) == seq![seg@] + lines_of(text@.skip(i + 1)));
                assert(done + lines_of(u) =~= done.push(seg@) + lines_of(text@.skip(i + 1)));
                done = done.push(seg@);
            }
            r.push(seg);
            start = i + 1;
        }
        i = i + 1;
    }
    let seg = subvec(text, start, text.len());
    proof {
        let u = text@.skip(start as int);
        lemma_find_byte_none(u, 10, 0);
        assert(u =~= text@.subrange(start as int, text@.len() as int));
        assert(lines_of(u) == seq![seg@]);
        assert(done + lines_of(u) =~= done.push(seg@));
        done = done.push(seg@);
    }
    r.push(seg);
    r
}

/// The (score token, path) pairs that the given lines carry, in order:
/// one pair for each line that [`line_fields`] accepts.
pub open spec fn fields_of_lines(ls: Seq<Seq<u8>>) -> Seq<(Seq<u8>, Seq<u8>)>
    decreases ls.len(),
{
    if ls.len() == 0 {
        Seq::empty()
    } else {
        match line_fields(ls[0]) {
            Some(f) => seq![f] + fields_of_lines(ls.drop_first()),
            None => fields_of_lines(ls.drop_first()),
        }
    }
}

/// The (score token, path) pairs of a whole score listing.
pub open spec fn candidates_of(text: Seq<u8>) -> Seq<(Seq<u8>, Seq<u8>)> {
    fields_of_lines(lines_of(text))
}

/// Cuts a whole score listing into its (score token, path) pairs, as
/// [`candidates_of`] describes.
pub fn extract_candidates(text: &Vec<u8>) -> (r: Vec<(Vec<u8>, Vec<u8>)>)
    ensures
        r@.len() == candidates_of(text@).len(),
        forall|k: int| 0 <= k < r@.len() ==> {
            let f = #[trigger] r@[k];
            (f.0@, f.1@) == candidates_of(text@)[k]
        },
{
    let lines = split_lines(text);
    let ghost lv = lines_of(text@);
    let mut r: Vec<(Vec<u8>, Vec<u8>)> = Vec::new();
    let ghost mut done: Seq<(Seq<u8>, Seq<u8>)> = Seq::empty();
    let mut j: usize = 0;
    proof {
        assert(lv.skip(0) =~= lv);
        assert(done + fields_of_lines(lv) =~= fields_of_lines(lv));
    }
    while j < lines.len()
        invariant
            j <= lines@.len(),
            lines@.len() == lv.len(),
            forall|k: int| 0 <= k < lv.len() ==> (#[trigger] lines@[k])@ == lv[k],
            done.len() == r@.len(),
            forall|k: int| 0 <= k < r@.len() ==> {
                let f = #[trigger] r@[k];
                (f.0@, f.1@) == done[k]
            },
            candidates_of(text@) == done + fields_of_lines(lv.skip(j as int)),
        decreases lines@.len() - j,
    {
        proof {
            assert(lv.skip(j as int)[0] == lv[j as int]);
            assert(lv.skip(j as int).drop_first() =~= lv.skip(j + 1));
        }
        match parse_line(&lines[j]) {
            Some(f) => {
                proof {
                    let rest = fields_of_lines(lv.skip(j + 1));
                    assert(fields_of_lines(lv.skip(j as int)) == seq![(f.0@, f.1@)] + rest);
                    assert(done + fields_of_lines(lv.skip(j as int)) =~= done.push((f.0@, f.1@))
                        + rest);
                    done = done.push((f.0@, f.1@));
                }
                r.push(f);
            },
            None => {
                proof {
                    assert(fields_of_lines(lv.skip(j as int)) == fields_of_lines(lv.skip(j + 1)));
                }
            },
        }
        j = j + 1;
    }
    proof {
        assert(fields_of_lines(lv.skip(lv.len() as int)) =~= Seq::<(Seq<u8>, Seq<u8>)>::empty());
        assert(done + fields_of_lines(lv.skip(lv.len() as int)) =~= done);
    }
    r
}

} // verus!
