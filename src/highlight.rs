//! Highlighting of query words in displayed text: the query is split into
//! lower-cased words, and a lower-cased text is cut into segments that are
//! covered by an occurrence of some word and segments that are not.

use vstd::prelude::*;
use crate::text::{views, lower_of, lowercase, chars_of, occurs_at, is_white, is_white_char};

verus! {

/// The words of `s`, as `str::split_whitespace` gives them: its maximal
/// runs of characters other than whitespace, in order.
pub open spec fn words_of(s: Seq<char>) -> Seq<Seq<char>>
    decreases s.len(),
{
    if s.len() == 0 {
        Seq::empty()
    } else {
        let w = words_of(s.drop_last());
        let c = s.last();
        if is_white(c) {
            w
        } else if s.len() >= 2 && !is_white(s[s.len() - 2]) {
            w.update(w.len() - 1, w.last().push(c))
        } else {
            w.push(seq![c])
        }
    }
}

/// The current word of a scan that has reached `i`, starting at `start`.
spec fn open_word(s: Seq<char>, start: int, i: int, in_word: bool) -> Seq<Seq<char>> {
    if in_word {
        seq![s.subrange(start, i)]
    } else {
        Seq::empty()
    }
}

fn split_words(s: &str) -> (r: Vec<String>)
    ensures
        views(r@) == words_of(s@),
{
    let cs = chars_of(s);
    let n = cs.len();
    let mut out: Vec<String> = Vec::new();
    let mut start: usize = 0;
    let mut in_word = false;
    let mut i: usize = 0;
    assert(s@.subrange(0, 0) =~= Seq::<char>::empty());
    assert(views(out@) + open_word(s@, 0, 0, false) =~= Seq::<Seq<char>>::empty());
    while i < n
        invariant
            cs@ == s@,
            n == s@.len(),
            start <= i <= n,
            in_word ==> start < i && !is_white(s@[i - 1]),
            !in_word ==> (i == 0 || is_white(s@[i - 1])),
            words_of(s@.subrange(0, i as int)) == views(out@) + open_word(
                s@,
                start as int,
                i as int,
                in_word,
            ),
        decreases n - i,
    {
        let c = cs[i];
        let ghost t = s@.subrange(0, i + 1);
        assert(t.drop_last() =~= s@.subrange(0, i as int));
        assert(t.last() == c);
        if i >= 1 {
            assert(t[t.len() - 2] == s@[i - 1]);
        }
        if is_white_char(c) {
            if in_word {
                let w = s.substring_char(start, i).to_owned();
                proof {
                    assert(views(out@.push(w)) =~= views(out@).push(w@));
                    assert(views(out@).push(w@) + open_word(s@, (i + 1) as int, i + 1, false)
                        =~= views(out@) + open_word(s@, start as int, i as int, true));
                }
                out.push(w);
                in_word = false;
            } else {
                assert(views(out@) + open_word(s@, (i + 1) as int, i + 1, false) =~= views(out@)
                    + open_word(s@, start as int, i as int, false));
            }
            start = i + 1;
        } else {
            if in_word {
                let ghost p = views(out@) + open_word(s@, start as int, i as int, true);
                assert(s@.subrange(start as int, i as int).push(c) =~= s@.subrange(
                    start as int,
                    i + 1,
                ));
                assert(p.update(p.len() - 1, p.last().push(c)) =~= views(out@) + open_word(
                    s@,
                    start as int,
                    i + 1,
                    true,
                ));
            } else {
                assert(seq![c] =~= s@.subrange(i as int, i + 1));
                assert((views(out@) + open_word(s@, start as int, i as int, false)).push(seq![c])
                    =~= views(out@) + open_word(s@, i as int, i + 1, true));
                start = i;
                in_word = true;
            }
        }
        i += 1;
    }
    assert(s@.subrange(0, n as int) =~= s@);
    if in_word {
        let w = s.substring_char(start, n).to_owned();
        proof {
            assert(views(out@.push(w)) =~= views(out@).push(w@));
            assert(views(out@).push(w@) =~= views(out@) + open_word(s@, start as int, n as int, true));
        }
        out.push(w);
    } else {
        assert(views(out@) + open_word(s@, start as int, n as int, false) =~= views(out@));
    }
    out
}

/// The non-empty words, lower-cased.
pub open spec fn lowered_words(ws: Seq<Seq<char>>) -> Seq<Seq<char>>
    decreases ws.len(),
{
    if ws.len() == 0 {
        Seq::empty()
    } else {
        let rest = lowered_words(ws.drop_last());
        if ws.last().len() > 0 {
            rest.push(lower_of(ws.last()))
        } else {
            rest
        }
    }
}

/// The lower-cased words of a query.
pub fn tokenize_query(q: &str) -> (r: Vec<String>)
    ensures
        views(r@) == lowered_words(words_of(q@)),
{
    let words = split_words(q);
    let ghost ws = views(words@);
    let mut out: Vec<String> = Vec::new();
    let mut i: usize = 0;
    assert(ws.take(0) =~= Seq::<Seq<char>>::empty());
    while i < words.len()
        invariant
            i <= words@.len(),
            ws == views(words@),
            views(out@) == lowered_words(ws.take(i as int)),
        decreases words@.len() - i,
    {
        assert(ws.take(i + 1).drop_last() =~= ws.take(i as int));
        assert(ws.take(i + 1).last() == words@[i as int]@);
        if !words[i].as_str().is_empty() {
            let ghost before = out@;
            out.push(lowercase(words[i].as_str()));
            assert(views(out@) =~= views(before).push(out@.last()@));
        }
        i += 1;
    }
    assert(ws.take(words@.len() as int) =~= ws);
    out
}

/// The starts of the occurrences of the non-empty `t` in `h` from position
/// `from` on, found left to right without overlapping, as repeated
/// `str::find` calls find them.
pub open spec fn occurrences(h: Seq<char>, t: Seq<char>, from: int) -> Seq<int>
    decreases h.len() - from,
{
    if t.len() == 0 || from < 0 || from + t.len() > h.len() {
        Seq::empty()
    } else if h.subrange(from, from + t.len()) == t {
        seq![from] + occurrences(h, t, from + t.len())
    } else {
        occurrences(h, t, from + 1)
    }
}

/// Position `k` lies in an occurrence of `t`.
pub open spec fn covered_by(h: Seq<char>, t: Seq<char>, k: int) -> bool {
    exists|s: int| #[trigger] occurrences(h, t, 0).contains(s) && s <= k < s + t.len()
}

/// Position `k` lies in an occurrence of some token.
pub open spec fn covered(h: Seq<char>, tokens: Seq<Seq<char>>, k: int) -> bool {
    exists|j: int| 0 <= j < tokens.len() && #[trigger] covered_by(h, tokens[j], k)
}

/// A run of positions `start..end`, highlighted or not.
#[derive(Debug, Clone, Copy, PartialEq, Eq, Structural)]
pub struct Segment {
    pub start: usize,
    pub end: usize,
    pub highlighted: bool,
}

/// `segs` cuts `0..n` into maximal runs of positions on which `mark` agrees.
pub open spec fn is_segmentation(segs: Seq<Segment>, n: nat, mark: spec_fn(int) -> bool) -> bool {
    &&& (segs.len() == 0 <==> n == 0)
    &&& segs.len() > 0 ==> segs[0].start == 0 && segs.last().end == n
    &&& forall|i: int| 0 <= i < segs.len() ==> (#[trigger] segs[i]).start < segs[i].end
    &&& forall|i: int|
        0 <= i < segs.len() - 1 ==> (#[trigger] segs[i]).end == segs[i + 1].start
            && segs[i].highlighted != segs[i + 1].highlighted
    &&& forall|i: int, k: int|
        #![trigger segs[i], mark(k)]
        0 <= i < segs.len() && segs[i].start <= k < segs[i].end ==> mark(k)
            == segs[i].highlighted
}

proof fn lemma_mark_step(
    before: Seq<bool>,
    after: Seq<bool>,
    done: spec_fn(int) -> bool,
    found: Seq<int>,
    pos: int,
    m: int,
)
    requires
        before.len() == after.len(),
        forall|x: int|
            0 <= x < before.len() ==> before[x] == (done(x) || exists|s: int|
                #[trigger] found.contains(s) && s <= x < s + m),
        forall|x: int| 0 <= x < after.len() ==> after[x] == (before[x] || (pos <= x < pos + m)),
    ensures
        forall|x: int|
            0 <= x < after.len() ==> after[x] == (done(x) || exists|s: int|
                #[trigger] found.push(pos).contains(s) && s <= x < s + m),
{
    let nf = found.push(pos);
    assert forall|x: int| 0 <= x < after.len() implies after[x] == (done(x) || exists|s: int|
        #[trigger] nf.contains(s) && s <= x < s + m) by {
        let fx = exists|s: int| #[trigger] found.contains(s) && s <= x < s + m;
        let nx = exists|s: int| #[trigger] nf.contains(s) && s <= x < s + m;
        assert(after[x] == (before[x] || (pos <= x < pos + m)));
        assert(before[x] == (done(x) || fx));
        if pos <= x < pos + m {
            assert(nf[found.len() as int] == pos);
            assert(nf.contains(pos));
            assert(nx);
        }
        if fx {
            let s = choose|s: int| #[trigger] found.contains(s) && s <= x < s + m;
            let i = choose|i: int| 0 <= i < found.len() && found[i] == s;
            assert(nf[i] == s);
            assert(nf.contains(s));
            assert(nx);
        }
        if nx {
            let s = choose|s: int| #[trigger] nf.contains(s) && s <= x < s + m;
            if s != pos {
                let i = choose|i: int| 0 <= i < nf.len() && nf[i] == s;
                assert(found[i] == s);
                assert(found.contains(s));
                assert(fx);
            }
        }
    }
}

fn mark_token(h: &Vec<char>, t: &Vec<char>, mask: &mut Vec<bool>, Ghost(done): Ghost<
    spec_fn(int) -> bool,
>)
    requires
        old(mask)@.len() == h@.len(),
        t@.len() > 0,
        forall|k: int| 0 <= k < h@.len() ==> old(mask)@[k] == done(k),
    ensures
        final(mask)@.len() == h@.len(),
        forall|k: int|
            0 <= k < h@.len() ==> final(mask)@[k] == (done(k) || covered_by(h@, t@, k)),
{
    let n = h.len();
    let m = t.len();
    let ghost all = occurrences(h@, t@, 0);
    let ghost mut found: Seq<int> = Seq::empty();
    let mut pos: usize = 0;
    while pos < n && m <= n - pos
        invariant
            n == h@.len(),
            m == t@.len(),
            m > 0,
            mask@.len() == n,
            pos <= n,
            all == occurrences(h@, t@, 0),
            all == found + occurrences(h@, t@, pos as int),
            forall|s: int| #[trigger] found.contains(s) ==> s + m <= pos,
            forall|k: int|
                0 <= k < n ==> mask@[k] == (done(k) || exists|s: int|
                    #[trigger] found.contains(s) && s <= k < s + m),
        decreases n - pos,
    {
        if occurs_at(h, t, pos) {
            let ghost before = mask@;
            assert(forall|x: int|
                0 <= x < n ==> before[x] == (done(x) || exists|s: int|
                    #[trigger] found.contains(s) && s <= x < s + m));
            let mut k: usize = pos;
            while k < pos + m
                invariant
                    pos + m <= n,
                    mask@.len() == n,
                    before.len() == n,
                    pos <= k <= pos + m,
                    forall|x: int|
                        0 <= x < n ==> mask@[x] == (before[x] || (pos <= x < k)),
                decreases pos + m - k,
            {
                mask.set(k, true);
                k += 1;
            }
            assert(k == pos + m);
            proof {
                let nf = found.push(pos as int);
                assert(nf[found.len() as int] == pos as int);
                assert(all == nf + occurrences(h@, t@, pos + m)) by {
                    assert(seq![pos as int] + occurrences(h@, t@, pos + m) == occurrences(
                        h@,
                        t@,
                        pos as int,
                    ));
                    assert(found + (seq![pos as int] + occurrences(h@, t@, pos + m)) =~= nf
                        + occurrences(h@, t@, pos + m));
                }
                assert forall|s: int| #[trigger] nf.contains(s) implies s + m <= pos + m by {
                    if s != pos {
                        let i = choose|i: int| 0 <= i < nf.len() && nf[i] == s;
                        assert(found[i] == s);
                        assert(found.contains(s));
                    }
                }
                let after = mask@;
                let p = pos as int;
                let w = m as int;
                assert(forall|x: int| 0 <= x < after.len() ==> after[x] == (before[x] || (p <= x < p + w)));
                lemma_mark_step(before, after, done, found, p, w);
                found = nf;
            }
            pos = pos + m;
        } else {
            pos = pos + 1;
        }
    }
    proof {
        assert(occurrences(h@, t@, pos as int) =~= Seq::<int>::empty());
        assert(found + Seq::<int>::empty() =~= found);
        assert forall|k: int| 0 <= k < n implies mask@[k] == (done(k) || covered_by(h@, t@, k)) by {
            if exists|s: int| #[trigger] found.contains(s) && s <= k < s + m {
                let s = choose|s: int| #[trigger] found.contains(s) && s <= k < s + m;
                assert(all.contains(s));
            }
            if covered_by(h@, t@, k) {
                let s = choose|s: int| #[trigger] all.contains(s) && s <= k < s + m;
                assert(found.contains(s));
            }
        }
    }
}

fn runs(mask: &Vec<bool>) -> (r: Vec<Segment>)
    ensures
        is_segmentation(r@, mask@.len(), |k: int| mask@[k]),
{
    let ghost mark = |k: int| mask@[k];
    let n = mask.len();
    let mut segs: Vec<Segment> = Vec::new();
    if n == 0 {
        return segs;
    }
    let mut st: usize = 0;
    let mut cur = mask[0];
    let mut i: usize = 1;
    while i < n
        invariant
            n == mask@.len(),
            mark == (|k: int| mask@[k]),
            st < i <= n,
            cur == mask@[st as int],
            forall|k: int| st <= k < i ==> mask@[k] == cur,
            is_segmentation(segs@, st as nat, mark),
            segs@.len() > 0 ==> segs@.last().highlighted != cur,
        decreases n - i,
    {
        if mask[i] != cur {
            let seg = Segment { start: st, end: i, highlighted: cur };
            let ghost before = segs@;
            segs.push(seg);
            assert(segs@ =~= before.push(seg));
            assert forall|a: int, k: int|
                #![trigger segs@[a], mark(k)]
                0 <= a < segs@.len() && segs@[a].start <= k < segs@[a].end implies mark(k)
                    == segs@[a].highlighted by {
                if a < before.len() {
                    assert(segs@[a] == before[a]);
                }
            }
            assert forall|a: int| 0 <= a < segs@.len() - 1 implies (#[trigger] segs@[a]).end
                == segs@[a + 1].start && segs@[a].highlighted != segs@[a + 1].highlighted by {
                if a + 1 < before.len() {
                    assert(segs@[a] == before[a] && segs@[a + 1] == before[a + 1]);
                } else {
                    assert(segs@[a] == before.last());
                }
            }
            st = i;
            cur = mask[i];
        }
        i += 1;
    }
    let seg = Segment { start: st, end: n, highlighted: cur };
    let ghost before = segs@;
    segs.push(seg);
    assert(segs@ =~= before.push(seg));
    assert forall|a: int, k: int|
        #![trigger segs@[a], mark(k)]
        0 <= a < segs@.len() && segs@[a].start <= k < segs@[a].end implies mark(k)
            == segs@[a].highlighted by {
        if a < before.len() {
            assert(segs@[a] == before[a]);
        }
    }
    assert forall|a: int| 0 <= a < segs@.len() - 1 implies (#[trigger] segs@[a]).end
        == segs@[a + 1].start && segs@[a].highlighted != segs@[a + 1].highlighted by {
        if a + 1 < before.len() {
            assert(segs@[a] == before[a] && segs@[a + 1] == before[a + 1]);
        } else {
            assert(segs@[a] == before.last());
        }
    }
    segs
}

proof fn lemma_covered_step(h: Seq<char>, tokens: Seq<Seq<char>>, j: int, k: int)
    requires
        0 <= j < tokens.len(),
    ensures
        covered(h, tokens.take(j + 1), k) == (covered(h, tokens.take(j), k) || covered_by(
            h,
            tokens[j],
            k,
        )),
{
    let a = tokens.take(j);
    let b = tokens.take(j + 1);
    if covered(h, b, k) {
        let i = choose|i: int| 0 <= i < b.len() && #[trigger] covered_by(h, b[i], k);
        if i < j {
            assert(a[i] == b[i]);
        }
    }
    if covered(h, a, k) {
        let i = choose|i: int| 0 <= i < a.len() && #[trigger] covered_by(h, a[i], k);
        assert(b[i] == a[i]);
    }
    if covered_by(h, tokens[j], k) {
        assert(b[j] == tokens[j]);
    }
}

/// Cuts the lower-cased text `lower` into runs of positions (counted in
/// characters) that lie in an occurrence of some non-empty token and runs
/// that do not. Each token's occurrences are found left to right without
/// overlapping.
pub fn highlight_segments(lower: &str, tokens: &[String]) -> (r: Vec<Segment>)
    ensures
        is_segmentation(r@, lower@.len(), |k: int| covered(lower@, views(tokens@), k)),
{
    let h = chars_of(lower);
    let n = h.len();
    let ghost ts = views(tokens@);
    let mut mask: Vec<bool> = Vec::new();
    while mask.len() < n
        invariant
            forall|k: int| 0 <= k < mask@.len() ==> !mask@[k],
            mask@.len() <= n,
        decreases n - mask@.len(),
    {
        mask.push(false);
    }
    let mut j: usize = 0;
    while j < tokens.len()
        invariant
            h@ == lower@,
            n == h@.len(),
            mask@.len() == n,
            ts == views(tokens@),
            j <= tokens@.len(),
            forall|k: int| 0 <= k < n ==> mask@[k] == covered(h@, ts.take(j as int), k),
        decreases tokens@.len() - j,
    {
        let t = chars_of(tokens[j].as_str());
        assert(ts[j as int] == t@);
        let ghost done = |k: int| covered(h@, ts.take(j as int), k);
        if t.len() > 0 {
            mark_token(&h, &t, &mut mask, Ghost(done));
        } else {
            assert forall|k: int| 0 <= k < n implies !covered_by(h@, t@, k) by {
                assert(occurrences(h@, t@, 0) =~= Seq::<int>::empty());
            }
        }
        assert forall|k: int| 0 <= k < n implies mask@[k] == covered(h@, ts.take(j + 1), k) by {
            lemma_covered_step(h@, ts, j as int, k);
        }
        j += 1;
    }
    assert(ts.take(tokens@.len() as int) =~= ts);
    let segs = runs(&mask);
    let ghost cov = |k: int| covered(lower@, views(tokens@), k);
    assert forall|a: int, k: int|
        #![trigger segs@[a], cov(k)]
        0 <= a < segs@.len() && segs@[a].start <= k < segs@[a].end implies cov(k)
            == segs@[a].highlighted by {
        assert(segs@[a].end <= n) by {
            if a < segs@.len() - 1 {
                assert forall|b: int| a <= b < segs@.len() implies segs@[a].end <= (
                    #[trigger] segs@[b]).end by {
                    lemma_ends_grow(segs@, a, b);
                }
                assert(segs@[a].end <= segs@[segs@.len() - 1].end);
            }
        }
        assert((|k: int| mask@[k])(k) == segs@[a].highlighted);
    }
    segs
}

proof fn lemma_ends_grow(segs: Seq<Segment>, a: int, b: int)
    requires
        0 <= a <= b < segs.len(),
        forall|i: int| 0 <= i < segs.len() ==> (#[trigger] segs[i]).start < segs[i].end,
        forall|i: int|
            0 <= i < segs.len() - 1 ==> (#[trigger] segs[i]).end == segs[i + 1].start
                && segs[i].highlighted != segs[i + 1].highlighted,
    ensures
        segs[a].end <= segs[b].end,
    decreases b - a,
{
    if a < b {
        lemma_ends_grow(segs, a + 1, b);
        assert(segs[a].end == segs[a + 1].start);
    }
}

} // verus!
