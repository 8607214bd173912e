//! The index: the games of all database files, and the facets (distinct
//! platforms, regions and languages) that the filters offer.

use vstd::prelude::*;
use crate::games::{GameEntry, GameRecord, ParseError, records};
use crate::text::{lex_lt, trim_of, split_on, views, trimmed, split_chars, str_lt, lemma_lex_total};

verus! {

/// Each element comes before the next.
pub open spec fn strictly_sorted(s: Seq<Seq<char>>) -> bool {
    forall|i: int| 0 <= i < s.len() - 1 ==> lex_lt(#[trigger] s[i], s[i + 1])
}

/// `s` lists each non-empty value of `values` exactly once, in ascending order.
pub open spec fn is_facet(s: Seq<Seq<char>>, values: Seq<Seq<char>>) -> bool {
    &&& strictly_sorted(s)
    &&& s.no_duplicates()
    &&& forall|w: Seq<char>| #[trigger] s.contains(w) <==> (w.len() > 0 && values.contains(w))
}

/// The trimmed platforms of the entries.
pub open spec fn platform_list(es: Seq<GameRecord>) -> Seq<Seq<char>>
    decreases es.len(),
{
    if es.len() == 0 {
        Seq::empty()
    } else {
        platform_list(es.drop_last()).push(trim_of(es.last().platform))
    }
}

/// The trimmed regions of the entries that have one.
pub open spec fn region_list(es: Seq<GameRecord>) -> Seq<Seq<char>>
    decreases es.len(),
{
    if es.len() == 0 {
        Seq::empty()
    } else {
        let rest = region_list(es.drop_last());
        match es.last().region {
            Some(r) => rest.push(trim_of(r)),
            None => rest,
        }
    }
}

/// The trimmed tokens of a comma-separated list.
pub open spec fn trimmed_tokens(s: Seq<char>) -> Seq<Seq<char>> {
    split_on(s, ',').map_values(|t: Seq<char>| trim_of(t))
}

/// The trimmed comma-separated language tokens of the entries.
pub open spec fn language_list(es: Seq<GameRecord>) -> Seq<Seq<char>>
    decreases es.len(),
{
    if es.len() == 0 {
        Seq::empty()
    } else {
        let rest = language_list(es.drop_last());
        match es.last().languages {
            Some(l) => rest + trimmed_tokens(l),
            None => rest,
        }
    }
}

proof fn lemma_push_contains(s: Seq<Seq<char>>, v: Seq<char>, w: Seq<char>)
    ensures
        s.push(v).contains(w) <==> (s.contains(w) || w == v),
{
    if s.contains(w) {
        let k = choose|k: int| 0 <= k < s.len() && s[k] == w;
        assert(s.push(v)[k] == w);
    }
    if w == v {
        assert(s.push(v)[s.len() as int] == w);
    }
    if s.push(v).contains(w) {
        let k = choose|k: int| 0 <= k < s.push(v).len() && s.push(v)[k] == w;
        if k < s.len() {
            assert(s[k] == w);
        }
    }
}

fn holds(facet: &Vec<String>, v: &String) -> (r: bool)
    ensures
        r == views(facet@).contains(v@),
{
    let mut j: usize = 0;
    while j < facet.len()
        invariant
            j <= facet@.len(),
            forall|k: int| 0 <= k < j ==> facet@[k]@ != v@,
        decreases facet@.len() - j,
    {
        if facet[j] == *v {
            assert(views(facet@)[j as int] == v@);
            return true;
        }
        j += 1;
    }
    assert(!views(facet@).contains(v@)) by {
        if views(facet@).contains(v@) {
            let k = choose|k: int| 0 <= k < views(facet@).len() && views(facet@)[k] == v@;
            assert(facet@[k]@ == v@);
        }
    }
    false
}

fn insert_position(facet: &Vec<String>, v: &String) -> (p: usize)
    ensures
        p <= facet@.len(),
        p > 0 ==> lex_lt(views(facet@)[p - 1], v@),
        p < facet@.len() ==> !lex_lt(views(facet@)[p as int], v@),
{
    let mut p: usize = 0;
    while p < facet.len()
        invariant
            p <= facet@.len(),
            p > 0 ==> lex_lt(views(facet@)[p - 1], v@),
        decreases facet@.len() - p,
    {
        if !str_lt(facet[p].as_str(), v.as_str()) {
            return p;
        }
        p += 1;
    }
    p
}

proof fn lemma_insert_sorted(s: Seq<Seq<char>>, p: int, v: Seq<char>)
    requires
        0 <= p <= s.len(),
        strictly_sorted(s),
        p > 0 ==> lex_lt(s[p - 1], v),
        p < s.len() ==> lex_lt(v, s[p]),
    ensures
        strictly_sorted(s.insert(p, v)),
{
    let nv = s.insert(p, v);
    assert forall|i: int| 0 <= i < nv.len() - 1 implies lex_lt(#[trigger] nv[i], nv[i + 1]) by {
        if i + 1 < p {
            assert(nv[i] == s[i] && nv[i + 1] == s[i + 1]);
            assert(lex_lt(s[i], s[i + 1]));
        } else if i > p {
            assert(nv[i] == s[i - 1] && nv[i + 1] == s[i]);
            assert(lex_lt(s[i - 1], s[i]));
        } else if i + 1 == p {
            assert(nv[i] == s[i] && nv[i + 1] == v);
        } else {
            assert(nv[i] == v && nv[i + 1] == s[i]);
        }
    }
}

proof fn lemma_insert_contains(s: Seq<Seq<char>>, p: int, v: Seq<char>)
    requires
        0 <= p <= s.len(),
    ensures
        forall|w: Seq<char>| #[trigger] s.insert(p, v).contains(w) <==> (s.contains(w) || w == v),
{
    let nv = s.insert(p, v);
    assert forall|w: Seq<char>| #[trigger] nv.contains(w) <==> (s.contains(w) || w == v) by {
        if nv.contains(w) {
            let k = choose|k: int| 0 <= k < nv.len() && nv[k] == w;
            if k < p {
                assert(s[k] == w);
            } else if k > p {
                assert(s[k - 1] == w);
            }
        }
        if s.contains(w) {
            let k = choose|k: int| 0 <= k < s.len() && s[k] == w;
            if k < p {
                assert(nv[k] == w);
            } else {
                assert(nv[k + 1] == w);
            }
        }
        if w == v {
            assert(nv[p] == w);
        }
    }
}

proof fn lemma_insert_distinct(s: Seq<Seq<char>>, p: int, v: Seq<char>)
    requires
        0 <= p <= s.len(),
        s.no_duplicates(),
        !s.contains(v),
    ensures
        s.insert(p, v).no_duplicates(),
{
    let nv = s.insert(p, v);
    assert forall|a: int, b: int| 0 <= a < nv.len() && 0 <= b < nv.len() && a != b implies nv[a]
        != nv[b] by {
        if a != p && b != p {
            let oa = if a < p { a } else { a - 1 };
            let ob = if b < p { b } else { b - 1 };
            assert(nv[a] == s[oa]);
            assert(nv[b] == s[ob]);
        } else if a == p {
            let ob = if b < p { b } else { b - 1 };
            assert(nv[b] == s[ob]);
        } else {
            let oa = if a < p { a } else { a - 1 };
            assert(nv[a] == s[oa]);
        }
    }
}

/// Adds `v` to a facet, where it is not empty and not there yet.
pub fn add_value(facet: &mut Vec<String>, v: String)
    requires
        strictly_sorted(views(old(facet)@)),
        views(old(facet)@).no_duplicates(),
    ensures
        strictly_sorted(views(final(facet)@)),
        views(final(facet)@).no_duplicates(),
        forall|w: Seq<char>|
            #[trigger] views(final(facet)@).contains(w) <==> (views(old(facet)@).contains(w) || (
            w == v@ && w.len() > 0)),
{
    let ghost s = views(facet@);
    if v.as_str().is_empty() || holds(facet, &v) {
        return;
    }
    let p = insert_position(facet, &v);
    if p < facet.len() {
        proof {
            lemma_lex_total(s[p as int], v@);
        }
    }
    let ghost vv = v@;
    facet.insert(p, v);
    assert(views(facet@) =~= s.insert(p as int, vv));
    proof {
        lemma_insert_sorted(s, p as int, vv);
        lemma_insert_contains(s, p as int, vv);
        lemma_insert_distinct(s, p as int, vv);
    }
}

proof fn lemma_extend(
    before: Seq<Seq<char>>,
    after: Seq<Seq<char>>,
    values: Seq<Seq<char>>,
    x: Seq<char>,
)
    requires
        forall|w: Seq<char>| #[trigger] before.contains(w) <==> (w.len() > 0 && values.contains(w)),
        forall|w: Seq<char>|
            #[trigger] after.contains(w) <==> (before.contains(w) || (w == x && w.len() > 0)),
    ensures
        forall|w: Seq<char>|
            #[trigger] after.contains(w) <==> (w.len() > 0 && values.push(x).contains(w)),
{
    assert forall|w: Seq<char>| #[trigger] after.contains(w) <==> (w.len() > 0 && values.push(
        x,
    ).contains(w)) by {
        lemma_push_contains(values, x, w);
        assert(before.contains(w) <==> (w.len() > 0 && values.contains(w)));
        assert(after.contains(w) <==> (before.contains(w) || (w == x && w.len() > 0)));
    }
}

/// The facet of the entries' trimmed platforms.
pub fn platform_facet(entries: &[GameEntry]) -> (r: Vec<String>)
    ensures
        is_facet(views(r@), platform_list(records(entries@))),
{
    let ghost es = records(entries@);
    let mut facet: Vec<String> = Vec::new();
    let mut i: usize = 0;
    assert(es.take(0) =~= Seq::<GameRecord>::empty());
    while i < entries.len()
        invariant
            i <= entries@.len(),
            es == records(entries@),
            strictly_sorted(views(facet@)),
            views(facet@).no_duplicates(),
            forall|w: Seq<char>|
                #[trigger] views(facet@).contains(w) <==> (w.len() > 0 && platform_list(
                    es.take(i as int),
                ).contains(w)),
        decreases entries@.len() - i,
    {
        let ghost before = views(facet@);
        assert(es.take(i + 1).drop_last() =~= es.take(i as int));
        let v = trimmed(entries[i].platform.as_str());
        add_value(&mut facet, v);
        proof {
            lemma_extend(before, views(facet@), platform_list(es.take(i as int)), v@);
        }
        i += 1;
    }
    assert(es.take(entries@.len() as int) =~= es);
    facet
}

/// The facet of the entries' trimmed regions.
pub fn region_facet(entries: &[GameEntry]) -> (r: Vec<String>)
    ensures
        is_facet(views(r@), region_list(records(entries@))),
{
    let ghost es = records(entries@);
    let mut facet: Vec<String> = Vec::new();
    let mut i: usize = 0;
    assert(es.take(0) =~= Seq::<GameRecord>::empty());
    while i < entries.len()
        invariant
            i <= entries@.len(),
            es == records(entries@),
            strictly_sorted(views(facet@)),
            views(facet@).no_duplicates(),
            forall|w: Seq<char>|
                #[trigger] views(facet@).contains(w) <==> (w.len() > 0 && region_list(
                    es.take(i as int),
                ).contains(w)),
        decreases entries@.len() - i,
    {
        let ghost before = views(facet@);
        assert(es.take(i + 1).drop_last() =~= es.take(i as int));
        match &entries[i].region {
            Some(r) => {
                let v = trimmed(r);
                add_value(&mut facet, v);
                proof {
                    lemma_extend(before, views(facet@), region_list(es.take(i as int)), v@);
                }
            },
            None => {},
        }
        i += 1;
    }
    assert(es.take(entries@.len() as int) =~= es);
    facet
}

/// The facet of the entries' languages: every trimmed token of every
/// comma-separated language list.
pub fn language_facet(entries: &[GameEntry]) -> (r: Vec<String>)
    ensures
        is_facet(views(r@), language_list(records(entries@))),
{
    let ghost es = records(entries@);
    let mut facet: Vec<String> = Vec::new();
    let mut i: usize = 0;
    assert(es.take(0) =~= Seq::<GameRecord>::empty());
    while i < entries.len()
        invariant
            i <= entries@.len(),
            es == records(entries@),
            strictly_sorted(views(facet@)),
            views(facet@).no_duplicates(),
            forall|w: Seq<char>|
                #[trigger] views(facet@).contains(w) <==> (w.len() > 0 && language_list(
                    es.take(i as int),
                ).contains(w)),
        decreases entries@.len() - i,
    {
        assert(es.take(i + 1).drop_last() =~= es.take(i as int));
        let ghost done = language_list(es.take(i as int));
        match &entries[i].languages {
            Some(l) => {
                let tokens = split_chars(l, ',');
                let ghost all = trimmed_tokens(l@);
                let mut k: usize = 0;
                assert(done + all.take(0) =~= done);
                while k < tokens.len()
                    invariant
                        k <= tokens@.len(),
                        views(tokens@) == split_on(l@, ','),
                        all == trimmed_tokens(l@),
                        strictly_sorted(views(facet@)),
                        views(facet@).no_duplicates(),
                        forall|w: Seq<char>|
                            #[trigger] views(facet@).contains(w) <==> (w.len() > 0 && (done
                                + all.take(k as int)).contains(w)),
                    decreases tokens@.len() - k,
                {
                    let ghost before = views(facet@);
                    let v = trimmed(&tokens[k]);
                    assert(views(tokens@)[k as int] == tokens@[k as int]@);
                    assert(all[k as int] == v@);
                    assert(done + all.take(k + 1) =~= (done + all.take(k as int)).push(v@));
                    add_value(&mut facet, v);
                    proof {
                        lemma_extend(before, views(facet@), done + all.take(k as int), v@);
                    }
                    k += 1;
                }
                assert(all.take(tokens@.len() as int) =~= all);
            },
            None => {},
        }
        i += 1;
    }
    assert(es.take(entries@.len() as int) =~= es);
    facet
}

/// The games of the files that parsed, in file order; files that failed add
/// nothing.
pub open spec fn parsed_records(parsed: Seq<Result<Vec<GameEntry>, ParseError>>) -> Seq<GameRecord>
    decreases parsed.len(),
{
    if parsed.len() == 0 {
        Seq::empty()
    } else {
        let first = match parsed[0] {
            Ok(v) => records(v@),
            Err(_) => Seq::empty(),
        };
        first + parsed_records(parsed.drop_first())
    }
}

/// The games of all database files, and the facets of their fields.
pub struct GameIndex {
    pub entries: Vec<GameEntry>,
    pub platforms: Vec<String>,
    pub regions: Vec<String>,
    pub languages: Vec<String>,
}

/// Joins the games of the files that parsed, dropping those that failed.
pub fn flatten_parsed(parsed: Vec<Result<Vec<GameEntry>, ParseError>>) -> (r: Vec<GameEntry>)
    ensures
        records(r@) == parsed_records(parsed@),
{
    let ghost all = parsed@;
    let mut rest = parsed;
    let mut out: Vec<GameEntry> = Vec::new();
    while rest.len() > 0
        invariant
            parsed_records(all) == records(out@) + parsed_records(rest@),
        decreases rest@.len(),
    {
        let ghost before = out@;
        let ghost tail = rest@.drop_first();
        let part = rest.remove(0);
        assert(rest@ =~= tail);
        match part {
            Ok(mut v) => {
                let ghost added = records(v@);
                out.append(&mut v);
                assert(records(out@) =~= records(before) + added);
                assert(records(before) + added + parsed_records(rest@) =~= records(before) + (added
                    + parsed_records(rest@)));
            },
            Err(_) => {
                assert(records(before) + Seq::<GameRecord>::empty() =~= records(before));
            },
        }
    }
    assert(records(out@) + parsed_records(rest@) =~= records(out@));
    out
}

impl GameIndex {
    /// The index of the parse results of all database files: the games of the
    /// files that parsed, in file order, and the facets of their trimmed
    /// platforms, trimmed regions and trimmed language tokens.
    pub fn build(parsed: Vec<Result<Vec<GameEntry>, ParseError>>) -> (r: GameIndex)
        ensures
            records(r.entries@) == parsed_records(parsed@),
            is_facet(views(r.platforms@), platform_list(records(r.entries@))),
            is_facet(views(r.regions@), region_list(records(r.entries@))),
            is_facet(views(r.languages@), language_list(records(r.entries@))),
    {
        let entries = flatten_parsed(parsed);
        let platforms = platform_facet(entries.as_slice());
        let regions = region_facet(entries.as_slice());
        let languages = language_facet(entries.as_slice());
        GameIndex { entries, platforms, regions, languages }
    }
}

} // verus!
