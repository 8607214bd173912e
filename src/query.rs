//! Filtering the index: free text, platforms, region and language, all
//! compared case-insensitively, with the number of results capped.

use vstd::prelude::*;
use crate::games::{GameEntry, GameRecord, records};
use crate::text::{
    lower_of, trim_of, contains, split_on, views, lowercase, trimmed, chars_of, contains_chars,
    split_chars,
};

verus! {

/// The most results a query returns.
pub const RESULT_LIMIT: usize = 1000;

/// A filter value as the query compares it: trimmed and lower-cased.
pub open spec fn normalized(s: Seq<char>) -> Seq<char> {
    lower_of(trim_of(s))
}

/// The free text occurs in the name or in the archive name.
pub open spec fn text_matches(g: GameRecord, q: Seq<char>) -> bool {
    q.len() == 0 || contains(lower_of(g.name), q) || (g.archive_name is Some && contains(
        lower_of(g.archive_name->0),
        q,
    ))
}

/// The platform is one of those chosen, where any are, compared as whole
/// strings after lower-casing.
pub open spec fn platform_matches(g: GameRecord, platforms: Seq<Seq<char>>) -> bool {
    platforms.len() == 0 || exists|k: int|
        0 <= k < platforms.len() && lower_of(#[trigger] platforms[k]) == lower_of(g.platform)
}

/// The region text occurs in the region.
pub open spec fn region_matches(g: GameRecord, r: Seq<char>) -> bool {
    r.len() == 0 || (g.region is Some && contains(lower_of(g.region->0), r))
}

/// A comma-separated token of `languages` is the language, once normalized.
pub open spec fn has_language(languages: Seq<char>, l: Seq<char>) -> bool {
    exists|k: int|
        0 <= k < split_on(languages, ',').len() && normalized(#[trigger] split_on(languages, ',')[k])
            == l
}

pub open spec fn language_matches(g: GameRecord, l: Seq<char>) -> bool {
    l.len() == 0 || (g.languages is Some && has_language(g.languages->0, l))
}

/// An entry meets every criterion, with `q`, `r` and `l` already normalized.
pub open spec fn matches(
    g: GameRecord,
    q: Seq<char>,
    platforms: Seq<Seq<char>>,
    r: Seq<char>,
    l: Seq<char>,
) -> bool {
    text_matches(g, q) && platform_matches(g, platforms) && region_matches(g, r)
        && language_matches(g, l)
}

/// The entries of `es` that match, in order.
pub open spec fn selected(
    es: Seq<GameRecord>,
    q: Seq<char>,
    platforms: Seq<Seq<char>>,
    r: Seq<char>,
    l: Seq<char>,
) -> Seq<GameRecord>
    decreases es.len(),
{
    if es.len() == 0 {
        Seq::empty()
    } else {
        let rest = selected(es.drop_last(), q, platforms, r, l);
        if matches(es.last(), q, platforms, r, l) {
            rest.push(es.last())
        } else {
            rest
        }
    }
}

/// The first `n` elements of `s`, or all of them.
pub open spec fn capped<T>(s: Seq<T>, n: nat) -> Seq<T> {
    if s.len() <= n {
        s
    } else {
        s.take(n as int)
    }
}

pub open spec fn ref_records(v: Seq<&GameEntry>) -> Seq<GameRecord> {
    v.map_values(|e: &GameEntry| e@)
}

/// The matches among a prefix lead the matches among the whole.
pub proof fn lemma_selected_prefix(
    es: Seq<GameRecord>,
    i: int,
    q: Seq<char>,
    platforms: Seq<Seq<char>>,
    r: Seq<char>,
    l: Seq<char>,
)
    requires
        0 <= i <= es.len(),
    ensures
        selected(es.take(i), q, platforms, r, l).len() <= selected(es, q, platforms, r, l).len(),
        selected(es, q, platforms, r, l).take(selected(es.take(i), q, platforms, r, l).len() as int)
            == selected(es.take(i), q, platforms, r, l),
    decreases es.len(),
{
    let whole = selected(es, q, platforms, r, l);
    if i == es.len() {
        assert(es.take(i) =~= es);
        assert(whole.take(whole.len() as int) =~= whole);
    } else {
        assert(es.drop_last().take(i) =~= es.take(i));
        lemma_selected_prefix(es.drop_last(), i, q, platforms, r, l);
        let part = selected(es.take(i), q, platforms, r, l);
        let before = selected(es.drop_last(), q, platforms, r, l);
        if matches(es.last(), q, platforms, r, l) {
            assert(whole.take(part.len() as int) =~= before.take(part.len() as int));
        }
    }
}

/// Where every entry matches, the query keeps them all, in order.
pub proof fn lemma_all_selected(
    es: Seq<GameRecord>,
    q: Seq<char>,
    platforms: Seq<Seq<char>>,
    r: Seq<char>,
    l: Seq<char>,
)
    requires
        forall|i: int| 0 <= i < es.len() ==> matches(#[trigger] es[i], q, platforms, r, l),
    ensures
        selected(es, q, platforms, r, l) == es,
    decreases es.len(),
{
    if es.len() > 0 {
        let init = es.drop_last();
        assert forall|i: int| 0 <= i < init.len() implies matches(
            #[trigger] init[i],
            q,
            platforms,
            r,
            l,
        ) by {
            assert(init[i] == es[i]);
        }
        lemma_all_selected(init, q, platforms, r, l);
        assert(matches(es[es.len() - 1], q, platforms, r, l));
        assert(init.push(es.last()) =~= es);
    }
}

/// The result cap: on an index whose entries all match, a query returns
/// exactly [`RESULT_LIMIT`] entries where there are more, and all of them
/// otherwise.
pub proof fn lemma_result_cap(
    es: Seq<GameRecord>,
    q: Seq<char>,
    platforms: Seq<Seq<char>>,
    r: Seq<char>,
    l: Seq<char>,
)
    requires
        forall|i: int| 0 <= i < es.len() ==> matches(#[trigger] es[i], q, platforms, r, l),
    ensures
        capped(selected(es, q, platforms, r, l), RESULT_LIMIT as nat).len() == if es.len()
            <= RESULT_LIMIT {
            es.len()
        } else {
            RESULT_LIMIT as nat
        },
{
    lemma_all_selected(es, q, platforms, r, l);
}

fn text_ok(g: &GameEntry, q: &Vec<char>) -> (b: bool)
    ensures
        b == text_matches(g@, q@),
{
    if q.len() == 0 {
        return true;
    }
    let name = chars_of(&lowercase(&g.name));
    if contains_chars(&name, q) {
        return true;
    }
    match &g.archive_name {
        Some(a) => {
            let an = chars_of(&lowercase(a));
            contains_chars(&an, q)
        },
        None => false,
    }
}

fn platform_ok(g: &GameEntry, platforms: &[String]) -> (b: bool)
    ensures
        b == platform_matches(g@, views(platforms@)),
{
    if platforms.len() == 0 {
        return true;
    }
    let mine = lowercase(g.platform.as_str());
    let mut j: usize = 0;
    while j < platforms.len()
        invariant
            mine@ == lower_of(g.platform@),
            j <= platforms@.len(),
            forall|k: int| 0 <= k < j ==> lower_of(platforms@[k]@) != lower_of(g.platform@),
        decreases platforms@.len() - j,
    {
        let other = lowercase(platforms[j].as_str());
        if other == mine {
            assert(views(platforms@)[j as int] == platforms@[j as int]@);
            return true;
        }
        j += 1;
    }
    assert forall|k: int| 0 <= k < views(platforms@).len() implies lower_of(
        #[trigger] views(platforms@)[k],
    ) != lower_of(g.platform@) by {
        assert(views(platforms@)[k] == platforms@[k]@);
    }
    false
}

fn region_ok(g: &GameEntry, r: &Vec<char>) -> (b: bool)
    ensures
        b == region_matches(g@, r@),
{
    if r.len() == 0 {
        return true;
    }
    match &g.region {
        Some(v) => {
            let lv = chars_of(&lowercase(v));
            contains_chars(&lv, r)
        },
        None => false,
    }
}

/// Whether a token of the comma-separated `languages` is `l`.
pub fn language_in(languages: &str, l: &String) -> (b: bool)
    ensures
        b == has_language(languages@, l@),
{
    let tokens = split_chars(languages, ',');
    let mut k: usize = 0;
    while k < tokens.len()
        invariant
            k <= tokens@.len(),
            views(tokens@) == split_on(languages@, ','),
            forall|m: int| 0 <= m < k ==> normalized(split_on(languages@, ',')[m]) != l@,
        decreases tokens@.len() - k,
    {
        let t = lowercase(&trimmed(&tokens[k]));
        assert(split_on(languages@, ',')[k as int] == tokens@[k as int]@);
        if t == *l {
            return true;
        }
        k += 1;
    }
    false
}

fn language_ok(g: &GameEntry, l: &String) -> (b: bool)
    ensures
        b == language_matches(g@, l@),
{
    if l.as_str().is_empty() {
        return true;
    }
    match &g.languages {
        Some(v) => language_in(v, l),
        None => false,
    }
}

/// The entries of `index` that meet every given criterion, in index order,
/// and at most [`RESULT_LIMIT`] of them. Each criterion is trimmed and
/// lower-cased first, and an empty one is met by every entry: the free text
/// must occur in the lower-cased name or archive name; the platform must
/// equal one of `platforms` as a whole string, both lower-cased, where any
/// are given; the region text must occur in
/// the lower-cased region; the language must equal a trimmed, lower-cased
/// comma-separated token of the languages. A criterion that is empty after
/// trimming stays empty, so it is met by every entry.
pub fn filter_results<'a>(
    index: &'a [GameEntry],
    query: &str,
    platforms: &[String],
    region: &str,
    language: &str,
) -> (res: Vec<&'a GameEntry>)
    ensures
        ref_records(res@) == capped(
            selected(
                records(index@),
                normalized(query@),
                views(platforms@),
                normalized(region@),
                normalized(language@),
            ),
            RESULT_LIMIT as nat,
        ),
        trim_of(query@).len() == 0 ==> normalized(query@).len() == 0,
        trim_of(region@).len() == 0 ==> normalized(region@).len() == 0,
        trim_of(language@).len() == 0 ==> normalized(language@).len() == 0,
{
    let q = chars_of(&lowercase(&trimmed(query)));
    let r = chars_of(&lowercase(&trimmed(region)));
    let l = lowercase(&trimmed(language));
    let ghost es = records(index@);
    let ghost ps = views(platforms@);
    let mut out: Vec<&'a GameEntry> = Vec::new();
    let mut i: usize = 0;
    assert(es.take(0) =~= Seq::<GameRecord>::empty());
    while i < index.len()
        invariant
            i <= index@.len(),
            es == records(index@),
            ps == views(platforms@),
            q@ == normalized(query@),
            r@ == normalized(region@),
            l@ == normalized(language@),
            trim_of(query@).len() == 0 ==> normalized(query@).len() == 0,
            trim_of(region@).len() == 0 ==> normalized(region@).len() == 0,
            trim_of(language@).len() == 0 ==> normalized(language@).len() == 0,
            out@.len() < RESULT_LIMIT,
            ref_records(out@) == selected(es.take(i as int), q@, ps, r@, l@),
        decreases index@.len() - i,
    {
        let g = &index[i];
        assert(es.take(i + 1).drop_last() =~= es.take(i as int));
        assert(es.take(i + 1).last() == g@);
        if text_ok(g, &q) && platform_ok(g, platforms) && region_ok(g, &r) && language_ok(g, &l) {
            let ghost before = out@;
            out.push(g);
            assert(ref_records(out@) =~= ref_records(before).push(g@));
            if out.len() == RESULT_LIMIT {
                proof {
                    lemma_selected_prefix(es, i + 1, q@, ps, r@, l@);
                    let all = selected(es, q@, ps, r@, l@);
                    assert(ref_records(out@) =~= capped(all, RESULT_LIMIT as nat));
                }
                return out;
            }
        }
        i += 1;
    }
    assert(es.take(index@.len() as int) =~= es);
    out
}

} // verus!
