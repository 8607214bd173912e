//! File names for renamed ROM files, and the short lists of recently used
//! filter values.

use vstd::prelude::*;
use crate::text::{chars_of, string_from_chars, views};

verus! {

/// How many recent values a list keeps.
pub const RECENT_LIMIT: usize = 3;

/// Characters that file systems refuse in a file name.
pub open spec fn is_forbidden(c: char) -> bool {
    c == '<' || c == '>' || c == ':' || c == '"' || c == '/' || c == '\\' || c == '|' || c == '?'
        || c == '*'
}

pub open spec fn sanitized(s: Seq<char>) -> Seq<char> {
    s.map_values(|c: char| if is_forbidden(c) { '_' } else { c })
}

/// `name` with every character that a file name may not hold replaced by `_`.
pub fn sanitize_filename(name: &str) -> (r: String)
    ensures
        r@ == sanitized(name@),
{
    let cs = chars_of(name);
    let mut out: Vec<char> = Vec::new();
    let mut i: usize = 0;
    while i < cs.len()
        invariant
            cs@ == name@,
            i <= cs@.len(),
            out@ == sanitized(name@).take(i as int),
        decreases cs@.len() - i,
    {
        let c = cs[i];
        let d = if c == '<' || c == '>' || c == ':' || c == '"' || c == '/' || c == '\\' || c == '|'
            || c == '?' || c == '*' {
            '_'
        } else {
            c
        };
        out.push(d);
        i += 1;
        assert(out@ =~= sanitized(name@).take(i as int));
    }
    assert(sanitized(name@).take(cs@.len() as int) =~= sanitized(name@));
    string_from_chars(&out)
}

/// The new name of a file renamed after a game: the sanitized game name and
/// the file's extension, if it has one.
pub fn renamed_file_name(game_name: &str, extension: Option<&str>) -> (r: String)
    ensures
        r@ == match extension {
            Some(e) => sanitized(game_name@) + "."@ + e@,
            None => sanitized(game_name@),
        },
{
    let base = sanitize_filename(game_name);
    match extension {
        Some(e) => base.concat(".").concat(e),
        None => base,
    }
}

/// `s` without its first occurrence of `v`, if any.
pub open spec fn without_first(s: Seq<Seq<char>>, v: Seq<char>) -> Seq<Seq<char>>
    decreases s.len(),
{
    if s.len() == 0 {
        s
    } else if s[0] == v {
        s.drop_first()
    } else {
        seq![s[0]] + without_first(s.drop_first(), v)
    }
}

/// The list after `v` is used: `v` first, then the others in their order,
/// at most [`RECENT_LIMIT`] in all.
pub open spec fn with_recent(s: Seq<Seq<char>>, v: Seq<char>) -> Seq<Seq<char>> {
    let l = seq![v] + without_first(s, v);
    if l.len() <= RECENT_LIMIT {
        l
    } else {
        l.take(RECENT_LIMIT as int)
    }
}

proof fn lemma_without_absent(s: Seq<Seq<char>>, v: Seq<char>)
    requires
        forall|k: int| 0 <= k < s.len() ==> s[k] != v,
    ensures
        without_first(s, v) == s,
    decreases s.len(),
{
    if s.len() > 0 {
        lemma_without_absent(s.drop_first(), v);
        assert(seq![s[0]] + s.drop_first() =~= s);
    }
}

proof fn lemma_without_at(s: Seq<Seq<char>>, v: Seq<char>, j: int)
    requires
        0 <= j < s.len(),
        s[j] == v,
        forall|k: int| 0 <= k < j ==> s[k] != v,
    ensures
        without_first(s, v) == s.take(j) + s.skip(j + 1),
    decreases s.len(),
{
    if j == 0 {
        assert(s.take(0) + s.skip(1) =~= s.drop_first());
    } else {
        lemma_without_at(s.drop_first(), v, j - 1);
        assert(seq![s[0]] + (s.drop_first().take(j - 1) + s.drop_first().skip(j)) =~= s.take(j)
            + s.skip(j + 1));
    }
}

fn first_position(list: &Vec<String>, v: &String) -> (r: Option<usize>)
    ensures
        match r {
            Some(j) => j < list@.len() && list@[j as int]@ == v@ && forall|k: int|
                0 <= k < j ==> list@[k]@ != v@,
            None => forall|k: int| 0 <= k < list@.len() ==> list@[k]@ != v@,
        },
{
    let mut j: usize = 0;
    while j < list.len()
        invariant
            j <= list@.len(),
            forall|k: int| 0 <= k < j ==> list@[k]@ != v@,
        decreases list@.len() - j,
    {
        if list[j] == *v {
            return Some(j);
        }
        j += 1;
    }
    None
}

/// Moves `value` to the front of a list of recently used values, keeping at
/// most [`RECENT_LIMIT`].
pub fn add_recent(list: &mut Vec<String>, value: &str)
    ensures
        views(final(list)@) == with_recent(views(old(list)@), value@),
{
    let ghost s = views(list@);
    let v = value.to_owned();
    match first_position(list, &v) {
        Some(j) => {
            proof {
                assert forall|k: int| 0 <= k < j implies s[k] != v@ by {
                    assert(s[k] == list@[k]@);
                }
                lemma_without_at(s, v@, j as int);
            }
            list.remove(j);
            assert(views(list@) =~= s.take(j as int) + s.skip(j + 1));
        },
        None => {
            proof {
                assert forall|k: int| 0 <= k < s.len() implies s[k] != v@ by {
                    assert(s[k] == list@[k]@);
                }
                lemma_without_absent(s, v@);
            }
            assert(views(list@) =~= s);
        },
    }
    let ghost rest = views(list@);
    list.insert(0, v);
    assert(views(list@) =~= seq![value@] + rest);
    list.truncate(RECENT_LIMIT);
    assert(views(list@) =~= with_recent(s, value@));
}

} // verus!
