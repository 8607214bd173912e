//! Platform names, inferred from the names of database files.

use vstd::prelude::*;
use vstd::string::StrSliceExecFns;

verus! {

/// What `Path::file_stem` gives for a path, as text.
pub uninterp spec fn file_stem_of(path: Seq<char>) -> Option<Seq<char>>;

/// The view of an optional string.
pub open spec fn opt_view(o: Option<String>) -> Option<Seq<char>> {
    match o {
        Some(s) => Some(s@),
        None => None,
    }
}

/// Relies on `Path::file_stem` (the file name without its last extension, or
/// nothing where the path names no file) and `OsStr::to_string_lossy`.
#[verifier::external_body]
fn file_stem(path: &str) -> (r: Option<String>)
    ensures
        opt_view(r) == file_stem_of(path@),
{
    std::path::Path::new(path).file_stem().map(|s| s.to_string_lossy().into_owned())
}

/// The part of `s` before the first occurrence of `" ("`, or all of `s`.
pub open spec fn before_suffix(s: Seq<char>) -> Seq<char>
    decreases s.len(),
{
    if s.len() < 2 {
        s
    } else if s[0] == ' ' && s[1] == '(' {
        Seq::empty()
    } else {
        seq![s[0]] + before_suffix(s.drop_first())
    }
}

/// Strips a parenthesised suffix such as a region or version tag from a file stem.
pub fn platform_of_stem(stem: &str) -> (r: String)
    ensures
        r@ == before_suffix(stem@),
{
    let n = stem.unicode_len();
    if n == 0 {
        return stem.to_owned();
    }
    let mut i: usize = 0;
    assert(stem@.skip(0) =~= stem@);
    while i < n - 1
        invariant
            n == stem@.len(),
            i < n,
            before_suffix(stem@) == stem@.subrange(0, i as int) + before_suffix(stem@.skip(i as int)),
        decreases n - i,
    {
        let ghost s = stem@.skip(i as int);
        if stem.get_char(i) == ' ' && stem.get_char(i + 1) == '(' {
            assert(stem@.subrange(0, i as int) + Seq::<char>::empty() =~= stem@.subrange(0, i as int));
            return stem.substring_char(0, i).to_owned();
        }
        assert(s.drop_first() =~= stem@.skip(i + 1));
        assert(stem@.subrange(0, i as int) + (seq![s[0]] + before_suffix(s.drop_first()))
            =~= stem@.subrange(0, i + 1) + before_suffix(stem@.skip(i + 1)));
        i += 1;
    }
    assert(stem@.subrange(0, i as int) + stem@.skip(i as int) =~= stem@);
    stem.to_owned()
}

/// The platform that a database file describes: its file stem, without a
/// parenthesised suffix; `None` where the path has no file stem.
pub fn infer_platform_from_filename(path: &str) -> (r: Option<String>)
    ensures
        opt_view(r) == match file_stem_of(path@) {
            Some(stem) => Some(before_suffix(stem)),
            None => None,
        },
{
    match file_stem(path) {
        Some(stem) => Some(platform_of_stem(&stem)),
        None => None,
    }
}

} // verus!
