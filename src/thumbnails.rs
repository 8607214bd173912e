//! Where the thumbnails of a game are published: the libretro thumbnail
//! repositories, one per platform, with one directory per image kind.

use vstd::prelude::*;
use crate::text::{chars_of, string_from_chars, occurs_at, views};
use crate::platform::{before_suffix, platform_of_stem};

verus! {

/// `s` with each occurrence of `pat` replaced by `rep`, scanning from the
/// left without overlaps, as `str::replace` does for a non-empty pattern.
pub open spec fn replaced(s: Seq<char>, pat: Seq<char>, rep: Seq<char>) -> Seq<char>
    decreases s.len(),
{
    if pat.len() == 0 || s.len() < pat.len() {
        s
    } else if s.take(pat.len() as int) == pat {
        rep + replaced(s.skip(pat.len() as int), pat, rep)
    } else {
        seq![s[0]] + replaced(s.drop_first(), pat, rep)
    }
}

proof fn lemma_replaced_short(s: Seq<char>, pat: Seq<char>, rep: Seq<char>)
    requires
        s.len() < pat.len(),
    ensures
        replaced(s, pat, rep) == s,
{
}

fn replace_chars(s: &Vec<char>, pat: &Vec<char>, rep: &Vec<char>) -> (r: Vec<char>)
    requires
        pat@.len() > 0,
    ensures
        r@ == replaced(s@, pat@, rep@),
{
    let n = s.len();
    let mut out: Vec<char> = Vec::new();
    let mut i: usize = 0;
    assert(s@.skip(0) =~= s@);
    while i < n
        invariant
            n == s@.len(),
            pat@.len() > 0,
            i <= n,
            replaced(s@, pat@, rep@) == out@ + replaced(s@.skip(i as int), pat@, rep@),
        decreases n - i,
    {
        let ghost t = s@.skip(i as int);
        if pat.len() <= n - i && occurs_at(s, pat, i) {
            assert(t.take(pat@.len() as int) =~= s@.subrange(i as int, i + pat@.len()));
            assert(t.skip(pat@.len() as int) =~= s@.skip(i + pat@.len()));
            let ghost before = out@;
            let mut k: usize = 0;
            while k < rep.len()
                invariant
                    k <= rep@.len(),
                    out@ == before + rep@.take(k as int),
                decreases rep@.len() - k,
            {
                out.push(rep[k]);
                k += 1;
                assert(out@ =~= before + rep@.take(k as int));
            }
            assert(rep@.take(rep@.len() as int) =~= rep@);
            assert(before + (rep@ + replaced(s@.skip(i + pat@.len()), pat@, rep@)) =~= out@
                + replaced(s@.skip(i + pat@.len()), pat@, rep@));
            i += pat.len();
        } else {
            assert(t.drop_first() =~= s@.skip(i + 1));
            if pat.len() <= n - i {
                assert(t.take(pat@.len() as int) =~= s@.subrange(i as int, i + pat@.len()));
            } else {
                proof {
                    lemma_replaced_short(t, pat@, rep@);
                    lemma_replaced_short(t.drop_first(), pat@, rep@);
                    assert(seq![t[0]] + t.drop_first() =~= t);
                }
            }
            let ghost before = out@;
            out.push(s[i]);
            assert(before + (seq![s@[i as int]] + replaced(s@.skip(i + 1), pat@, rep@)) =~= out@
                + replaced(s@.skip(i + 1), pat@, rep@));
            i += 1;
        }
    }
    assert(s@.skip(n as int) =~= Seq::<char>::empty());
    assert(out@ + Seq::<char>::empty() =~= out@);
    out
}

/// `s` with each occurrence of the non-empty `pat` replaced by `rep`.
pub fn replace_str(s: &str, pat: &str, rep: &str) -> (r: String)
    requires
        pat@.len() > 0,
    ensures
        r@ == replaced(s@, pat@, rep@),
{
    let cs = chars_of(s);
    let ps = chars_of(pat);
    let rs = chars_of(rep);
    let out = replace_chars(&cs, &ps, &rs);
    string_from_chars(&out)
}

/// The directory name of a platform's thumbnail repository.
pub open spec fn thumbnail_dir_of(platform: Seq<char>) -> Seq<char> {
    replaced(
        replaced(replaced(replaced(platform, " - "@, "_-_"@), " "@, "_"@), "/"@, "_"@),
        ":"@,
        "_"@,
    )
}

/// The file name under which a game's thumbnail is published.
pub open spec fn image_name_of(game_name: Seq<char>) -> Seq<char> {
    replaced(replaced(replaced(game_name, "/"@, "_"@), "\\"@, "_"@), ":"@, "_"@)
}

/// The address of a thumbnail.
pub open spec fn image_url_of(dir: Seq<char>, image_type: Seq<char>, game_name: Seq<char>) -> Seq<
    char,
> {
    "https://raw.githubusercontent.com/libretro-thumbnails/"@ + dir + "/master/"@ + image_type
        + "/"@ + image_name_of(game_name) + ".png"@
}

/// The directory name of a platform's thumbnail repository: ` - ` becomes
/// `_-_`, then spaces, `/` and `:` become `_`.
pub fn thumbnail_dir(platform: &str) -> (r: String)
    ensures
        r@ == thumbnail_dir_of(platform@),
{
    proof {
        reveal_strlit(" - ");
        reveal_strlit(" ");
        reveal_strlit("/");
        reveal_strlit(":");
    }
    let a = replace_str(platform, " - ", "_-_");
    let b = replace_str(&a, " ", "_");
    let c = replace_str(&b, "/", "_");
    replace_str(&c, ":", "_")
}

/// The address of the thumbnail of kind `image_type` (such as
/// `Named_Boxarts`) of a game, in the repository `dir`.
pub fn image_url(dir: &str, image_type: &str, game_name: &str) -> (r: String)
    ensures
        r@ == image_url_of(dir@, image_type@, game_name@),
{
    proof {
        reveal_strlit("/");
        reveal_strlit("\\");
        reveal_strlit(":");
    }
    let a = replace_str(game_name, "/", "_");
    let b = replace_str(&a, "\\", "_");
    let name = replace_str(&b, ":", "_");
    let url = "https://raw.githubusercontent.com/libretro-thumbnails/".to_owned();
    url.concat(dir).concat("/master/").concat(image_type).concat("/").concat(name.as_str()).concat(
        ".png",
    )
}

/// The key under which a loaded thumbnail is cached.
pub fn image_cache_key(platform: &str, game_name: &str, image_type: &str) -> (r: String)
    ensures
        r@ == platform@ + "_"@ + game_name@ + "_"@ + image_type@,
{
    platform.to_owned().concat("_").concat(game_name).concat("_").concat(image_type)
}

/// The platforms that have a thumbnail repository, learned from the names of
/// the database files.
pub struct PlatformMap {
    platforms: Vec<String>,
}

impl PlatformMap {
    /// The platforms known.
    pub closed spec fn known(&self) -> Set<Seq<char>> {
        views(self.platforms@).to_set()
    }

    /// The platforms of the database files with stems `stems`.
    pub fn from_stems(stems: &[String]) -> (m: PlatformMap)
        ensures
            forall|p: Seq<char>|
                #[trigger] m.known().contains(p) <==> exists|i: int|
                    0 <= i < stems@.len() && before_suffix(#[trigger] stems@[i]@) == p,
    {
        let mut platforms: Vec<String> = Vec::new();
        let mut i: usize = 0;
        while i < stems.len()
            invariant
                i <= stems@.len(),
                forall|p: Seq<char>|
                    #[trigger] views(platforms@).contains(p) <==> exists|k: int|
                        0 <= k < i && before_suffix(#[trigger] stems@[k]@) == p,
            decreases stems@.len() - i,
        {
            let p = platform_of_stem(stems[i].as_str());
            let ghost before = views(platforms@);
            assert forall|q: Seq<char>| #[trigger]
                views(platforms@.push(p)).contains(q) <==> (before.contains(q) || q == p@) by {
                let after = views(platforms@.push(p));
                assert(after =~= before.push(p@));
                if after.contains(q) {
                    let k = choose|k: int| 0 <= k < after.len() && after[k] == q;
                    if k < before.len() {
                        assert(before[k] == q);
                    }
                }
                if before.contains(q) {
                    let k = choose|k: int| 0 <= k < before.len() && before[k] == q;
                    assert(after[k] == q);
                }
                if q == p@ {
                    assert(after[before.len() as int] == q);
                }
            }
            platforms.push(p);
            assert forall|q: Seq<char>| #[trigger] views(platforms@).contains(q) <==> exists|
                k: int,
            | 0 <= k < i + 1 && before_suffix(#[trigger] stems@[k]@) == q by {
                if q == before_suffix(stems@[i as int]@) {
                    assert(0 <= i < i + 1 && before_suffix(stems@[i as int]@) == q);
                }
            }
            i += 1;
        }
        let m = PlatformMap { platforms };
        assert forall|p: Seq<char>| #[trigger] m.known().contains(p) <==> views(
            m.platforms@,
        ).contains(p) by {}
        m
    }

    /// The thumbnail repository of `platform`, where it is known.
    pub fn thumbnail_dir(&self, platform: &str) -> (r: Option<String>)
        ensures
            match r {
                Some(d) => self.known().contains(platform@) && d@ == thumbnail_dir_of(platform@),
                None => !self.known().contains(platform@),
            },
    {
        let target = platform.to_owned();
        let mut j: usize = 0;
        while j < self.platforms.len()
            invariant
                target@ == platform@,
                j <= self.platforms@.len(),
                forall|k: int| 0 <= k < j ==> self.platforms@[k]@ != platform@,
            decreases self.platforms@.len() - j,
        {
            if self.platforms[j] == target {
                assert(views(self.platforms@)[j as int] == platform@);
                return Some(thumbnail_dir(platform));
            }
            j += 1;
        }
        assert(!views(self.platforms@).contains(platform@)) by {
            if views(self.platforms@).contains(platform@) {
                let k = choose|k: int|
                    0 <= k < self.platforms@.len() && views(self.platforms@)[k]
                        == platform@;
                assert(self.platforms@[k]@ == platform@);
            }
        }
        None
    }

    /// The address of a game's thumbnail of kind `image_type`, where its
    /// platform is known.
    pub fn image_url(&self, platform: &str, game_name: &str, image_type: &str) -> (r: Option<
        String,
    >)
        ensures
            match r {
                Some(u) => self.known().contains(platform@) && u@ == image_url_of(
                    thumbnail_dir_of(platform@),
                    image_type@,
                    game_name@,
                ),
                None => !self.known().contains(platform@),
            },
    {
        match self.thumbnail_dir(platform) {
            Some(d) => Some(image_url(d.as_str(), image_type, game_name)),
            None => None,
        }
    }
}

} // verus!
