//! The cache of thumbnail loads, keyed by platform, game name and image kind,
//! and the decision a request for a thumbnail takes: answer from the cache,
//! or start a fetch, or record that there is nothing to fetch.

use vstd::prelude::*;
use crate::text::views;
use crate::thumbnails::{PlatformMap, image_cache_key, image_url_of, thumbnail_dir_of};

verus! {

/// The state of a thumbnail: loaded (with its image), known to be missing,
/// or being fetched.
pub enum ImageLoadResult<T> {
    Loaded(T),
    NotFound,
    Loading,
}

/// What a request for a thumbnail comes to.
pub enum LoadStep {
    /// The cache already holds a state for the key.
    Cached,
    /// The thumbnail is now loading: fetch this address, then call
    /// [`ImageCache::finish`].
    Fetch(String),
    /// The platform has no thumbnail repository: recorded as not found.
    Missing,
}

/// Thumbnail states by cache key.
pub struct ImageCache<T> {
    keys: Vec<String>,
    states: Vec<ImageLoadResult<T>>,
}

impl<T> ImageCache<T> {
    pub closed spec fn wf(&self) -> bool {
        self.keys@.len() == self.states@.len() && views(self.keys@).no_duplicates()
    }

    /// The cached states.
    pub closed spec fn view(&self) -> Map<Seq<char>, ImageLoadResult<T>> {
        Map::new(
            |k: Seq<char>| views(self.keys@).contains(k),
            |k: Seq<char>| self.states@[views(self.keys@).index_of(k)],
        )
    }

    pub fn new() -> (c: Self)
        ensures
            c.wf(),
            c@ == Map::<Seq<char>, ImageLoadResult<T>>::empty(),
    {
        let c = ImageCache { keys: Vec::new(), states: Vec::new() };
        assert(c@ =~= Map::<Seq<char>, ImageLoadResult<T>>::empty());
        c
    }

    fn position(&self, key: &String) -> (r: Option<usize>)
        requires
            self.wf(),
        ensures
            match r {
                Some(i) => i < self.keys@.len() && self.keys@[i as int]@ == key@,
                None => !views(self.keys@).contains(key@),
            },
    {
        let mut i: usize = 0;
        while i < self.keys.len()
            invariant
                i <= self.keys@.len(),
                forall|j: int| 0 <= j < i ==> self.keys@[j]@ != key@,
            decreases self.keys@.len() - i,
        {
            if self.keys[i] == *key {
                return Some(i);
            }
            i += 1;
        }
        assert(!views(self.keys@).contains(key@)) by {
            if views(self.keys@).contains(key@) {
                let j = choose|j: int| 0 <= j < views(self.keys@).len() && views(self.keys@)[j] == key@;
                assert(self.keys@[j]@ == key@);
            }
        }
        None
    }

    proof fn lemma_index(&self, i: int)
        requires
            self.wf(),
            0 <= i < self.keys@.len(),
        ensures
            views(self.keys@).contains(self.keys@[i]@),
            views(self.keys@).index_of(self.keys@[i]@) == i,
    {
        let v = views(self.keys@);
        assert(v[i] == self.keys@[i]@);
        let j = v.index_of(v[i]);
        assert(v.contains(v[i]));
    }

    /// The state cached under `key`, if any.
    pub fn get(&self, key: &str) -> (r: Option<&ImageLoadResult<T>>)
        requires
            self.wf(),
        ensures
            match r {
                Some(s) => self@.contains_key(key@) && *s == self@[key@],
                None => !self@.contains_key(key@),
            },
    {
        let k = key.to_owned();
        match self.position(&k) {
            Some(i) => {
                proof {
                    self.lemma_index(i as int);
                }
                Some(&self.states[i])
            },
            None => None,
        }
    }

    /// Caches `state` under `key`, replacing what was there.
    pub fn set(&mut self, key: &str, state: ImageLoadResult<T>)
        requires
            old(self).wf(),
        ensures
            final(self).wf(),
            final(self)@ == old(self)@.insert(key@, state),
    {
        let k = key.to_owned();
        let ghost old_map = self@;
        match self.position(&k) {
            Some(i) => {
                proof {
                    self.lemma_index(i as int);
                }
                self.states.set(i, state);
                assert forall|x: Seq<char>| #[trigger] self@.contains_key(x) implies self@[x]
                    == old_map.insert(key@, state)[x] by {
                    if x != key@ {
                        let j = views(self.keys@).index_of(x);
                        assert(views(self.keys@).contains(x));
                        assert(views(self.keys@)[j] == x);
                        assert(j != i);
                    }
                }
                assert(self@ =~= old_map.insert(key@, state));
            },
            None => {
                let ghost old_keys = views(self.keys@);
                self.keys.push(k);
                self.states.push(state);
                let ghost nk = views(self.keys@);
                assert(nk =~= old_keys.push(key@));
                assert forall|a: int, b: int| 0 <= a < nk.len() && 0 <= b < nk.len() && a != b
                    implies nk[a] != nk[b] by {
                    if a < old_keys.len() && b < old_keys.len() {
                        assert(nk[a] == old_keys[a] && nk[b] == old_keys[b]);
                    } else if a < old_keys.len() {
                        assert(old_keys.contains(nk[a]));
                    } else {
                        assert(old_keys.contains(nk[b]));
                    }
                }
                assert forall|x: Seq<char>| #[trigger] nk.contains(x) <==> (old_keys.contains(x)
                    || x == key@) by {
                    if nk.contains(x) {
                        let j = choose|j: int| 0 <= j < nk.len() && nk[j] == x;
                        if j < old_keys.len() {
                            assert(old_keys[j] == x);
                        }
                    }
                    if old_keys.contains(x) {
                        let j = choose|j: int| 0 <= j < old_keys.len() && old_keys[j] == x;
                        assert(nk[j] == x);
                    }
                    if x == key@ {
                        assert(nk[old_keys.len() as int] == x);
                    }
                }
                assert forall|x: Seq<char>| #[trigger] self@.contains_key(x) implies self@[x]
                    == old_map.insert(key@, state)[x] by {
                    let j = nk.index_of(x);
                    assert(nk.contains(x));
                    if x == key@ {
                        assert(nk[old_keys.len() as int] == x);
                        assert(j == old_keys.len());
                    } else {
                        let oj = old_keys.index_of(x);
                        assert(old_keys.contains(x));
                        assert(nk[oj] == x);
                        assert(j == oj);
                    }
                }
                assert(self@ =~= old_map.insert(key@, state));
            },
        }
    }

    /// A request for the thumbnail of kind `image_type` of a game. Where the
    /// cache holds its key, nothing changes. Otherwise, where the platform
    /// has a thumbnail repository, the thumbnail is marked loading and its
    /// address is handed out; where it has none, it is marked not found.
    pub fn begin(&mut self, map: &PlatformMap, platform: &str, game_name: &str, image_type: &str) -> (r: LoadStep)
        requires
            old(self).wf(),
        ensures
            final(self).wf(),
            ({
                let key = platform@ + "_"@ + game_name@ + "_"@ + image_type@;
                if old(self)@.contains_key(key) {
                    r is Cached && final(self)@ == old(self)@
                } else if map.known().contains(platform@) {
                    &&& r matches LoadStep::Fetch(url) && url@ == image_url_of(
                        thumbnail_dir_of(platform@),
                        image_type@,
                        game_name@,
                    )
                    &&& final(self)@ == old(self)@.insert(key, ImageLoadResult::Loading)
                } else {
                    r is Missing && final(self)@ == old(self)@.insert(key, ImageLoadResult::NotFound)
                }
            }),
    {
        let key = image_cache_key(platform, game_name, image_type);
        if self.get(key.as_str()).is_some() {
            return LoadStep::Cached;
        }
        match map.image_url(platform, game_name, image_type) {
            Some(url) => {
                self.set(key.as_str(), ImageLoadResult::Loading);
                LoadStep::Fetch(url)
            },
            None => {
                self.set(key.as_str(), ImageLoadResult::NotFound);
                LoadStep::Missing
            },
        }
    }

    /// Records how a fetch ended: the image where it could be loaded, not
    /// found otherwise.
    pub fn finish(&mut self, platform: &str, game_name: &str, image_type: &str, image: Option<T>)
        requires
            old(self).wf(),
        ensures
            final(self).wf(),
            final(self)@ == old(self)@.insert(
                platform@ + "_"@ + game_name@ + "_"@ + image_type@,
                match image {
                    Some(t) => ImageLoadResult::Loaded(t),
                    None => ImageLoadResult::NotFound,
                },
            ),
    {
        let key = image_cache_key(platform, game_name, image_type);
        let state = match image {
            Some(t) => ImageLoadResult::Loaded(t),
            None => ImageLoadResult::NotFound,
        };
        self.set(key.as_str(), state);
    }
}

} // verus!
