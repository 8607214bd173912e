//! Game records, and the streaming parser that builds them from a database
//! file's token stream.
//!
//! Metadata of a game may stand at three levels: on the `<game>` element
//! itself, on an `<archive>` element inside it (the catalogued release), and
//! on a `<details>` element inside it (a fallback for older schemas). The
//! parser merges them by that precedence.

use vstd::prelude::*;
use crate::events::{XmlAttr, XmlEvent, XmlTag, read_events, xml_stream};
use crate::platform::{opt_view, infer_platform_from_filename, file_stem_of, before_suffix};

verus! {

/// One game of a database file.
#[derive(Debug, Clone)]
pub struct GameEntry {
    /// The platform, inferred once per file from its name.
    pub platform: String,
    pub name: String,
    /// The name of the catalogued archive, where it has one.
    pub archive_name: Option<String>,
    pub region: Option<String>,
    /// A comma-separated list of language codes.
    pub languages: Option<String>,
    /// The file that the game was read from.
    pub file_path: String,
    /// The position of the game among the top-level `<game>` elements of its
    /// file, named or not, counted from 0 in document order.
    pub game_idx: usize,
}

/// The mathematical content of a [`GameEntry`].
pub struct GameRecord {
    pub platform: Seq<char>,
    pub name: Seq<char>,
    pub archive_name: Option<Seq<char>>,
    pub region: Option<Seq<char>>,
    pub languages: Option<Seq<char>>,
    pub file_path: Seq<char>,
    pub game_idx: nat,
}

impl View for GameEntry {
    type V = GameRecord;

    open spec fn view(&self) -> GameRecord {
        GameRecord {
            platform: self.platform@,
            name: self.name@,
            archive_name: opt_view(self.archive_name),
            region: opt_view(self.region),
            languages: opt_view(self.languages),
            file_path: self.file_path@,
            game_idx: self.game_idx as nat,
        }
    }
}

pub open spec fn records(v: Seq<GameEntry>) -> Seq<GameRecord> {
    v.map_values(|e: GameEntry| e@)
}

/// Why a database file yields no games.
#[derive(Debug, Clone, Copy, PartialEq, Eq, Structural)]
pub enum ParseError {
    /// The tokenizer reported a malformed document.
    Malformed,
}

/// The bytes of `game`.
pub open spec fn game_tag() -> Seq<u8> {
    seq![103u8, 97u8, 109u8, 101u8]
}

/// The bytes of `archive`.
pub open spec fn archive_tag() -> Seq<u8> {
    seq![97u8, 114u8, 99u8, 104u8, 105u8, 118u8, 101u8]
}

/// The bytes of `details`.
pub open spec fn details_tag() -> Seq<u8> {
    seq![100u8, 101u8, 116u8, 97u8, 105u8, 108u8, 115u8]
}

/// The bytes of `name`.
pub open spec fn name_key() -> Seq<u8> {
    seq![110u8, 97u8, 109u8, 101u8]
}

/// The bytes of `region`.
pub open spec fn region_key() -> Seq<u8> {
    seq![114u8, 101u8, 103u8, 105u8, 111u8, 110u8]
}

/// The bytes of `languages`.
pub open spec fn languages_key() -> Seq<u8> {
    seq![108u8, 97u8, 110u8, 103u8, 117u8, 97u8, 103u8, 101u8, 115u8]
}

pub fn bytes_eq(v: &Vec<u8>, w: &[u8]) -> (r: bool)
    ensures
        r == (v@ == w@),
{
    if v.len() != w.len() {
        return false;
    }
    let mut i: usize = 0;
    while i < v.len()
        invariant
            v@.len() == w@.len(),
            forall|k: int| 0 <= k < i ==> v@[k] == w@[k],
        decreases v@.len() - i,
    {
        if v[i] != w[i] {
            return false;
        }
        i += 1;
    }
    assert(v@ =~= w@);
    true
}

pub(crate) fn is_game(v: &Vec<u8>) -> (r: bool)
    ensures
        r == (v@ == game_tag()),
{
    let w: [u8; 4] = [103u8, 97u8, 109u8, 101u8];
    assert(w@ =~= game_tag());
    bytes_eq(v, &w)
}

fn is_archive(v: &Vec<u8>) -> (r: bool)
    ensures
        r == (v@ == archive_tag()),
{
    let w: [u8; 7] = [97u8, 114u8, 99u8, 104u8, 105u8, 118u8, 101u8];
    assert(w@ =~= archive_tag());
    bytes_eq(v, &w)
}

fn is_details(v: &Vec<u8>) -> (r: bool)
    ensures
        r == (v@ == details_tag()),
{
    let w: [u8; 7] = [100u8, 101u8, 116u8, 97u8, 105u8, 108u8, 115u8];
    assert(w@ =~= details_tag());
    bytes_eq(v, &w)
}

/// The value of the last well-formed attribute with key `key`: `None` where
/// there is none, `Some(None)` where its value could not be decoded.
pub open spec fn find_attr(attrs: Seq<Option<XmlAttr>>, key: Seq<u8>) -> Option<Option<Seq<char>>>
    decreases attrs.len(),
{
    if attrs.len() == 0 {
        None
    } else {
        match attrs.last() {
            Some(a) => if a.key@ == key {
                Some(opt_view(a.value))
            } else {
                find_attr(attrs.drop_last(), key)
            },
            None => find_attr(attrs.drop_last(), key),
        }
    }
}

pub open spec fn opt2_view(o: Option<Option<String>>) -> Option<Option<Seq<char>>> {
    match o {
        Some(v) => Some(opt_view(v)),
        None => None,
    }
}

fn clone_opt(o: &Option<String>) -> (r: Option<String>)
    ensures
        opt_view(r) == opt_view(*o),
{
    match o {
        Some(s) => Some(s.clone()),
        None => None,
    }
}

fn attr_value(attrs: &Vec<Option<XmlAttr>>, key: &[u8]) -> (r: Option<Option<String>>)
    ensures
        opt2_view(r) == find_attr(attrs@, key@),
{
    let mut found: Option<Option<String>> = None;
    let mut i: usize = 0;
    assert(attrs@.subrange(0, 0) =~= Seq::<Option<XmlAttr>>::empty());
    while i < attrs.len()
        invariant
            i <= attrs@.len(),
            opt2_view(found) == find_attr(attrs@.subrange(0, i as int), key@),
        decreases attrs@.len() - i,
    {
        assert(attrs@.subrange(0, i + 1).drop_last() =~= attrs@.subrange(0, i as int));
        match &attrs[i] {
            Some(a) => {
                if bytes_eq(&a.key, key) {
                    found = Some(clone_opt(&a.value));
                }
            },
            None => {},
        }
        i += 1;
    }
    assert(attrs@.subrange(0, attrs@.len() as int) =~= attrs@);
    found
}

fn name_attr(attrs: &Vec<Option<XmlAttr>>) -> (r: Option<Option<String>>)
    ensures
        opt2_view(r) == find_attr(attrs@, name_key()),
{
    let w: [u8; 4] = [110u8, 97u8, 109u8, 101u8];
    assert(w@ =~= name_key());
    attr_value(attrs, &w)
}

fn region_attr(attrs: &Vec<Option<XmlAttr>>) -> (r: Option<Option<String>>)
    ensures
        opt2_view(r) == find_attr(attrs@, region_key()),
{
    let w: [u8; 6] = [114u8, 101u8, 103u8, 105u8, 111u8, 110u8];
    assert(w@ =~= region_key());
    attr_value(attrs, &w)
}

fn languages_attr(attrs: &Vec<Option<XmlAttr>>) -> (r: Option<Option<String>>)
    ensures
        opt2_view(r) == find_attr(attrs@, languages_key()),
{
    let w: [u8; 9] = [108u8, 97u8, 110u8, 103u8, 117u8, 97u8, 103u8, 101u8, 115u8];
    assert(w@ =~= languages_key());
    attr_value(attrs, &w)
}

/// What the parser holds while it is inside a top-level `<game>` element:
/// the game's position and the values found at each level.
pub struct Holders {
    pub idx: nat,
    pub game_name: Option<Seq<char>>,
    pub game_region: Option<Seq<char>>,
    pub game_languages: Option<Seq<char>>,
    pub archive_region: Option<Seq<char>>,
    pub archive_languages: Option<Seq<char>>,
    pub archive_name: Option<Seq<char>>,
    pub details_region: Option<Seq<char>>,
}

pub open spec fn empty_holders() -> Holders {
    Holders {
        idx: 0,
        game_name: None,
        game_region: None,
        game_languages: None,
        archive_region: None,
        archive_languages: None,
        archive_name: None,
        details_region: None,
    }
}

/// A game-level attribute: its decoded value where it is present.
pub open spec fn present(found: Option<Option<Seq<char>>>) -> Option<Seq<char>> {
    match found {
        Some(v) => v,
        None => None,
    }
}

/// An archive-level attribute that is present replaces the held value (with
/// the empty string where it cannot be decoded); one that is absent keeps it.
pub open spec fn archive_update(found: Option<Option<Seq<char>>>, prev: Option<Seq<char>>) -> Option<
    Seq<char>,
> {
    match found {
        Some(Some(v)) => Some(v),
        Some(None) => Some(Seq::empty()),
        None => prev,
    }
}

/// Entering the top-level `<game>` at position `idx`: its own attributes,
/// and nothing from a nested level.
pub open spec fn open_game(t: XmlTag, idx: nat) -> Holders {
    Holders {
        idx,
        game_name: present(find_attr(t.attrs@, name_key())),
        game_region: present(find_attr(t.attrs@, region_key())),
        game_languages: present(find_attr(t.attrs@, languages_key())),
        archive_region: None,
        archive_languages: None,
        archive_name: None,
        details_region: None,
    }
}

/// An `<archive>` inside a game: its attributes overwrite earlier archives'.
pub open spec fn enter_archive(h: Holders, t: XmlTag) -> Holders {
    Holders {
        archive_region: archive_update(find_attr(t.attrs@, region_key()), h.archive_region),
        archive_languages: archive_update(
            find_attr(t.attrs@, languages_key()),
            h.archive_languages,
        ),
        archive_name: archive_update(find_attr(t.attrs@, name_key()), h.archive_name),
        ..h
    }
}

/// A `<details>` region is consulted only while no region is known at all.
pub open spec fn details_open(h: Holders) -> bool {
    h.archive_region is None && h.game_region is None && h.details_region is None
}

pub open spec fn enter_details(h: Holders, t: XmlTag) -> Holders {
    if details_open(h) {
        Holders { details_region: present(find_attr(t.attrs@, region_key())), ..h }
    } else {
        h
    }
}

/// A tag other than a top-level `<game>`, start or self-closing, met
/// `inside` a game or not.
pub open spec fn on_tag(h: Holders, t: XmlTag, inside: bool) -> Holders {
    if t.name@ == archive_tag() && inside {
        enter_archive(h, t)
    } else if t.name@ == details_tag() && inside {
        enter_details(h, t)
    } else {
        h
    }
}

/// The first value that is present, in order of precedence.
pub open spec fn first_of(
    a: Option<Seq<char>>,
    b: Option<Seq<char>>,
    c: Option<Seq<char>>,
) -> Option<Seq<char>> {
    if a is Some {
        a
    } else if b is Some {
        b
    } else {
        c
    }
}

/// The record of a named game when its element closes.
pub open spec fn record_of(h: Holders, platform: Seq<char>, path: Seq<char>) -> GameRecord {
    GameRecord {
        platform,
        name: h.game_name->0,
        archive_name: h.archive_name,
        region: first_of(h.archive_region, h.game_region, h.details_region),
        languages: first_of(h.archive_languages, h.game_languages, None),
        file_path: path,
        game_idx: h.idx,
    }
}

/// The records after a game closes: one more where the game has a name.
pub open spec fn emit(
    entries: Seq<GameRecord>,
    h: Holders,
    platform: Seq<char>,
    path: Seq<char>,
) -> Seq<GameRecord> {
    if h.game_name is Some {
        entries.push(record_of(h, platform, path))
    } else {
        entries
    }
}

/// The number of open `<game>` elements after the event `ev`, from `d`.
pub open spec fn depth_after(d: nat, ev: XmlEvent) -> nat {
    match ev {
        XmlEvent::Start(t) => if t.name@ == game_tag() {
            d + 1
        } else {
            d
        },
        XmlEvent::End(n) => if n@ == game_tag() && d > 0 {
            (d - 1) as nat
        } else {
            d
        },
        _ => d,
    }
}

/// The event is a top-level `<game>` tag, start or self-closing, where `d`
/// `<game>` elements are open. The top-level `<game>` elements of a file are
/// numbered 0, 1, 2, ... in document order, named or not: this is the
/// position of a game for the parser and the extractor alike.
pub open spec fn top_game(d: nat, ev: XmlEvent) -> bool {
    d == 0 && match ev {
        XmlEvent::Start(t) => t.name@ == game_tag(),
        XmlEvent::Empty(t) => t.name@ == game_tag(),
        _ => false,
    }
}

/// The parser's state: what it holds, how many `<game>` elements are open,
/// how many top-level ones have been met, and the games emitted so far.
pub struct Collected {
    pub holders: Holders,
    pub depth: nat,
    pub seen: nat,
    pub entries: Seq<GameRecord>,
}

pub open spec fn start_state() -> Collected {
    Collected { holders: empty_holders(), depth: 0, seen: 0, entries: Seq::empty() }
}

/// One event. A top-level `<game>` start tag opens a game at the next
/// position; a self-closing one opens and closes it at once; the end tag of
/// the top-level game closes it. Closing emits a record where the game has a
/// name, and clears all holders.
pub open spec fn step(c: Collected, ev: XmlEvent, platform: Seq<char>, path: Seq<char>) -> Collected {
    let d = depth_after(c.depth, ev);
    if top_game(c.depth, ev) {
        match ev {
            XmlEvent::Start(t) => Collected {
                holders: open_game(t, c.seen),
                depth: d,
                seen: c.seen + 1,
                entries: c.entries,
            },
            XmlEvent::Empty(t) => Collected {
                holders: empty_holders(),
                depth: d,
                seen: c.seen + 1,
                entries: emit(c.entries, open_game(t, c.seen), platform, path),
            },
            _ => c,
        }
    } else {
        match ev {
            XmlEvent::Start(t) => Collected {
                holders: on_tag(c.holders, t, c.depth > 0),
                depth: d,
                ..c
            },
            XmlEvent::Empty(t) => Collected { holders: on_tag(c.holders, t, c.depth > 0), ..c },
            XmlEvent::End(n) => if n@ == game_tag() && c.depth == 1 {
                Collected {
                    holders: empty_holders(),
                    depth: d,
                    seen: c.seen,
                    entries: emit(c.entries, c.holders, platform, path),
                }
            } else {
                Collected { depth: d, ..c }
            },
            _ => c,
        }
    }
}

/// The games of the events `evs`, from state `c`: up to the end of input, or
/// an error at the first malformed event.
pub open spec fn run(c: Collected, evs: Seq<XmlEvent>, platform: Seq<char>, path: Seq<char>) -> Result<
    Seq<GameRecord>,
    ParseError,
>
    decreases evs.len(),
{
    if evs.len() == 0 || evs[0] is Eof {
        Ok(c.entries)
    } else if evs[0] is Malformed {
        Err(ParseError::Malformed)
    } else {
        run(step(c, evs[0], platform, path), evs.drop_first(), platform, path)
    }
}

/// The games of a token stream.
pub open spec fn games_of(evs: Seq<XmlEvent>, platform: Seq<char>, path: Seq<char>) -> Result<
    Seq<GameRecord>,
    ParseError,
> {
    run(start_state(), evs, platform, path)
}

pub open spec fn result_view(r: Result<Vec<GameEntry>, ParseError>) -> Result<
    Seq<GameRecord>,
    ParseError,
> {
    match r {
        Ok(v) => Ok(records(v@)),
        Err(e) => Err(e),
    }
}

struct GameCollector {
    depth: usize,
    seen: usize,
    idx: usize,
    game_name: Option<String>,
    game_region: Option<String>,
    game_languages: Option<String>,
    archive_region: Option<String>,
    archive_languages: Option<String>,
    archive_name: Option<String>,
    details_region: Option<String>,
    entries: Vec<GameEntry>,
    platform: String,
    file_path: String,
}

impl GameCollector {
    spec fn holders(&self) -> Holders {
        Holders {
            idx: self.idx as nat,
            game_name: opt_view(self.game_name),
            game_region: opt_view(self.game_region),
            game_languages: opt_view(self.game_languages),
            archive_region: opt_view(self.archive_region),
            archive_languages: opt_view(self.archive_languages),
            archive_name: opt_view(self.archive_name),
            details_region: opt_view(self.details_region),
        }
    }

    spec fn state(&self) -> Collected {
        Collected {
            holders: self.holders(),
            depth: self.depth as nat,
            seen: self.seen as nat,
            entries: records(self.entries@),
        }
    }

    fn new(platform: String, file_path: String) -> (r: Self)
        ensures
            r.state() == start_state(),
            r.entries@.len() == 0,
            r.platform@ == platform@,
            r.file_path@ == file_path@,
    {
        let r = GameCollector {
            depth: 0,
            seen: 0,
            idx: 0,
            game_name: None,
            game_region: None,
            game_languages: None,
            archive_region: None,
            archive_languages: None,
            archive_name: None,
            details_region: None,
            entries: Vec::new(),
            platform,
            file_path,
        };
        assert(records(r.entries@) =~= Seq::<GameRecord>::empty());
        r
    }

    fn clear(&mut self)
        ensures
            final(self).holders() == empty_holders(),
            final(self).entries@ == old(self).entries@,
            final(self).depth == old(self).depth,
            final(self).seen == old(self).seen,
            final(self).platform == old(self).platform,
            final(self).file_path == old(self).file_path,
    {
        self.idx = 0;
        self.game_name = None;
        self.game_region = None;
        self.game_languages = None;
        self.archive_region = None;
        self.archive_languages = None;
        self.archive_name = None;
        self.details_region = None;
    }

    fn open_game(&mut self, t: &XmlTag)
        ensures
            final(self).holders() == open_game(*t, old(self).seen as nat),
            final(self).entries@ == old(self).entries@,
            final(self).depth == old(self).depth,
            final(self).seen == old(self).seen,
            final(self).platform == old(self).platform,
            final(self).file_path == old(self).file_path,
    {
        self.idx = self.seen;
        self.game_name = match name_attr(&t.attrs) {
            Some(v) => v,
            None => None,
        };
        self.game_region = match region_attr(&t.attrs) {
            Some(v) => v,
            None => None,
        };
        self.game_languages = match languages_attr(&t.attrs) {
            Some(v) => v,
            None => None,
        };
        self.archive_region = None;
        self.archive_languages = None;
        self.archive_name = None;
        self.details_region = None;
    }

    fn on_tag(&mut self, t: &XmlTag)
        ensures
            final(self).holders() == on_tag(old(self).holders(), *t, old(self).depth > 0),
            final(self).entries@ == old(self).entries@,
            final(self).depth == old(self).depth,
            final(self).seen == old(self).seen,
            final(self).platform == old(self).platform,
            final(self).file_path == old(self).file_path,
    {
        if is_archive(&t.name) && self.depth > 0 {
            match region_attr(&t.attrs) {
                Some(v) => self.archive_region = Some(or_empty(v)),
                None => {},
            }
            match languages_attr(&t.attrs) {
                Some(v) => self.archive_languages = Some(or_empty(v)),
                None => {},
            }
            match name_attr(&t.attrs) {
                Some(v) => self.archive_name = Some(or_empty(v)),
                None => {},
            }
        } else if is_details(&t.name) && self.depth > 0 {
            if self.archive_region.is_none() && self.game_region.is_none()
                && self.details_region.is_none() {
                self.details_region = match region_attr(&t.attrs) {
                    Some(v) => v,
                    None => None,
                };
            }
        }
    }

    /// Emits the held game, where it has a name, and clears the holders.
    fn close_game(&mut self)
        requires
            old(self).entries@.len() < usize::MAX,
        ensures
            final(self).holders() == empty_holders(),
            records(final(self).entries@) == emit(
                records(old(self).entries@),
                old(self).holders(),
                old(self).platform@,
                old(self).file_path@,
            ),
            final(self).depth == old(self).depth,
            final(self).seen == old(self).seen,
            final(self).platform == old(self).platform,
            final(self).file_path == old(self).file_path,
            final(self).entries@.len() <= old(self).entries@.len() + 1,
    {
        match &self.game_name {
            Some(name) => {
                let region = match &self.archive_region {
                    Some(v) => Some(v.clone()),
                    None => match &self.game_region {
                        Some(v) => Some(v.clone()),
                        None => clone_opt(&self.details_region),
                    },
                };
                let languages = match &self.archive_languages {
                    Some(v) => Some(v.clone()),
                    None => clone_opt(&self.game_languages),
                };
                let entry = GameEntry {
                    platform: self.platform.clone(),
                    name: name.clone(),
                    archive_name: clone_opt(&self.archive_name),
                    region,
                    languages,
                    file_path: self.file_path.clone(),
                    game_idx: self.idx,
                };
                let ghost before = self.entries@;
                self.entries.push(entry);
                assert(records(self.entries@) =~= records(before).push(entry@));
            },
            None => {},
        }
        self.clear();
    }

    fn feed(&mut self, ev: &XmlEvent)
        requires
            old(self).entries@.len() < usize::MAX,
            old(self).depth < usize::MAX,
            old(self).seen < usize::MAX,
        ensures
            final(self).state() == step(
                old(self).state(),
                *ev,
                old(self).platform@,
                old(self).file_path@,
            ),
            final(self).platform == old(self).platform,
            final(self).file_path == old(self).file_path,
            final(self).entries@.len() <= old(self).entries@.len() + 1,
            final(self).depth <= old(self).depth + 1,
            final(self).seen <= old(self).seen + 1,
    {
        match ev {
            XmlEvent::Start(t) => {
                if is_game(&t.name) {
                    if self.depth == 0 {
                        self.open_game(t);
                        self.seen = self.seen + 1;
                    }
                    self.depth = self.depth + 1;
                } else {
                    self.on_tag(t);
                }
            },
            XmlEvent::Empty(t) => {
                if is_game(&t.name) {
                    if self.depth == 0 {
                        self.open_game(t);
                        self.close_game();
                        self.seen = self.seen + 1;
                    }
                } else {
                    self.on_tag(t);
                }
            },
            XmlEvent::End(n) => {
                if is_game(n) {
                    if self.depth == 1 {
                        self.close_game();
                    }
                    if self.depth > 0 {
                        self.depth = self.depth - 1;
                    }
                }
            },
            _ => {},
        }
    }
}

fn or_empty(v: Option<String>) -> (r: String)
    ensures
        r@ == match opt_view(v) {
            Some(s) => s,
            None => Seq::empty(),
        },
{
    match v {
        Some(s) => s,
        None => String::new(),
    }
}

/// The games that a token stream describes, in document order.
pub fn collect_games(events: &Vec<XmlEvent>, platform: &str, file_path: &str) -> (r: Result<
    Vec<GameEntry>,
    ParseError,
>)
    ensures
        result_view(r) == games_of(events@, platform@, file_path@),
{
    let mut c = GameCollector::new(platform.to_owned(), file_path.to_owned());
    let mut i: usize = 0;
    assert(events@.skip(0) =~= events@);
    while i < events.len()
        invariant
            i <= events@.len(),
            c.entries@.len() <= i,
            c.depth <= i,
            c.seen <= i,
            c.platform@ == platform@,
            c.file_path@ == file_path@,
            games_of(events@, platform@, file_path@) == run(
                c.state(),
                events@.skip(i as int),
                platform@,
                file_path@,
            ),
        decreases events@.len() - i,
    {
        assert(events@.skip(i as int).drop_first() =~= events@.skip(i + 1));
        match &events[i] {
            XmlEvent::Eof => {
                return Ok(c.entries);
            },
            XmlEvent::Malformed => {
                return Err(ParseError::Malformed);
            },
            ev => {
                c.feed(ev);
            },
        }
        i += 1;
    }
    Ok(c.entries)
}

/// The platform of a database file: see [`infer_platform_from_filename`];
/// `Unknown` where the path has no file stem.
pub open spec fn platform_for(path: Seq<char>) -> Seq<char> {
    match file_stem_of(path) {
        Some(stem) => before_suffix(stem),
        None => "Unknown"@,
    }
}

/// The games of a database file, given its contents and its path: those of
/// the file's token stream, each tagged with the file's platform and path.
/// The stream is the one the extractor reads (all text kept), so a game's
/// `game_idx` is its position among the same top-level `<game>` elements.
pub fn parse_games_from_file(contents: &[u8], path: &str) -> (r: Result<Vec<GameEntry>, ParseError>)
    requires
        contents@.len() < usize::MAX,
    ensures
        result_view(r) == games_of(xml_stream(contents@, false), platform_for(path@), path@),
{
    let platform = match infer_platform_from_filename(path) {
        Some(p) => p,
        None => "Unknown".to_owned(),
    };
    assert(platform@ == platform_for(path@));
    let events = read_events(contents, false);
    collect_games(&events, &platform, path)
}

/// The games' positions increase in document order.
pub open spec fn increasing(es: Seq<GameRecord>) -> bool {
    forall|i: int, j: int| 0 <= i < j < es.len() ==> es[i].game_idx < es[j].game_idx
}

/// What the parser's state keeps true: records come in increasing positions,
/// all before the game held open, which is the last top-level game met.
pub open spec fn positions_ordered(c: Collected) -> bool {
    &&& increasing(c.entries)
    &&& forall|i: int| 0 <= i < c.entries.len() ==> (#[trigger] c.entries[i]).game_idx < c.seen
    &&& c.depth > 0 ==> c.seen == c.holders.idx + 1 && forall|i: int|
        0 <= i < c.entries.len() ==> (#[trigger] c.entries[i]).game_idx < c.holders.idx
}

proof fn lemma_emit_ordered(es: Seq<GameRecord>, h: Holders, platform: Seq<char>, path: Seq<char>, bound: nat)
    requires
        increasing(es),
        forall|i: int| 0 <= i < es.len() ==> (#[trigger] es[i]).game_idx < h.idx,
        h.idx < bound,
    ensures
        increasing(emit(es, h, platform, path)),
        forall|i: int|
            0 <= i < emit(es, h, platform, path).len() ==> (#[trigger] emit(
                es,
                h,
                platform,
                path,
            )[i]).game_idx < bound,
{
    let n = emit(es, h, platform, path);
    if h.game_name is Some {
        assert forall|i: int, j: int| 0 <= i < j < n.len() implies n[i].game_idx
            < n[j].game_idx by {
            assert(n[i] == es[i]);
            if j < es.len() {
                assert(n[j] == es[j]);
            }
        }
        assert forall|i: int| 0 <= i < n.len() implies (#[trigger] n[i]).game_idx < bound by {
            if i < es.len() {
                assert(n[i] == es[i]);
            }
        }
    }
}

pub proof fn lemma_step_ordered(c: Collected, ev: XmlEvent, platform: Seq<char>, path: Seq<char>)
    requires
        positions_ordered(c),
    ensures
        positions_ordered(step(c, ev, platform, path)),
{
    if top_game(c.depth, ev) {
        match ev {
            XmlEvent::Empty(t) => {
                lemma_emit_ordered(c.entries, open_game(t, c.seen), platform, path, c.seen + 1);
            },
            _ => {},
        }
    } else {
        match ev {
            XmlEvent::End(n) => {
                if n@ == game_tag() && c.depth == 1 {
                    lemma_emit_ordered(c.entries, c.holders, platform, path, c.seen);
                }
            },
            _ => {},
        }
    }
}

proof fn lemma_run_ordered(c: Collected, evs: Seq<XmlEvent>, platform: Seq<char>, path: Seq<char>)
    requires
        positions_ordered(c),
    ensures
        run(c, evs, platform, path) is Ok ==> increasing(run(c, evs, platform, path)->Ok_0),
    decreases evs.len(),
{
    if evs.len() > 0 && !(evs[0] is Eof) && !(evs[0] is Malformed) {
        lemma_step_ordered(c, evs[0], platform, path);
        lemma_run_ordered(step(c, evs[0], platform, path), evs.drop_first(), platform, path);
    }
}

/// Parsing is deterministic: two parses of the same file contents under the
/// same path give the same outcome, and the positions of the games of a
/// parse increase in document order, so a game's position finds it again on
/// every re-parse.
pub proof fn lemma_reparse_same_numbering(
    contents: Seq<u8>,
    path: Seq<char>,
    first: Result<Vec<GameEntry>, ParseError>,
    second: Result<Vec<GameEntry>, ParseError>,
)
    requires
        result_view(first) == games_of(xml_stream(contents, false), platform_for(path), path),
        result_view(second) == games_of(xml_stream(contents, false), platform_for(path), path),
    ensures
        result_view(first) == result_view(second),
        first is Ok ==> increasing(records(first->Ok_0@)),
        first is Ok ==> second is Ok && records(first->Ok_0@) == records(second->Ok_0@),
{
    lemma_run_ordered(start_state(), xml_stream(contents, false), platform_for(path), path);
}

} // verus!
