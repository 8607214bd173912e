//! Re-extraction of one game's XML fragment from a database file, by the
//! game's position among the top-level `<game>` elements of the file.
//!
//! Positions are counted as the parser counts them (see [`top_game`]): every
//! top-level `<game>`, start or self-closing, named or not. A game's
//! `game_idx` from the parser therefore selects the same element here.

use vstd::prelude::*;
use crate::events::{XmlEvent, XmlTag, read_events, xml_stream};
use crate::games::{
    game_tag, is_game, top_game, depth_after, Collected, step, run, games_of, positions_ordered,
    lemma_step_ordered, present, find_attr, name_key, GameEntry, ParseError,
    result_view, records, platform_for, start_state,
};

verus! {

/// The bytes of `<`, `/>`, `</`, `<!--`, `-->`, `<![CDATA[` and `]]>`.
pub open spec fn lt() -> Seq<u8> {
    seq![60u8]
}

pub open spec fn gt() -> Seq<u8> {
    seq![62u8]
}

pub open spec fn slash_gt() -> Seq<u8> {
    seq![47u8, 62u8]
}

pub open spec fn lt_slash() -> Seq<u8> {
    seq![60u8, 47u8]
}

pub open spec fn comment_open() -> Seq<u8> {
    seq![60u8, 33u8, 45u8, 45u8]
}

pub open spec fn comment_close() -> Seq<u8> {
    seq![45u8, 45u8, 62u8]
}

pub open spec fn cdata_open() -> Seq<u8> {
    seq![60u8, 33u8, 91u8, 67u8, 68u8, 65u8, 84u8, 65u8, 91u8]
}

pub open spec fn cdata_close() -> Seq<u8> {
    seq![93u8, 93u8, 62u8]
}

/// The text of an event as an XML writer without indentation puts it down
/// (quick-xml's `Writer::write_event`): the stored content between the
/// event's delimiters.
pub open spec fn serialized(ev: XmlEvent) -> Seq<u8> {
    match ev {
        XmlEvent::Start(t) => lt() + t.raw@ + gt(),
        XmlEvent::Empty(t) => lt() + t.raw@ + slash_gt(),
        XmlEvent::End(n) => lt_slash() + n@ + gt(),
        XmlEvent::Text(b) => b@,
        XmlEvent::CData(b) => cdata_open() + b@ + cdata_close(),
        XmlEvent::Comment(b) => comment_open() + b@ + comment_close(),
        _ => Seq::empty(),
    }
}

/// The extractor's state: top-level `<game>` elements passed so far, how
/// many `<game>` elements are open, whether the target is being copied, the
/// element nesting depth inside it, and what was copied.
pub struct Extraction {
    pub passed: nat,
    pub games: nat,
    pub capturing: bool,
    pub depth: nat,
    pub out: Seq<u8>,
}

pub open spec fn copy(s: Extraction, ev: XmlEvent) -> Extraction {
    Extraction { out: s.out + serialized(ev), ..s }
}

/// The fragment that the events `evs` complete from state `s`.
pub open spec fn extract_run(s: Extraction, evs: Seq<XmlEvent>, target: nat) -> Seq<u8>
    decreases evs.len(),
{
    if evs.len() == 0 {
        s.out
    } else {
        let ev = evs[0];
        let rest = evs.drop_first();
        if s.capturing {
            match ev {
                XmlEvent::Start(_) => extract_run(
                    Extraction { depth: s.depth + 1, ..copy(s, ev) },
                    rest,
                    target,
                ),
                XmlEvent::End(_) => if s.depth <= 1 {
                    copy(s, ev).out
                } else {
                    extract_run(Extraction { depth: (s.depth - 1) as nat, ..copy(s, ev) }, rest, target)
                },
                XmlEvent::Eof => s.out,
                XmlEvent::Malformed => s.out,
                XmlEvent::Other => extract_run(s, rest, target),
                _ => extract_run(copy(s, ev), rest, target),
            }
        } else if top_game(s.games, ev) {
            if s.passed == target {
                match ev {
                    XmlEvent::Start(_) => extract_run(
                        Extraction { capturing: true, depth: 1, ..copy(s, ev) },
                        rest,
                        target,
                    ),
                    _ => copy(s, ev).out,
                }
            } else {
                extract_run(
                    Extraction { passed: s.passed + 1, games: depth_after(s.games, ev), ..s },
                    rest,
                    target,
                )
            }
        } else if ev is Eof || ev is Malformed {
            s.out
        } else {
            extract_run(Extraction { games: depth_after(s.games, ev), ..s }, rest, target)
        }
    }
}

/// The fragment of the top-level `<game>` element at position `target` in a
/// token stream, copied event by event up to the tag that closes it: empty
/// where there is no such element.
pub open spec fn fragment_of(evs: Seq<XmlEvent>, target: nat) -> Seq<u8> {
    extract_run(
        Extraction { passed: 0, games: 0, capturing: false, depth: 0, out: Seq::empty() },
        evs,
        target,
    )
}

/// What `String::from_utf8_lossy` makes of a byte sequence.
pub uninterp spec fn utf8_lossy_of(b: Seq<u8>) -> Seq<char>;

/// Relies on `String::from_utf8_lossy`: the bytes decoded as UTF-8, with
/// invalid sequences replaced; no bytes give the empty string.
#[verifier::external_body]
fn lossy_string(b: &Vec<u8>) -> (r: String)
    ensures
        r@ == utf8_lossy_of(b@),
        b@.len() == 0 ==> r@.len() == 0,
{
    String::from_utf8_lossy(b).into_owned()
}

fn append(out: &mut Vec<u8>, b: &[u8])
    ensures
        final(out)@ == old(out)@ + b@,
{
    let mut i: usize = 0;
    while i < b.len()
        invariant
            i <= b@.len(),
            out@ == old(out)@ + b@.subrange(0, i as int),
        decreases b@.len() - i,
    {
        out.push(b[i]);
        i += 1;
        assert(out@ =~= old(out)@ + b@.subrange(0, i as int));
    }
    assert(b@.subrange(0, b@.len() as int) =~= b@);
}

/// Appends the serialized text of `ev` to `out`.
pub fn write_event(out: &mut Vec<u8>, ev: &XmlEvent)
    ensures
        final(out)@ == old(out)@ + serialized(*ev),
{
    let ghost start = out@;
    match ev {
        XmlEvent::Start(t) => {
            append(out, &[60u8]);
            append(out, t.raw.as_slice());
            append(out, &[62u8]);
        },
        XmlEvent::Empty(t) => {
            append(out, &[60u8]);
            append(out, t.raw.as_slice());
            append(out, &[47u8, 62u8]);
        },
        XmlEvent::End(n) => {
            append(out, &[60u8, 47u8]);
            append(out, n.as_slice());
            append(out, &[62u8]);
        },
        XmlEvent::Text(b) => {
            append(out, b.as_slice());
        },
        XmlEvent::CData(b) => {
            append(out, &[60u8, 33u8, 91u8, 67u8, 68u8, 65u8, 84u8, 65u8, 91u8]);
            append(out, b.as_slice());
            append(out, &[93u8, 93u8, 62u8]);
        },
        XmlEvent::Comment(b) => {
            append(out, &[60u8, 33u8, 45u8, 45u8]);
            append(out, b.as_slice());
            append(out, &[45u8, 45u8, 62u8]);
        },
        _ => {
            assert(out@ =~= start + serialized(*ev));
        },
    }
    assert(out@ =~= start + serialized(*ev));
}

/// The fragment of the top-level `<game>` element at position `target` of a
/// token stream, copied event by event up to the tag that closes it; empty
/// where there is no such element.
pub fn extract_fragment(events: &Vec<XmlEvent>, target: usize) -> (r: Vec<u8>)
    ensures
        r@ == fragment_of(events@, target as nat),
{
    let mut passed: usize = 0;
    let mut games: usize = 0;
    let mut capturing = false;
    let mut depth: usize = 0;
    let mut out: Vec<u8> = Vec::new();
    let mut i: usize = 0;
    assert(events@.skip(0) =~= events@);
    while i < events.len()
        invariant
            i <= events@.len(),
            passed <= i,
            games <= i,
            depth <= i,
            fragment_of(events@, target as nat) == extract_run(
                Extraction {
                    passed: passed as nat,
                    games: games as nat,
                    capturing,
                    depth: depth as nat,
                    out: out@,
                },
                events@.skip(i as int),
                target as nat,
            ),
        decreases events@.len() - i,
    {
        assert(events@.skip(i as int).drop_first() =~= events@.skip(i + 1));
        let ev = &events[i];
        if capturing {
            match ev {
                XmlEvent::Start(_) => {
                    depth += 1;
                    write_event(&mut out, ev);
                },
                XmlEvent::End(_) => {
                    write_event(&mut out, ev);
                    if depth <= 1 {
                        return out;
                    }
                    depth -= 1;
                },
                XmlEvent::Eof => {
                    return out;
                },
                XmlEvent::Malformed => {
                    return out;
                },
                XmlEvent::Other => {},
                _ => {
                    write_event(&mut out, ev);
                },
            }
        } else {
            let top = games == 0 && match ev {
                XmlEvent::Start(t) => is_game(&t.name),
                XmlEvent::Empty(t) => is_game(&t.name),
                _ => false,
            };
            if top {
                if passed == target {
                    write_event(&mut out, ev);
                    match ev {
                        XmlEvent::Start(_) => {
                            capturing = true;
                            depth = 1;
                        },
                        _ => {
                            return out;
                        },
                    }
                } else {
                    passed += 1;
                    match ev {
                        XmlEvent::Start(_) => {
                            games = 1;
                        },
                        _ => {},
                    }
                }
            } else {
                match ev {
                    XmlEvent::Eof => {
                        return out;
                    },
                    XmlEvent::Malformed => {
                        return out;
                    },
                    XmlEvent::Start(t) => {
                        if is_game(&t.name) {
                            games += 1;
                        }
                    },
                    XmlEvent::End(n) => {
                        if is_game(n) && games > 0 {
                            games -= 1;
                        }
                    },
                    _ => {},
                }
            }
        }
        i += 1;
    }
    out
}

/// The XML text of the top-level `<game>` element at position `target_idx`
/// in a database file's contents, tokenized with all text kept: empty where
/// the file has no such element.
pub fn extract_game_xml_by_index(contents: &[u8], target_idx: usize) -> (r: String)
    requires
        contents@.len() < usize::MAX,
    ensures
        r@ == utf8_lossy_of(fragment_of(xml_stream(contents@, false), target_idx as nat)),
        fragment_of(xml_stream(contents@, false), target_idx as nat).len() == 0 ==> r@.len() == 0,
{
    let events = read_events(contents, false);
    let bytes = extract_fragment(&events, target_idx);
    lossy_string(&bytes)
}

proof fn lemma_out_grows(s: Extraction, evs: Seq<XmlEvent>, target: nat)
    ensures
        s.out.is_prefix_of(extract_run(s, evs, target)),
    decreases evs.len(),
{
    let r = extract_run(s, evs, target);
    if evs.len() > 0 {
        let ev = evs[0];
        let rest = evs.drop_first();
        let c = copy(s, ev);
        assert(s.out.is_prefix_of(c.out)) by {
            assert(c.out.subrange(0, s.out.len() as int) =~= s.out);
        }
        if s.capturing {
            match ev {
                XmlEvent::Start(_) => {
                    lemma_out_grows(Extraction { depth: s.depth + 1, ..c }, rest, target);
                },
                XmlEvent::End(_) => {
                    if s.depth > 1 {
                        lemma_out_grows(Extraction { depth: (s.depth - 1) as nat, ..c }, rest, target);
                    }
                },
                XmlEvent::Eof => {},
                XmlEvent::Malformed => {},
                XmlEvent::Other => {
                    lemma_out_grows(s, rest, target);
                },
                _ => {
                    lemma_out_grows(c, rest, target);
                },
            }
        } else if top_game(s.games, ev) {
            if s.passed == target {
                match ev {
                    XmlEvent::Start(_) => {
                        lemma_out_grows(Extraction { capturing: true, depth: 1, ..c }, rest, target);
                    },
                    _ => {},
                }
            } else {
                lemma_out_grows(
                    Extraction { passed: s.passed + 1, games: depth_after(s.games, ev), ..s },
                    rest,
                    target,
                );
            }
        } else if !(ev is Eof || ev is Malformed) {
            lemma_out_grows(Extraction { games: depth_after(s.games, ev), ..s }, rest, target);
        }
        if s.out.is_prefix_of(c.out) && c.out.is_prefix_of(r) {
            assert(r.subrange(0, s.out.len() as int) =~= c.out.subrange(0, s.out.len() as int));
        }
    } else {
        assert(r.subrange(0, s.out.len() as int) =~= s.out);
    }
}

/// What the parser keeps of the game at position `k` once it has met it:
/// every record at `k`, and the held game where it is `k`, bear the name `n`.
spec fn named_at(c: Collected, k: nat, n: Option<Seq<char>>) -> bool {
    &&& c.seen > k
    &&& c.depth > 0 && c.holders.idx == k ==> c.holders.game_name == n
    &&& forall|i: int|
        0 <= i < c.entries.len() && (#[trigger] c.entries[i]).game_idx == k ==> Some(
            c.entries[i].name,
        ) == n
}

proof fn lemma_named_step(
    c: Collected,
    ev: XmlEvent,
    platform: Seq<char>,
    path: Seq<char>,
    k: nat,
    n: Option<Seq<char>>,
)
    requires
        named_at(c, k, n),
    ensures
        named_at(step(c, ev, platform, path), k, n),
{
    let d = step(c, ev, platform, path);
    assert forall|i: int| 0 <= i < d.entries.len() && (#[trigger] d.entries[i]).game_idx
        == k implies Some(d.entries[i].name) == n by {
        if i < c.entries.len() {
            assert(d.entries[i] == c.entries[i]);
        }
    }
}

proof fn lemma_named_run(
    c: Collected,
    evs: Seq<XmlEvent>,
    platform: Seq<char>,
    path: Seq<char>,
    k: nat,
    n: Option<Seq<char>>,
)
    requires
        named_at(c, k, n),
    ensures
        run(c, evs, platform, path) matches Ok(es) ==> forall|i: int|
            0 <= i < es.len() && (#[trigger] es[i]).game_idx == k ==> Some(es[i].name) == n,
    decreases evs.len(),
{
    if evs.len() == 0 || evs[0] is Eof || evs[0] is Malformed {
    } else {
        lemma_named_step(c, evs[0], platform, path, k, n);
        lemma_named_run(step(c, evs[0], platform, path), evs.drop_first(), platform, path, k, n);
    }
}

/// The game tag that a fragment begins with, bearing the name of a record.
pub open spec fn begins_with_game(frag: Seq<u8>, name: Seq<char>) -> bool {
    exists|t: XmlTag|
        t.name@ == game_tag() && present(find_attr(t.attrs@, name_key())) == Some(name) && (lt()
            + t.raw@).is_prefix_of(frag)
}

proof fn lemma_joint(
    c: Collected,
    x: Extraction,
    evs: Seq<XmlEvent>,
    platform: Seq<char>,
    path: Seq<char>,
    k: nat,
)
    requires
        positions_ordered(c),
        !x.capturing,
        x.out.len() == 0,
        x.games == c.depth,
        x.passed == c.seen,
        c.seen <= k,
    ensures
        run(c, evs, platform, path) matches Ok(es) ==> forall|i: int|
            0 <= i < es.len() && (#[trigger] es[i]).game_idx == k ==> begins_with_game(
                extract_run(x, evs, k),
                es[i].name,
            ),
    decreases evs.len(),
{
    if evs.len() == 0 || evs[0] is Eof || evs[0] is Malformed {
        assert forall|i: int| 0 <= i < c.entries.len() implies (#[trigger] c.entries[i]).game_idx
            != k by {
            assert(c.entries[i].game_idx < c.seen);
        }
    } else {
        let ev = evs[0];
        let rest = evs.drop_first();
        let c2 = step(c, ev, platform, path);
        lemma_step_ordered(c, ev, platform, path);
        if top_game(c.depth, ev) && c.seen == k {
            let t = match ev {
                XmlEvent::Start(t) => t,
                XmlEvent::Empty(t) => t,
                _ => arbitrary(),
            };
            let n = present(find_attr(t.attrs@, name_key()));
            assert forall|i: int|
                0 <= i < c2.entries.len() && (#[trigger] c2.entries[i]).game_idx == k implies Some(
                c2.entries[i].name,
            ) == n by {
                if i < c.entries.len() {
                    assert(c2.entries[i] == c.entries[i]);
                    assert(c.entries[i].game_idx < c.seen);
                }
            }
            assert(named_at(c2, k, n));
            lemma_named_run(c2, rest, platform, path, k, n);
            let frag = extract_run(x, evs, k);
            let head = lt() + t.raw@;
            let cx = copy(x, ev);
            assert(head.is_prefix_of(cx.out)) by {
                assert(cx.out.subrange(0, head.len() as int) =~= head);
            }
            match ev {
                XmlEvent::Start(_) => {
                    lemma_out_grows(Extraction { capturing: true, depth: 1, ..cx }, rest, k);
                    assert(frag.subrange(0, head.len() as int) =~= cx.out.subrange(
                        0,
                        head.len() as int,
                    ));
                },
                _ => {},
            }
            assert(head.is_prefix_of(frag));
            if run(c, evs, platform, path) is Ok {
                let es = run(c, evs, platform, path)->Ok_0;
                assert forall|i: int| 0 <= i < es.len() && (#[trigger] es[i]).game_idx
                    == k implies begins_with_game(frag, es[i].name) by {
                    assert(Some(es[i].name) == n);
                    assert(t.name@ == game_tag());
                }
            }
        } else if top_game(c.depth, ev) {
            lemma_joint(
                c2,
                Extraction { passed: x.passed + 1, games: depth_after(x.games, ev), ..x },
                rest,
                platform,
                path,
                k,
            );
        } else {
            lemma_joint(
                c2,
                Extraction { games: depth_after(x.games, ev), ..x },
                rest,
                platform,
                path,
                k,
            );
        }
    }
}

/// The parser and the extractor count positions alike: for every game that
/// a parse of a file yields, the extractor, asked for the game's position,
/// returns a fragment that begins with a `<game>` tag bearing the game's name.
pub proof fn lemma_positions_agree(
    contents: Seq<u8>,
    path: Seq<char>,
    parsed: Result<Vec<GameEntry>, ParseError>,
    i: int,
)
    requires
        result_view(parsed) == games_of(xml_stream(contents, false), platform_for(path), path),
        parsed is Ok,
        0 <= i < parsed->Ok_0@.len(),
    ensures
        begins_with_game(
            fragment_of(xml_stream(contents, false), parsed->Ok_0@[i].game_idx as nat),
            parsed->Ok_0@[i].name@,
        ),
{
    let evs = xml_stream(contents, false);
    let es = records(parsed->Ok_0@);
    let k = es[i].game_idx;
    assert(es[i] == parsed->Ok_0@[i]@);
    lemma_joint(
        start_state(),
        Extraction { passed: 0, games: 0, capturing: false, depth: 0, out: Seq::empty() },
        evs,
        platform_for(path),
        path,
        k,
    );
}

} // verus!
