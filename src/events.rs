//! The XML token stream that the game parser and the fragment extractor read.
//!
//! Tokenizing is done by quick-xml; its events are turned into plain values
//! of this module, which the rest of the library reasons about.

use vstd::prelude::*;
use quick_xml::events::{BytesStart, Event};
use quick_xml::reader::Reader;

verus! {

#[verifier::external_type_specification]
#[verifier::external_body]
#[verifier::reject_recursive_types(R)]
pub struct ExReader<R>(Reader<R>);

#[verifier::external_type_specification]
#[verifier::external_body]
pub struct ExBytesStart<'a>(BytesStart<'a>);

/// One attribute of a tag: its raw key and its decoded, unescaped value
/// (`None` where the value could not be decoded).
pub struct XmlAttr {
    pub key: Vec<u8>,
    pub value: Option<String>,
}

/// A start tag or a self-closing tag.
pub struct XmlTag {
    /// The qualified name of the element.
    pub name: Vec<u8>,
    /// Everything between `<` and `>` (or `/>`), as it stands in the source.
    pub raw: Vec<u8>,
    /// The attributes in source order; `None` marks one that is malformed.
    pub attrs: Vec<Option<XmlAttr>>,
}

/// One event of the XML token stream.
pub enum XmlEvent {
    Start(XmlTag),
    Empty(XmlTag),
    /// A closing tag, holding the element name.
    End(Vec<u8>),
    /// Character data, still escaped as in the source.
    Text(Vec<u8>),
    CData(Vec<u8>),
    Comment(Vec<u8>),
    /// A declaration, processing instruction or doctype.
    Other,
    /// The end of the document.
    Eof,
    /// The tokenizer reported a malformed document.
    Malformed,
}

impl XmlEvent {
    /// An event after which the tokenizer yields nothing more.
    pub open spec fn is_last(&self) -> bool {
        self is Eof || self is Malformed
    }

    pub fn last(&self) -> (r: bool)
        ensures
            r == self.is_last(),
    {
        match self {
            XmlEvent::Eof => true,
            XmlEvent::Malformed => true,
            _ => false,
        }
    }
}

/// The event that quick-xml's reader yields as its `k`-th (from 0) on the
/// input `src`, skipping whitespace-only text where `trim` is set.
pub uninterp spec fn xml_event_at(src: Seq<u8>, trim: bool, k: nat) -> XmlEvent;

/// A pull tokenizer over a byte slice.
pub struct XmlReader<'a> {
    reader: Reader<&'a [u8]>,
    src: &'a [u8],
    trim: bool,
    count: usize,
    rest: usize,
}

impl<'a> XmlReader<'a> {
    pub closed spec fn source(&self) -> Seq<u8> {
        self.src@
    }

    pub closed spec fn trims(&self) -> bool {
        self.trim
    }

    /// The number of events read so far.
    pub closed spec fn count(&self) -> nat {
        self.count as nat
    }

    /// The number of input bytes not yet consumed.
    pub closed spec fn remaining(&self) -> nat {
        self.rest as nat
    }

    /// Relies on quick_xml's `Reader::from_reader` and `Reader::trim_text`:
    /// a reader positioned at the start of `src`, skipping whitespace-only
    /// text when `trim` is set.
    #[verifier::external_body]
    pub fn open(src: &'a [u8], trim: bool) -> (r: Self)
        ensures
            r.source() == src@,
            r.trims() == trim,
            r.count() == 0,
            r.remaining() == src@.len(),
    {
        let mut reader = Reader::from_reader(src);
        reader.trim_text(trim);
        XmlReader { reader, src, trim, count: 0, rest: src.len() }
    }

    /// Relies on quick_xml's `Attribute::decode_and_unescape_value` (with the
    /// `attributes` iterator and `name` of a tag) to describe one tag.
    #[verifier::external_body]
    fn tag(&self, e: &BytesStart) -> (r: XmlTag) {
        XmlTag {
            name: e.name().as_ref().to_vec(),
            raw: e.to_vec(),
            attrs: e.attributes().map(|a| a.ok().map(|a| XmlAttr {
                key: a.key.as_ref().to_vec(),
                value: a.decode_and_unescape_value(&self.reader).ok().map(|v| v.into_owned()),
            })).collect(),
        }
    }

    /// Relies on quick_xml's `Reader::read_event` on a byte slice: the events
    /// of a reader depend on its input and settings alone; every event but
    /// the end of input or an error consumes at least one byte of what
    /// remains, and the remaining slice never grows.
    #[verifier::external_body]
    fn read_one(&mut self) -> (ev: XmlEvent)
        ensures
            ev == xml_event_at(old(self).source(), old(self).trims(), old(self).count()),
            final(self).source() == old(self).source(),
            final(self).trims() == old(self).trims(),
            final(self).count() == old(self).count(),
            final(self).remaining() <= old(self).remaining(),
            !ev.is_last() ==> final(self).remaining() < old(self).remaining(),
    {
        let ev = match self.reader.read_event() {
            Ok(Event::Start(e)) => XmlEvent::Start(self.tag(&e)),
            Ok(Event::Empty(e)) => XmlEvent::Empty(self.tag(&e)),
            Ok(Event::End(e)) => XmlEvent::End(e.to_vec()),
            Ok(Event::Text(e)) => XmlEvent::Text(e.to_vec()),
            Ok(Event::CData(e)) => XmlEvent::CData(e.to_vec()),
            Ok(Event::Comment(e)) => XmlEvent::Comment(e.to_vec()),
            Ok(Event::Eof) => XmlEvent::Eof,
            Ok(_) => XmlEvent::Other,
            Err(_) => XmlEvent::Malformed,
        };
        self.rest = self.reader.get_ref().len();
        ev
    }

    /// The next event.
    pub fn next_event(&mut self) -> (ev: XmlEvent)
        requires
            old(self).count() < usize::MAX,
        ensures
            ev == xml_event_at(old(self).source(), old(self).trims(), old(self).count()),
            final(self).source() == old(self).source(),
            final(self).trims() == old(self).trims(),
            final(self).count() == old(self).count() + 1,
            final(self).remaining() <= old(self).remaining(),
            !ev.is_last() ==> final(self).remaining() < old(self).remaining(),
    {
        let ev = self.read_one();
        self.count = self.count + 1;
        ev
    }
}

/// A well-formed token stream: it ends with its one and only last event.
pub open spec fn is_stream(evs: Seq<XmlEvent>) -> bool {
    &&& evs.len() > 0
    &&& evs.last().is_last()
    &&& forall|i: int| 0 <= i < evs.len() - 1 ==> !(#[trigger] evs[i]).is_last()
}

/// The first `n` events of `src`.
pub open spec fn events_upto(src: Seq<u8>, trim: bool, n: nat) -> Seq<XmlEvent> {
    Seq::new(n, |k: int| xml_event_at(src, trim, k as nat))
}

/// The position of the first last event of `src`.
pub open spec fn last_position(src: Seq<u8>, trim: bool) -> nat {
    choose|n: nat|
        #![trigger xml_event_at(src, trim, n)]
        xml_event_at(src, trim, n).is_last() && forall|k: nat|
            k < n ==> !(#[trigger] xml_event_at(src, trim, k)).is_last()
}

/// The token stream of `src`: its events up to and including the end of
/// input or the first error.
pub open spec fn xml_stream(src: Seq<u8>, trim: bool) -> Seq<XmlEvent> {
    events_upto(src, trim, last_position(src, trim) + 1)
}

/// Tokenizes `src` up to and including the end of input or the first error.
pub fn read_events(src: &[u8], trim: bool) -> (r: Vec<XmlEvent>)
    requires
        src@.len() < usize::MAX,
    ensures
        r@ == xml_stream(src@, trim),
        is_stream(r@),
{
    let mut reader = XmlReader::open(src, trim);
    let mut out: Vec<XmlEvent> = Vec::new();
    loop
        invariant
            reader.source() == src@,
            reader.trims() == trim,
            reader.count() == out@.len(),
            out@.len() + reader.remaining() <= src@.len(),
            src@.len() < usize::MAX,
            out@ == events_upto(src@, trim, out@.len()),
            forall|i: int| 0 <= i < out@.len() ==> !(#[trigger] out@[i]).is_last(),
        decreases reader.remaining(),
    {
        let ghost before = out@;
        let ev = reader.next_event();
        let done = ev.last();
        out.push(ev);
        assert(out@ =~= events_upto(src@, trim, out@.len()));
        if done {
            proof {
                let c = before.len();
                assert forall|k: nat| k < c implies !(#[trigger] xml_event_at(src@, trim, k)).is_last() by {
                    assert(before[k as int] == xml_event_at(src@, trim, k));
                }
                assert(xml_event_at(src@, trim, c).is_last());
                let n = last_position(src@, trim);
                if n < c {
                    assert(!xml_event_at(src@, trim, n).is_last());
                }
                if n > c {
                    assert(!xml_event_at(src@, trim, c).is_last());
                }
                assert(n == c);
            }
            return out;
        }
    }
}

} // verus!
