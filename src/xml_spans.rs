//! Syntax colouring of XML text: the text is cut into spans of comments,
//! tag punctuation and names, attribute names, attribute values, and plain
//! text. The cut is lenient and never fails: it is for display only.

use vstd::prelude::*;

verus! {

/// What a span of XML text is.
#[derive(Debug, Clone, Copy, PartialEq, Eq, Structural)]
pub enum XmlPart {
    Comment,
    /// Tag punctuation (`<`, `</`, `>`, `/>`) and element names.
    Tag,
    AttrName,
    /// A quoted attribute value, quotes included.
    Value,
    /// Text, `=` and anything not recognised inside a tag.
    Plain,
}

/// The bytes `start..end` of the text, of kind `part`.
#[derive(Debug, Clone, Copy, PartialEq, Eq, Structural)]
pub struct XmlSpan {
    pub start: usize,
    pub end: usize,
    pub part: XmlPart,
}

/// ASCII whitespace, as `u8::is_ascii_whitespace` has it.
pub open spec fn is_space(c: u8) -> bool {
    c == 32 || c == 9 || c == 10 || c == 12 || c == 13
}

/// A byte of an element or attribute name: ASCII letters and digits, `:`,
/// `_`, `-` and `.`.
pub open spec fn is_name_char(c: u8) -> bool {
    (48 <= c <= 57) || (65 <= c <= 90) || (97 <= c <= 122) || c == 58 || c == 95 || c == 45
        || c == 46
}

/// The number of whitespace bytes from `i` on.
pub open spec fn space_run(b: Seq<u8>, i: int) -> nat
    decreases b.len() - i,
{
    if 0 <= i < b.len() && is_space(b[i]) {
        1 + space_run(b, i + 1)
    } else {
        0
    }
}

/// The number of name bytes from `i` on.
pub open spec fn name_run(b: Seq<u8>, i: int) -> nat
    decreases b.len() - i,
{
    if 0 <= i < b.len() && is_name_char(b[i]) {
        1 + name_run(b, i + 1)
    } else {
        0
    }
}

/// The number of bytes from `i` on before the next `c`, or the end.
pub open spec fn run_until(b: Seq<u8>, i: int, c: u8) -> nat
    decreases b.len() - i,
{
    if 0 <= i < b.len() && b[i] != c {
        1 + run_until(b, i + 1, c)
    } else {
        0
    }
}

pub open spec fn starts_at(b: Seq<u8>, i: int, pat: Seq<u8>) -> bool {
    0 <= i && i + pat.len() <= b.len() && b.subrange(i, i + pat.len()) == pat
}

/// How far from `i` the first occurrence of `pat` starts, if there is one.
pub open spec fn find_offset(b: Seq<u8>, i: int, pat: Seq<u8>) -> Option<nat>
    decreases b.len() - i,
{
    if i < 0 || i + pat.len() > b.len() {
        None
    } else if pat.len() == 0 || starts_at(b, i, pat) {
        Some(0)
    } else {
        match find_offset(b, i + 1, pat) {
            Some(k) => Some(k + 1),
            None => None,
        }
    }
}

/// The bytes of `<!--` and of `-->`.
pub open spec fn comment_start() -> Seq<u8> {
    seq![60u8, 33u8, 45u8, 45u8]
}

pub open spec fn comment_end() -> Seq<u8> {
    seq![45u8, 45u8, 62u8]
}

pub open spec fn span(s: int, e: int, part: XmlPart) -> Seq<XmlSpan> {
    seq![XmlSpan { start: s as usize, end: e as usize, part }]
}

/// A span, where it is not empty.
pub open spec fn span_if(s: int, e: int, part: XmlPart) -> Seq<XmlSpan> {
    if s < e {
        span(s, e, part)
    } else {
        Seq::empty()
    }
}

/// The number of bytes from `i` on.
pub open spec fn remaining(b: Seq<u8>, i: int) -> int {
    if 0 <= i < b.len() {
        b.len() - i
    } else {
        0
    }
}

/// The spans of the text from `i` on, outside any tag.
pub open spec fn lex(b: Seq<u8>, i: int) -> Seq<XmlSpan>
    decreases remaining(b, i), 0int,
{
    if i < 0 || i >= b.len() {
        Seq::empty()
    } else if starts_at(b, i, comment_start()) {
        match find_offset(b, i + 4, comment_end()) {
            Some(k) => span(i, i + 4 + k + 3, XmlPart::Comment) + lex(b, i + 4 + k + 3),
            None => span(i, b.len() as int, XmlPart::Comment),
        }
    } else if b[i] == 60 {
        let j = if i + 1 < b.len() && b[i + 1] == 47 {
            i + 2
        } else {
            i + 1
        };
        let k = j + name_run(b, j);
        span(i, j, XmlPart::Tag) + span_if(j, k, XmlPart::Tag) + lex_tag(b, k)
    } else {
        let e = i + run_until(b, i, 60);
        span(i, e, XmlPart::Plain) + lex(b, e)
    }
}

/// The spans of the text from `i` on, inside a tag after its name:
/// whitespace is a plain span.
pub open spec fn lex_tag(b: Seq<u8>, i: int) -> Seq<XmlSpan>
    decreases remaining(b, i), 2int,
{
    if i < 0 || i >= b.len() {
        Seq::empty()
    } else {
        let a = i + space_run(b, i);
        span_if(i, a, XmlPart::Plain) + after_space(b, a)
    }
}

/// The spans of the text from `a` on, inside a tag, where no whitespace
/// stands at `a`: the end of the tag, or an attribute.
pub open spec fn after_space(b: Seq<u8>, a: int) -> Seq<XmlSpan>
    decreases remaining(b, a), 1int,
{
    if a < 0 || a >= b.len() {
        Seq::empty()
    } else if b[a] == 62 {
        span(a, a + 1, XmlPart::Tag) + lex(b, a + 1)
    } else if b[a] == 47 {
        if a + 1 < b.len() && b[a + 1] == 62 {
            span(a, a + 2, XmlPart::Tag) + lex(b, a + 2)
        } else {
            span(a, a + 1, XmlPart::Tag) + lex_tag(b, a + 1)
        }
    } else {
        let ne = a + name_run(b, a);
        let e1 = ne + space_run(b, ne);
        let e2 = if e1 < b.len() && b[e1] == 61 {
            e1 + 1
        } else {
            e1
        };
        let e3 = e2 + space_run(b, e2);
        let before = span_if(a, ne, XmlPart::AttrName) + span_if(ne, e3, XmlPart::Plain);
        if e3 < b.len() && (b[e3] == 34 || b[e3] == 39) {
            let close = e3 + 1 + run_until(b, e3 + 1, b[e3]);
            let vend = if close < b.len() {
                close + 1
            } else {
                close
            };
            before + span(e3, vend, XmlPart::Value) + lex_tag(b, vend)
        } else if e3 == a {
            span(a, a + 1, XmlPart::Plain) + lex_tag(b, a + 1)
        } else {
            before + lex_tag(b, e3)
        }
    }
}

/// `s` cuts `from..to` into non-empty spans that follow one another.
pub open spec fn tiles(s: Seq<XmlSpan>, from: int, to: int) -> bool
    decreases s.len(),
{
    if s.len() == 0 {
        from == to
    } else {
        s[0].start as int == from && s[0].start < s[0].end && tiles(
            s.drop_first(),
            s[0].end as int,
            to,
        )
    }
}

fn skip_spaces(b: &[u8], i: usize) -> (j: usize)
    requires
        i <= b@.len(),
    ensures
        j == i + space_run(b@, i as int),
        j <= b@.len(),
        space_run(b@, j as int) == 0,
{
    let mut j = i;
    while j < b.len() && (b[j] == 32 || b[j] == 9 || b[j] == 10 || b[j] == 12 || b[j] == 13)
        invariant
            i <= j <= b@.len(),
            i + space_run(b@, i as int) == j + space_run(b@, j as int),
        decreases b@.len() - j,
    {
        j += 1;
    }
    j
}

fn skip_name(b: &[u8], i: usize) -> (j: usize)
    requires
        i <= b@.len(),
    ensures
        j == i + name_run(b@, i as int),
        j <= b@.len(),
{
    let mut j = i;
    while j < b.len() && ((48 <= b[j] && b[j] <= 57) || (65 <= b[j] && b[j] <= 90) || (97 <= b[j]
        && b[j] <= 122) || b[j] == 58 || b[j] == 95 || b[j] == 45 || b[j] == 46)
        invariant
            i <= j <= b@.len(),
            i + name_run(b@, i as int) == j + name_run(b@, j as int),
        decreases b@.len() - j,
    {
        j += 1;
    }
    j
}

fn skip_until(b: &[u8], i: usize, c: u8) -> (j: usize)
    requires
        i <= b@.len(),
    ensures
        j == i + run_until(b@, i as int, c),
        j <= b@.len(),
{
    let mut j = i;
    while j < b.len() && b[j] != c
        invariant
            i <= j <= b@.len(),
            i + run_until(b@, i as int, c) == j + run_until(b@, j as int, c),
        decreases b@.len() - j,
    {
        j += 1;
    }
    j
}

/// The position of the first occurrence of `needle` in `hay` at or after
/// `start`.
pub fn find_bytes(hay: &[u8], start: usize, needle: &[u8]) -> (r: Option<usize>)
    ensures
        match r {
            Some(p) => start <= p && find_offset(hay@, start as int, needle@) == Some(
                (p - start) as nat,
            ),
            None => find_offset(hay@, start as int, needle@) is None,
        },
{
    let hl = hay.len();
    let mut i = start;
    while i <= hl && needle.len() <= hl - i
        invariant
            hl == hay@.len(),
            start <= i,
            find_offset(hay@, start as int, needle@) == match find_offset(hay@, i as int, needle@) {
                Some(k) => Some((k + (i - start)) as nat),
                None => None,
            },
        decreases hay@.len() + 1 - i,
    {
        let mut k: usize = 0;
        while k < needle.len() && hay[i + k] == needle[k]
            invariant
                hl == hay@.len(),
                i + needle@.len() <= hay@.len(),
                k <= needle@.len(),
                forall|x: int| 0 <= x < k ==> hay@[i + x] == needle@[x],
            decreases needle@.len() - k,
        {
            k += 1;
        }
        if k == needle.len() {
            assert(hay@.subrange(i as int, i + needle@.len()) =~= needle@);
            return Some(i);
        }
        assert(hay@.subrange(i as int, i + needle@.len())[k as int] != needle@[k as int]);
        i += 1;
    }
    None
}

fn comment_at(b: &[u8], i: usize) -> (r: bool)
    requires
        i <= b@.len(),
    ensures
        r == starts_at(b@, i as int, comment_start()),
{
    if b.len() - i < 4 {
        return false;
    }
    let r = b[i] == 60 && b[i + 1] == 33 && b[i + 2] == 45 && b[i + 3] == 45;
    let ghost w = b@.subrange(i as int, i + 4);
    assert(w[0] == b@[i as int] && w[1] == b@[i + 1] && w[2] == b@[i + 2] && w[3] == b@[i + 3]);
    if r {
        assert(w =~= comment_start());
    }
    r
}

fn push_span(out: &mut Vec<XmlSpan>, start: usize, end: usize, part: XmlPart)
    ensures
        final(out)@ == old(out)@ + span(start as int, end as int, part),
{
    out.push(XmlSpan { start, end, part });
    assert(final(out)@ =~= old(out)@ + span(start as int, end as int, part));
}

/// What follows position `i` of `b`: inside a tag, or outside.
pub open spec fn rest(b: Seq<u8>, i: int, in_tag: bool) -> Seq<XmlSpan> {
    if in_tag {
        lex_tag(b, i)
    } else {
        lex(b, i)
    }
}

fn step_text(text: &[u8], i: usize, out: &mut Vec<XmlSpan>) -> (r: (usize, bool))
    requires
        i < text@.len(),
    ensures
        i < r.0 <= text@.len(),
        old(out)@ + lex(text@, i as int) == final(out)@ + rest(text@, r.0 as int, r.1),
{
    let ghost b = text@;
    let ghost before = out@;
    let n = text.len();
    if comment_at(text, i) {
        match find_bytes(text, i + 4, &[45u8, 45u8, 62u8]) {
            Some(e) => {
                assert(find_offset(b, i + 4, comment_end()) == Some((e - (i + 4)) as nat));
                assert(e + 3 <= n) by {
                    lemma_found_in_bounds(b, i + 4, comment_end());
                }
                push_span(out, i, e + 3, XmlPart::Comment);
                assert(before + (span(i as int, e + 3, XmlPart::Comment) + lex(b, e + 3)) =~= out@
                    + lex(b, e + 3));
                (e + 3, false)
            },
            None => {
                push_span(out, i, n, XmlPart::Comment);
                assert(lex(b, n as int) =~= Seq::<XmlSpan>::empty());
                assert(out@ + lex(b, n as int) =~= out@);
                (n, false)
            },
        }
    } else if text[i] == 60 {
        let j = if i + 1 < n && text[i + 1] == 47 {
            i + 2
        } else {
            i + 1
        };
        push_span(out, i, j, XmlPart::Tag);
        let k = skip_name(text, j);
        if k > j {
            push_span(out, j, k, XmlPart::Tag);
        } else {
            assert(out@ + Seq::<XmlSpan>::empty() =~= out@);
        }
        assert(before + (span(i as int, j as int, XmlPart::Tag) + span_if(
            j as int,
            k as int,
            XmlPart::Tag,
        ) + lex_tag(b, k as int)) =~= out@ + lex_tag(b, k as int));
        (k, true)
    } else {
        let e = skip_until(text, i, 60);
        push_span(out, i, e, XmlPart::Plain);
        assert(before + (span(i as int, e as int, XmlPart::Plain) + lex(b, e as int)) =~= out@ + lex(
            b,
            e as int,
        ));
        (e, false)
    }
}

#[verifier::rlimit(100)]
fn step_attr(text: &[u8], a: usize, out: &mut Vec<XmlSpan>) -> (r: usize)
    requires
        a < text@.len(),
        text@[a as int] != 62,
        text@[a as int] != 47,
    ensures
        a < r <= text@.len(),
        old(out)@ + after_space(text@, a as int) == final(out)@ + lex_tag(text@, r as int),
{
    let ghost b = text@;
    let ghost before = out@;
    let n = text.len();
    let ne = skip_name(text, a);
    let e1 = skip_spaces(text, ne);
    let e2 = if e1 < n && text[e1] == 61 {
        e1 + 1
    } else {
        e1
    };
    let e3 = skip_spaces(text, e2);
    let ghost pre = span_if(a as int, ne as int, XmlPart::AttrName) + span_if(
        ne as int,
        e3 as int,
        XmlPart::Plain,
    );
    if e3 < n && (text[e3] == 34 || text[e3] == 39) {
        if ne > a {
            push_span(out, a, ne, XmlPart::AttrName);
        }
        if e3 > ne {
            push_span(out, ne, e3, XmlPart::Plain);
        }
        assert(out@ =~= before + pre);
        let close = skip_until(text, e3 + 1, text[e3]);
        let vend = if close < n {
            close + 1
        } else {
            close
        };
        push_span(out, e3, vend, XmlPart::Value);
        assert(before + (pre + span(e3 as int, vend as int, XmlPart::Value) + lex_tag(
            b,
            vend as int,
        )) =~= out@ + lex_tag(b, vend as int));
        vend
    } else if e3 == a {
        push_span(out, a, a + 1, XmlPart::Plain);
        assert(before + (span(a as int, a + 1, XmlPart::Plain) + lex_tag(b, a + 1)) =~= out@
            + lex_tag(b, a + 1));
        a + 1
    } else {
        if ne > a {
            push_span(out, a, ne, XmlPart::AttrName);
        }
        if e3 > ne {
            push_span(out, ne, e3, XmlPart::Plain);
        }
        assert(out@ =~= before + pre);
        assert(before + (pre + lex_tag(b, e3 as int)) =~= out@ + lex_tag(b, e3 as int));
        e3
    }
}

fn step_after(text: &[u8], a: usize, out: &mut Vec<XmlSpan>) -> (r: (usize, bool))
    requires
        a < text@.len(),
    ensures
        a < r.0 <= text@.len(),
        old(out)@ + after_space(text@, a as int) == final(out)@ + rest(text@, r.0 as int, r.1),
{
    let ghost b = text@;
    let ghost before = out@;
    let n = text.len();
    if text[a] == 62 {
        push_span(out, a, a + 1, XmlPart::Tag);
        assert(before + (span(a as int, a + 1, XmlPart::Tag) + lex(b, a + 1)) =~= out@ + lex(
            b,
            a + 1,
        ));
        (a + 1, false)
    } else if text[a] == 47 {
        if a + 1 < n && text[a + 1] == 62 {
            push_span(out, a, a + 2, XmlPart::Tag);
            assert(before + (span(a as int, a + 2, XmlPart::Tag) + lex(b, a + 2)) =~= out@ + lex(
                b,
                a + 2,
            ));
            (a + 2, false)
        } else {
            push_span(out, a, a + 1, XmlPart::Tag);
            assert(before + (span(a as int, a + 1, XmlPart::Tag) + lex_tag(b, a + 1)) =~= out@
                + lex_tag(b, a + 1));
            (a + 1, true)
        }
    } else {
        let r = step_attr(text, a, out);
        (r, true)
    }
}

fn step_tag(text: &[u8], i: usize, out: &mut Vec<XmlSpan>) -> (r: (usize, bool))
    requires
        i < text@.len(),
    ensures
        i < r.0 <= text@.len(),
        old(out)@ + lex_tag(text@, i as int) == final(out)@ + rest(text@, r.0 as int, r.1),
{
    let ghost b = text@;
    let ghost before = out@;
    let n = text.len();
    let a = skip_spaces(text, i);
    if a > i {
        push_span(out, i, a, XmlPart::Plain);
    } else {
        assert(out@ =~= out@ + span_if(i as int, a as int, XmlPart::Plain));
    }
    let ghost mid = out@;
    assert(mid =~= before + span_if(i as int, a as int, XmlPart::Plain));
    if a >= n {
        assert(after_space(b, a as int) =~= Seq::<XmlSpan>::empty());
        assert(lex(b, n as int) =~= Seq::<XmlSpan>::empty());
        assert(before + lex_tag(b, i as int) =~= out@ + lex(b, n as int));
        (n, false)
    } else {
        let r = step_after(text, a, out);
        assert(before + lex_tag(b, i as int) =~= mid + after_space(b, a as int));
        r
    }
}

/// The spans of an XML text, for colouring: comments; `<` or `</` with the
/// element name, then inside the tag its attribute names, `=` signs and
/// quoted values, up to `>` or `/>`; and the text between tags. Whitespace,
/// `=` signs and any byte that none of these takes inside a tag are plain
/// spans. The spans follow one another and cover the whole text.
pub fn xml_spans(text: &[u8]) -> (r: Vec<XmlSpan>)
    ensures
        r@ == lex(text@, 0),
        tiles(r@, 0, text@.len() as int),
{
    let n = text.len();
    proof {
        lemma_lex_tiles(text@, 0);
    }
    let mut out: Vec<XmlSpan> = Vec::new();
    let mut i: usize = 0;
    let mut in_tag = false;
    assert(out@ + lex(text@, 0) =~= lex(text@, 0));
    while i < n
        invariant
            n == text@.len(),
            i <= n,
            lex(text@, 0) == out@ + rest(text@, i as int, in_tag),
        decreases n - i,
    {
        let ghost before = out@;
        let r = if in_tag {
            step_tag(text, i, &mut out)
        } else {
            step_text(text, i, &mut out)
        };
        assert(before + rest(text@, i as int, in_tag) =~= out@ + rest(text@, r.0 as int, r.1));
        i = r.0;
        in_tag = r.1;
    }
    assert(lex(text@, i as int) =~= Seq::<XmlSpan>::empty());
    assert(lex_tag(text@, i as int) =~= Seq::<XmlSpan>::empty());
    assert(out@ + Seq::<XmlSpan>::empty() =~= out@);
    out
}

proof fn lemma_found_in_bounds(b: Seq<u8>, i: int, pat: Seq<u8>)
    requires
        find_offset(b, i, pat) is Some,
    ensures
        i + find_offset(b, i, pat)->0 + pat.len() <= b.len(),
    decreases b.len() - i,
{
    if !(i < 0 || i + pat.len() > b.len()) && !(pat.len() == 0 || starts_at(b, i, pat)) {
        lemma_found_in_bounds(b, i + 1, pat);
    }
}

proof fn lemma_tiles_concat(x: Seq<XmlSpan>, y: Seq<XmlSpan>, a: int, b: int, c: int)
    requires
        tiles(x, a, b),
        tiles(y, b, c),
    ensures
        tiles(x + y, a, c),
    decreases x.len(),
{
    if x.len() == 0 {
        assert(x + y =~= y);
    } else {
        lemma_tiles_concat(x.drop_first(), y, x[0].end as int, b, c);
        assert((x + y).drop_first() =~= x.drop_first() + y);
    }
}

proof fn lemma_span_tiles(s: int, e: int, part: XmlPart)
    requires
        0 <= s < e <= usize::MAX,
    ensures
        tiles(span(s, e, part), s, e),
{
    let x = span(s, e, part);
    assert(x.drop_first() =~= Seq::<XmlSpan>::empty());
    assert(tiles(x.drop_first(), e, e));
    assert(x[0].start as int == s && x[0].end as int == e);
}

proof fn lemma_span_if_tiles(s: int, e: int, part: XmlPart)
    requires
        0 <= s <= e <= usize::MAX,
    ensures
        tiles(span_if(s, e, part), s, e),
{
    if s < e {
        lemma_span_tiles(s, e, part);
    }
}

proof fn lemma_space_run(b: Seq<u8>, i: int)
    requires
        0 <= i <= b.len(),
    ensures
        i + space_run(b, i) <= b.len(),
    decreases b.len() - i,
{
    if i < b.len() && is_space(b[i]) {
        lemma_space_run(b, i + 1);
    }
}

proof fn lemma_name_run(b: Seq<u8>, i: int)
    requires
        0 <= i <= b.len(),
    ensures
        i + name_run(b, i) <= b.len(),
    decreases b.len() - i,
{
    if i < b.len() && is_name_char(b[i]) {
        lemma_name_run(b, i + 1);
    }
}

proof fn lemma_run_until(b: Seq<u8>, i: int, c: u8)
    requires
        0 <= i <= b.len(),
    ensures
        i + run_until(b, i, c) <= b.len(),
    decreases b.len() - i,
{
    if i < b.len() && b[i] != c {
        lemma_run_until(b, i + 1, c);
    }
}

proof fn lemma_lex_tiles(b: Seq<u8>, i: int)
    requires
        b.len() <= usize::MAX,
        0 <= i <= b.len(),
    ensures
        tiles(lex(b, i), i, b.len() as int),
    decreases remaining(b, i), 0int,
{
    let n = b.len() as int;
    if i < n {
        if starts_at(b, i, comment_start()) {
            match find_offset(b, i + 4, comment_end()) {
                Some(k) => {
                    lemma_found_in_bounds(b, i + 4, comment_end());
                    let e = i + 4 + k + 3;
                    lemma_span_tiles(i, e, XmlPart::Comment);
                    lemma_lex_tiles(b, e);
                    lemma_tiles_concat(span(i, e, XmlPart::Comment), lex(b, e), i, e, n);
                },
                None => {
                    lemma_span_tiles(i, n, XmlPart::Comment);
                },
            }
        } else if b[i] == 60 {
            let j = if i + 1 < n && b[i + 1] == 47 {
                i + 2
            } else {
                i + 1
            };
            lemma_name_run(b, j);
            let k = j + name_run(b, j);
            lemma_span_tiles(i, j, XmlPart::Tag);
            lemma_span_if_tiles(j, k, XmlPart::Tag);
            lemma_tag_tiles(b, k);
            lemma_tiles_concat(span(i, j, XmlPart::Tag), span_if(j, k, XmlPart::Tag), i, j, k);
            lemma_tiles_concat(
                span(i, j, XmlPart::Tag) + span_if(j, k, XmlPart::Tag),
                lex_tag(b, k),
                i,
                k,
                n,
            );
        } else {
            lemma_run_until(b, i, 60);
            let e = i + run_until(b, i, 60);
            lemma_span_tiles(i, e, XmlPart::Plain);
            lemma_lex_tiles(b, e);
            lemma_tiles_concat(span(i, e, XmlPart::Plain), lex(b, e), i, e, n);
        }
    }
}

proof fn lemma_tag_tiles(b: Seq<u8>, i: int)
    requires
        b.len() <= usize::MAX,
        0 <= i <= b.len(),
    ensures
        tiles(lex_tag(b, i), i, b.len() as int),
    decreases remaining(b, i), 2int,
{
    let n = b.len() as int;
    if i < n {
        lemma_space_run(b, i);
        let a = i + space_run(b, i);
        lemma_span_if_tiles(i, a, XmlPart::Plain);
        lemma_after_tiles(b, a);
        lemma_tiles_concat(span_if(i, a, XmlPart::Plain), after_space(b, a), i, a, n);
    }
}

proof fn lemma_after_tiles(b: Seq<u8>, a: int)
    requires
        b.len() <= usize::MAX,
        0 <= a <= b.len(),
    ensures
        tiles(after_space(b, a), a, b.len() as int),
    decreases remaining(b, a), 1int,
{
    let n = b.len() as int;
    if a < n {
        if b[a] == 62 {
            lemma_span_tiles(a, a + 1, XmlPart::Tag);
            lemma_lex_tiles(b, a + 1);
            lemma_tiles_concat(span(a, a + 1, XmlPart::Tag), lex(b, a + 1), a, a + 1, n);
        } else if b[a] == 47 {
            if a + 1 < n && b[a + 1] == 62 {
                lemma_span_tiles(a, a + 2, XmlPart::Tag);
                lemma_lex_tiles(b, a + 2);
                lemma_tiles_concat(span(a, a + 2, XmlPart::Tag), lex(b, a + 2), a, a + 2, n);
            } else {
                lemma_span_tiles(a, a + 1, XmlPart::Tag);
                lemma_tag_tiles(b, a + 1);
                lemma_tiles_concat(span(a, a + 1, XmlPart::Tag), lex_tag(b, a + 1), a, a + 1, n);
            }
        } else {
            lemma_name_run(b, a);
            let ne = a + name_run(b, a);
            lemma_space_run(b, ne);
            let e1 = ne + space_run(b, ne);
            let e2 = if e1 < n && b[e1] == 61 {
                e1 + 1
            } else {
                e1
            };
            lemma_space_run(b, e2);
            let e3 = e2 + space_run(b, e2);
            let before = span_if(a, ne, XmlPart::AttrName) + span_if(ne, e3, XmlPart::Plain);
            lemma_span_if_tiles(a, ne, XmlPart::AttrName);
            lemma_span_if_tiles(ne, e3, XmlPart::Plain);
            lemma_tiles_concat(
                span_if(a, ne, XmlPart::AttrName),
                span_if(ne, e3, XmlPart::Plain),
                a,
                ne,
                e3,
            );
            if e3 < n && (b[e3] == 34 || b[e3] == 39) {
                lemma_run_until(b, e3 + 1, b[e3]);
                let close = e3 + 1 + run_until(b, e3 + 1, b[e3]);
                let vend = if close < n {
                    close + 1
                } else {
                    close
                };
                lemma_span_tiles(e3, vend, XmlPart::Value);
                lemma_tag_tiles(b, vend);
                lemma_tiles_concat(before, span(e3, vend, XmlPart::Value), a, e3, vend);
                lemma_tiles_concat(
                    before + span(e3, vend, XmlPart::Value),
                    lex_tag(b, vend),
                    a,
                    vend,
                    n,
                );
            } else if e3 == a {
                lemma_span_tiles(a, a + 1, XmlPart::Plain);
                lemma_tag_tiles(b, a + 1);
                lemma_tiles_concat(span(a, a + 1, XmlPart::Plain), lex_tag(b, a + 1), a, a + 1, n);
            } else {
                lemma_tag_tiles(b, e3);
                lemma_tiles_concat(before, lex_tag(b, e3), a, e3, n);
            }
        }
    }
}

} // verus!
