//! Inline span parsing: `*bold*`, `_underline_`, `` `italic` ``,
//! `~strikethrough~` and `\` escapes.
use vstd::prelude::*;
use crate::ast::{Span, SpanModel, SpanStyle, spans_model};
use crate::strs::{chars_of, string_of};

verus! {

/// The style a delimiter character opens or closes, if it is one.
pub open spec fn delimiter_of(c: char) -> Option<SpanStyle> {
    if c == '*' {
        Some(SpanStyle::Bold)
    } else if c == '_' {
        Some(SpanStyle::Underline)
    } else if c == '`' {
        Some(SpanStyle::Italic)
    } else if c == '~' {
        Some(SpanStyle::Strikethrough)
    } else {
        None
    }
}

fn delimiter_style(c: char) -> (r: Option<SpanStyle>)
    ensures
        r == delimiter_of(c),
{
    if c == '*' {
        Some(SpanStyle::Bold)
    } else if c == '_' {
        Some(SpanStyle::Underline)
    } else if c == '`' {
        Some(SpanStyle::Italic)
    } else if c == '~' {
        Some(SpanStyle::Strikethrough)
    } else {
        None
    }
}

/// The state of the span scanner after reading a prefix of the input.
pub struct ScanState {
    /// Spans completed so far.
    pub spans: Seq<SpanModel>,
    /// Characters of the span being read.
    pub buf: Seq<char>,
    /// The style of the span being read.
    pub style: SpanStyle,
    /// Whether the previous character was an unconsumed backslash.
    pub escaped: bool,
}

/// `spans` followed by the span `(buf, style)` when `buf` is non-empty.
pub open spec fn flush(spans: Seq<SpanModel>, buf: Seq<char>, style: SpanStyle) -> Seq<SpanModel> {
    if buf.len() == 0 {
        spans
    } else {
        spans.push(SpanModel { text: buf, style })
    }
}

/// One scanner step. A character after a backslash is literal; a delimiter
/// opens a style when none is open, closes the open style when it matches,
/// and is literal otherwise.
pub open spec fn scan_step(st: ScanState, c: char) -> ScanState {
    if st.escaped {
        ScanState { buf: st.buf.push(c), escaped: false, ..st }
    } else if c == '\\' {
        ScanState { escaped: true, ..st }
    } else {
        match delimiter_of(c) {
            Some(d) => if st.style == SpanStyle::Normal {
                ScanState { spans: flush(st.spans, st.buf, st.style), buf: seq![], style: d, escaped: false }
            } else if st.style == d {
                ScanState {
                    spans: flush(st.spans, st.buf, st.style),
                    buf: seq![],
                    style: SpanStyle::Normal,
                    escaped: false,
                }
            } else {
                ScanState { buf: st.buf.push(c), ..st }
            },
            None => ScanState { buf: st.buf.push(c), ..st },
        }
    }
}

/// The scanner state before any input.
pub open spec fn scan_start() -> ScanState {
    ScanState { spans: seq![], buf: seq![], style: SpanStyle::Normal, escaped: false }
}

/// The scanner state after reading all of `cs`.
pub open spec fn scan(cs: Seq<char>) -> ScanState
    decreases cs.len(),
{
    if cs.len() == 0 {
        scan_start()
    } else {
        scan_step(scan(cs.drop_last()), cs.last())
    }
}

/// The spans of an inline text: the scanner's spans, then what it was
/// still reading (an unclosed style runs to the end of the text).
pub open spec fn spans_of(cs: Seq<char>) -> Seq<SpanModel> {
    let st = scan(cs);
    flush(st.spans, st.buf, st.style)
}

proof fn lemma_scan_push(cs: Seq<char>, c: char)
    ensures
        scan(cs.push(c)) == scan_step(scan(cs), c),
{
    assert(cs.push(c).drop_last() =~= cs);
}

/// Whether a character has a meaning in inline text (a delimiter or `\`).
pub open spec fn is_special(c: char) -> bool {
    c == '\\' || delimiter_of(c) is Some
}

/// The inline markup that spells out `t` literally: every special
/// character is preceded by a backslash.
pub open spec fn escape(t: Seq<char>) -> Seq<char>
    decreases t.len(),
{
    if t.len() == 0 {
        seq![]
    } else if is_special(t.last()) {
        escape(t.drop_last()).push('\\').push(t.last())
    } else {
        escape(t.drop_last()).push(t.last())
    }
}

proof fn lemma_scan_escape(p: Seq<char>, t: Seq<char>)
    requires
        !scan(p).escaped,
    ensures
        scan(p + escape(t)) == (ScanState { buf: scan(p).buf + t, ..scan(p) }),
    decreases t.len(),
{
    if t.len() == 0 {
        assert(p + escape(t) =~= p);
        assert(scan(p).buf + t =~= scan(p).buf);
    } else {
        let c = t.last();
        let u = t.drop_last();
        lemma_scan_escape(p, u);
        let q = p + escape(u);
        if is_special(c) {
            assert(p + escape(t) =~= q.push('\\').push(c));
            lemma_scan_push(q, '\\');
            lemma_scan_push(q.push('\\'), c);
        } else {
            assert(p + escape(t) =~= q.push(c));
            lemma_scan_push(q, c);
        }
        assert(scan(p).buf + u + seq![c] =~= scan(p).buf + t);
        assert((scan(p).buf + u).push(c) =~= scan(p).buf + t);
    }
}

/// Escaping is faithful: the escaped form of any text parses back to
/// exactly that text, as one unstyled span (or to no span when empty).
pub proof fn law_escape_roundtrip(t: Seq<char>)
    ensures
        spans_of(escape(t)) == (if t.len() == 0 {
            Seq::<SpanModel>::empty()
        } else {
            seq![SpanModel { text: t, style: SpanStyle::Normal }]
        }),
{
    let e: Seq<char> = seq![];
    assert(scan(e) == scan_start());
    lemma_scan_escape(e, t);
    assert(e + escape(t) =~= escape(t));
    assert(seq![] + t =~= t);
}

/// A delimiter pair around escaped text yields that text as one span in
/// the delimiter's style.
pub proof fn law_delimited_span(d: char, t: Seq<char>)
    requires
        delimiter_of(d) is Some,
        t.len() > 0,
    ensures
        spans_of(seq![d] + escape(t) + seq![d]) == seq![SpanModel { text: t, style: delimiter_of(d)->0 }],
{
    let open_: Seq<char> = seq![d];
    let e: Seq<char> = seq![];
    lemma_scan_push(e, d);
    assert(e.push(d) =~= open_);
    lemma_scan_escape(open_, t);
    let q = open_ + escape(t);
    lemma_scan_push(q, d);
    assert(q.push(d) =~= seq![d] + escape(t) + seq![d]);
    assert(seq![] + t =~= t);
}

/// Every span the scanner produces holds at least one character.
pub proof fn law_spans_nonempty(cs: Seq<char>)
    ensures
        forall|i: int| 0 <= i < spans_of(cs).len() ==> spans_of(cs)[i].text.len() > 0,
{
    lemma_scan_spans_nonempty(cs);
}

proof fn lemma_scan_spans_nonempty(cs: Seq<char>)
    ensures
        forall|i: int| 0 <= i < scan(cs).spans.len() ==> scan(cs).spans[i].text.len() > 0,
    decreases cs.len(),
{
    if cs.len() > 0 {
        lemma_scan_spans_nonempty(cs.drop_last());
    }
}

/// Parse inline styled spans from a slice of characters.
pub fn parse_spans_chars(cs: &[char]) -> (spans: Vec<Span>)
    ensures
        spans_model(spans@) == spans_of(cs@),
{
    let mut spans: Vec<Span> = Vec::new();
    let mut buf: Vec<char> = Vec::new();
    let mut style = SpanStyle::Normal;
    let mut escaped = false;
    let mut i: usize = 0;
    while i < cs.len()
        invariant
            i <= cs@.len(),
            ({
                let st = scan(cs@.take(i as int));
                &&& spans_model(spans@) == st.spans
                &&& buf@ == st.buf
                &&& style == st.style
                &&& escaped == st.escaped
            }),
        decreases cs@.len() - i,
    {
        let c = cs[i];
        proof {
            lemma_scan_push(cs@.take(i as int), c);
            assert(cs@.take(i + 1) =~= cs@.take(i as int).push(c));
        }
        if escaped {
            buf.push(c);
            escaped = false;
        } else if c == '\\' {
            escaped = true;
        } else {
            match delimiter_style(c) {
                Some(d) => {
                    if style == SpanStyle::Normal || style == d {
                        if buf.len() > 0 {
                            let text = string_of(buf.as_slice(), 0, buf.len());
                            proof { assert(buf@.subrange(0, buf@.len() as int) =~= buf@); }
                            let ghost before = spans@;
                            spans.push(Span { text, style });
                            proof {
                                assert(spans_model(spans@) =~= spans_model(before).push(
                                    SpanModel { text: buf@, style },
                                ));
                            }
                        }
                        buf = Vec::new();
                        if style == SpanStyle::Normal {
                            style = d;
                        } else {
                            style = SpanStyle::Normal;
                        }
                    } else {
                        buf.push(c);
                    }
                },
                None => {
                    buf.push(c);
                },
            }
        }
        i = i + 1;
    }
    proof {
        assert(cs@.take(i as int) =~= cs@);
    }
    if buf.len() > 0 {
        let text = string_of(buf.as_slice(), 0, buf.len());
        proof { assert(buf@.subrange(0, buf@.len() as int) =~= buf@); }
        let ghost before = spans@;
        spans.push(Span { text, style });
        proof {
            assert(spans_model(spans@) =~= spans_model(before).push(SpanModel { text: buf@, style }));
        }
    }
    spans
}

/// Parse inline styled spans from text.
///
/// Handles `*bold*`, `_underline_`, `` `italic` ``, `~strikethrough~` and
/// `\` escaping. A delimiter of another style inside a styled span is
/// literal; an unclosed style applies to the rest of the text.
pub fn parse_spans(input: &str) -> (spans: Vec<Span>)
    ensures
        spans_model(spans@) == spans_of(input@),
{
    let cs = chars_of(input);
    parse_spans_chars(cs.as_slice())
}

/// The inline delimiters: `*` bold, `_` underline, `` ` `` italic and `~`
/// strikethrough; no other character delimits a span.
pub proof fn law_delimiters(c: char)
    ensures
        delimiter_of('*') == Some(SpanStyle::Bold),
        delimiter_of('_') == Some(SpanStyle::Underline),
        delimiter_of('`') == Some(SpanStyle::Italic),
        delimiter_of('~') == Some(SpanStyle::Strikethrough),
        c != '*' && c != '_' && c != '`' && c != '~' ==> delimiter_of(c) is None,
{
}

} // verus!
