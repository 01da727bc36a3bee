//! Text layout helpers for character-cell renderers (plain text, ESC/POS).
//! Widths count characters.
use vstd::prelude::*;
use crate::ast::{Align, LineStyle, Span, SpanModel, spans_model};
use crate::lexical::{is_ws, is_whitespace};
use crate::strs::{chars_of, string_of, string_push};

verus! {

/// The characters of a list of spans, styles dropped.
pub open spec fn spans_text(spans: Seq<SpanModel>) -> Seq<char>
    decreases spans.len(),
{
    if spans.len() == 0 {
        seq![]
    } else {
        spans_text(spans.drop_last()) + spans.last().text
    }
}

/// The characters of a list of spans (see [`spans_text`]).
pub fn spans_chars(spans: &[Span]) -> (v: Vec<char>)
    ensures
        v@ == spans_text(spans_model(spans@)),
{
    let mut v: Vec<char> = Vec::new();
    let mut i: usize = 0;
    while i < spans.len()
        invariant
            i <= spans@.len(),
            v@ == spans_text(spans_model(spans@.take(i as int))),
        decreases spans@.len() - i,
    {
        let cs = chars_of(spans[i].text.as_str());
        let mut j: usize = 0;
        let ghost start = v@;
        while j < cs.len()
            invariant
                j <= cs@.len(),
                v@ == start + cs@.take(j as int),
            decreases cs@.len() - j,
        {
            v.push(cs[j]);
            j = j + 1;
            assert(cs@.take(j as int) =~= cs@.take(j - 1).push(cs@[j - 1]));
        }
        proof {
            assert(cs@.take(j as int) =~= cs@);
            assert(spans_model(spans@.take(i + 1)).drop_last() =~= spans_model(spans@.take(i as int)));
            assert(spans_model(spans@.take(i + 1)).last() == spans@[i as int]@);
        }
        i = i + 1;
    }
    proof {
        assert(spans@.take(i as int) =~= spans@);
    }
    v
}

/// Concatenate span texts, dropping all style information.
pub fn spans_to_text(spans: &[Span]) -> (s: String)
    ensures
        s@ == spans_text(spans_model(spans@)),
{
    let v = spans_chars(spans);
    let s = string_of(v.as_slice(), 0, v.len());
    proof { assert(v@.subrange(0, v@.len() as int) =~= v@); }
    s
}

/// `n` spaces.
pub open spec fn spaces(n: nat) -> Seq<char> {
    Seq::new(n, |i: int| ' ')
}

/// Text centered in `width` characters: cut to `width` when it does not
/// fit, else preceded by half the spare width (rounded down) in spaces.
pub open spec fn center_spec(t: Seq<char>, width: nat) -> Seq<char> {
    if t.len() >= width {
        t.take(width as int)
    } else {
        spaces(((width - t.len()) / 2) as nat) + t
    }
}

/// Center characters within `width` (see [`center_spec`]).
pub fn center_chars(t: &[char], width: usize) -> (v: Vec<char>)
    ensures
        v@ == center_spec(t@, width as nat),
{
    let mut v: Vec<char> = Vec::new();
    if t.len() >= width {
        let mut i: usize = 0;
        while i < width
            invariant
                width <= t@.len(),
                i <= width,
                v@ == t@.take(i as int),
            decreases width - i,
        {
            v.push(t[i]);
            i = i + 1;
            assert(v@ =~= t@.take(i as int));
        }
        return v;
    }
    let pad = (width - t.len()) / 2;
    let mut i: usize = 0;
    while i < pad
        invariant
            i <= pad,
            v@ == spaces(i as nat),
        decreases pad - i,
    {
        v.push(' ');
        i = i + 1;
        assert(v@ =~= spaces(i as nat));
    }
    let mut j: usize = 0;
    while j < t.len()
        invariant
            j <= t@.len(),
            v@ == spaces(pad as nat) + t@.take(j as int),
        decreases t@.len() - j,
    {
        v.push(t[j]);
        j = j + 1;
        assert(v@ =~= spaces(pad as nat) + t@.take(j as int));
    }
    assert(t@.take(j as int) =~= t@);
    v
}

/// Center text within `width` characters (see [`center_spec`]).
pub fn center(text: &str, width: usize) -> (s: String)
    ensures
        s@ == center_spec(text@, width as nat),
{
    let t = chars_of(text);
    let v = center_chars(t.as_slice(), width);
    let s = string_of(v.as_slice(), 0, v.len());
    proof { assert(v@.subrange(0, v@.len() as int) =~= v@); }
    s
}

/// Offset (in characters) of content within a cell: none when it fills the
/// cell, all the spare width for right, half of it (rounded down) for center.
pub open spec fn align_offset_spec(cell_width: int, content_width: int, align: Align) -> int {
    if content_width >= cell_width {
        0
    } else {
        match align {
            Align::Left => 0,
            Align::Right => cell_width - content_width,
            Align::Center => (cell_width - content_width) / 2,
        }
    }
}

/// Alignment offset within a cell (see [`align_offset_spec`]).
pub fn align_offset(cell_width: usize, content_width: usize, align: Align) -> (r: usize)
    ensures
        r == align_offset_spec(cell_width as int, content_width as int, align),
{
    if content_width >= cell_width {
        return 0;
    }
    match align {
        Align::Left => 0,
        Align::Right => cell_width - content_width,
        Align::Center => (cell_width - content_width) / 2,
    }
}

/// The character a divider style is drawn with.
pub open spec fn divider_char_spec(style: LineStyle) -> char {
    match style {
        LineStyle::Thin => '-',
        LineStyle::Thick => '=',
        LineStyle::Dotted => '.',
    }
}

/// Map a divider style to its character.
pub fn divider_char(style: LineStyle) -> (c: char)
    ensures
        c == divider_char_spec(style),
{
    match style {
        LineStyle::Thin => '-',
        LineStyle::Thick => '=',
        LineStyle::Dotted => '.',
    }
}

/// The state of the word splitter: finished words and the current word.
pub struct WordState {
    pub done: Seq<Seq<char>>,
    pub cur: Seq<char>,
}

/// The word splitter after reading `t`.
pub open spec fn word_scan(t: Seq<char>) -> WordState
    decreases t.len(),
{
    if t.len() == 0 {
        WordState { done: seq![], cur: seq![] }
    } else {
        let st = word_scan(t.drop_last());
        if is_ws(t.last()) {
            if st.cur.len() > 0 {
                WordState { done: st.done.push(st.cur), cur: seq![] }
            } else {
                st
            }
        } else {
            WordState { cur: st.cur.push(t.last()), ..st }
        }
    }
}

/// The words of `t`: its maximal runs of non-whitespace characters.
pub open spec fn words(t: Seq<char>) -> Seq<Seq<char>> {
    let st = word_scan(t);
    if st.cur.len() > 0 {
        st.done.push(st.cur)
    } else {
        st.done
    }
}

/// The full `m`-character pieces cut off the front of a word longer than `m`.
pub open spec fn chunks(w: Seq<char>, m: nat) -> Seq<Seq<char>>
    decreases w.len(),
{
    if m > 0 && w.len() > m {
        seq![w.take(m as int)] + chunks(w.skip(m as int), m)
    } else {
        seq![]
    }
}

/// What remains of a word after its full `m`-character pieces are cut off
/// (at most `m` characters).
pub open spec fn chunk_rest(w: Seq<char>, m: nat) -> Seq<char>
    decreases w.len(),
{
    if m > 0 && w.len() > m {
        chunk_rest(w.skip(m as int), m)
    } else {
        w
    }
}

/// The state of the line filler: finished lines and the current line.
pub struct WrapState {
    pub lines: Seq<Seq<char>>,
    pub cur: Seq<char>,
}

/// Start a new line with word `w`, cutting it when it is too long.
pub open spec fn place_word(lines: Seq<Seq<char>>, w: Seq<char>, m: nat) -> WrapState {
    WrapState { lines: lines + chunks(w, m), cur: chunk_rest(w, m) }
}

/// Add word `w`: to the current line after a space when it fits, else on
/// a new line.
pub open spec fn wrap_step(st: WrapState, w: Seq<char>, m: nat) -> WrapState {
    if st.cur.len() == 0 {
        place_word(st.lines, w, m)
    } else if st.cur.len() + 1 + w.len() <= m {
        WrapState { cur: st.cur + seq![' '] + w, ..st }
    } else {
        place_word(st.lines.push(st.cur), w, m)
    }
}

/// The line filler after adding all of `ws`.
pub open spec fn wrap_words(ws: Seq<Seq<char>>, m: nat) -> WrapState
    decreases ws.len(),
{
    if ws.len() == 0 {
        WrapState { lines: seq![], cur: seq![] }
    } else {
        wrap_step(wrap_words(ws.drop_last(), m), ws.last(), m)
    }
}

/// Text wrapped to lines of at most `m` characters: text that fits is one
/// line as is; otherwise its words are filled greedily into lines joined
/// by single spaces, and a word longer than a line is cut. There is always
/// at least one line.
pub open spec fn word_wrap_spec(t: Seq<char>, m: nat) -> Seq<Seq<char>> {
    if t.len() == 0 {
        seq![seq![]]
    } else if t.len() <= m {
        seq![t]
    } else {
        let st = wrap_words(words(t), m);
        let ls = if st.cur.len() > 0 { st.lines.push(st.cur) } else { st.lines };
        if ls.len() == 0 {
            seq![seq![]]
        } else {
            ls
        }
    }
}

proof fn lemma_chunks_fit(w: Seq<char>, m: nat)
    requires
        m > 0,
    ensures
        forall|i: int| 0 <= i < chunks(w, m).len() ==> (#[trigger] chunks(w, m)[i]).len() <= m,
        chunk_rest(w, m).len() <= m,
    decreases w.len(),
{
    if w.len() > m {
        lemma_chunks_fit(w.skip(m as int), m);
        let c = chunks(w, m);
        let tail = chunks(w.skip(m as int), m);
        assert forall|i: int| 0 <= i < c.len() implies (#[trigger] c[i]).len() <= m by {
            if i > 0 {
                assert(c[i] == tail[i - 1]);
            }
        }
    }
}

proof fn lemma_wrap_words_fit(ws: Seq<Seq<char>>, m: nat)
    requires
        m > 0,
    ensures
        forall|i: int| 0 <= i < wrap_words(ws, m).lines.len() ==> (#[trigger] wrap_words(ws, m).lines[i]).len() <= m,
        wrap_words(ws, m).cur.len() <= m,
    decreases ws.len(),
{
    if ws.len() > 0 {
        lemma_wrap_words_fit(ws.drop_last(), m);
        let st = wrap_words(ws.drop_last(), m);
        let w = ws.last();
        lemma_chunks_fit(w, m);
        let base = if st.cur.len() == 0 || st.cur.len() + 1 + w.len() <= m { st.lines } else { st.lines.push(st.cur) };
        let r = wrap_words(ws, m);
        assert forall|i: int| 0 <= i < r.lines.len() implies (#[trigger] r.lines[i]).len() <= m by {
            if st.cur.len() != 0 && st.cur.len() + 1 + w.len() <= m {
                assert(r.lines == st.lines);
            } else {
                assert(r.lines == base + chunks(w, m));
                if i < base.len() {
                    assert(r.lines[i] == base[i]);
                } else {
                    assert(r.lines[i] == chunks(w, m)[i - base.len()]);
                }
            }
        }
    }
}

/// No wrapped line is longer than the width.
pub proof fn law_wrap_fits(t: Seq<char>, m: nat)
    requires
        m > 0,
    ensures
        forall|i: int| 0 <= i < word_wrap_spec(t, m).len() ==> (#[trigger] word_wrap_spec(t, m)[i]).len() <= m,
{
    if t.len() > m {
        lemma_wrap_words_fit(words(t), m);
    }
}

/// A text without its whitespace characters.
pub open spec fn strip_ws(s: Seq<char>) -> Seq<char>
    decreases s.len(),
{
    if s.len() == 0 {
        seq![]
    } else {
        strip_ws(s.drop_last()) + if is_ws(s.last()) { seq![] } else { seq![s.last()] }
    }
}

/// Lines joined end to end.
pub open spec fn joined(ls: Seq<Seq<char>>) -> Seq<char>
    decreases ls.len(),
{
    if ls.len() == 0 {
        seq![]
    } else {
        joined(ls.drop_last()) + ls.last()
    }
}

/// No character of the text is whitespace.
pub open spec fn no_ws(s: Seq<char>) -> bool {
    forall|i: int| 0 <= i < s.len() ==> !is_ws(#[trigger] s[i])
}

proof fn lemma_joined_one(x: Seq<char>)
    ensures
        joined(seq![x]) == x,
{
    let s = seq![x];
    assert(s.drop_last() =~= Seq::<Seq<char>>::empty());
    assert(joined(s.drop_last()) == Seq::<char>::empty());
    assert(s.last() == x);
    assert(Seq::<char>::empty() + x =~= x);
}

proof fn lemma_strip_space()
    ensures
        strip_ws(seq![' ']) == Seq::<char>::empty(),
{
    let s = seq![' '];
    assert(s.drop_last() =~= Seq::<char>::empty());
    assert(strip_ws(s.drop_last()) == Seq::<char>::empty());
    assert(s.last() == ' ');
    assert(is_ws(' '));
    assert(Seq::<char>::empty() + Seq::<char>::empty() =~= Seq::<char>::empty());
}

proof fn lemma_strip_add(a: Seq<char>, b: Seq<char>)
    ensures
        strip_ws(a + b) == strip_ws(a) + strip_ws(b),
    decreases b.len(),
{
    if b.len() == 0 {
        assert(a + b =~= a);
        assert(strip_ws(a) + strip_ws(b) =~= strip_ws(a));
    } else {
        lemma_strip_add(a, b.drop_last());
        assert((a + b).drop_last() =~= a + b.drop_last());
        assert((a + b).last() == b.last());
        let e: Seq<char> = if is_ws(b.last()) { seq![] } else { seq![b.last()] };
        assert(strip_ws(a) + strip_ws(b.drop_last()) + e =~= strip_ws(a) + (strip_ws(b.drop_last()) + e));
    }
}

proof fn lemma_strip_plain(s: Seq<char>)
    requires
        no_ws(s),
    ensures
        strip_ws(s) == s,
    decreases s.len(),
{
    if s.len() > 0 {
        assert(no_ws(s.drop_last())) by {
            assert forall|i: int| 0 <= i < s.drop_last().len() implies !is_ws(#[trigger] s.drop_last()[i]) by {
                assert(s.drop_last()[i] == s[i]);
            }
        }
        lemma_strip_plain(s.drop_last());
        assert(!is_ws(s[s.len() - 1]));
        assert(s.drop_last() + seq![s.last()] =~= s);
    }
}

proof fn lemma_joined_add(a: Seq<Seq<char>>, b: Seq<Seq<char>>)
    ensures
        joined(a + b) == joined(a) + joined(b),
    decreases b.len(),
{
    if b.len() == 0 {
        assert(a + b =~= a);
        assert(joined(a) + joined(b) =~= joined(a));
    } else {
        lemma_joined_add(a, b.drop_last());
        assert((a + b).drop_last() =~= a + b.drop_last());
        assert((a + b).last() == b.last());
        assert(joined(a) + joined(b.drop_last()) + b.last() =~= joined(a) + (joined(b.drop_last()) + b.last()));
    }
}

proof fn lemma_chunks_join(w: Seq<char>, m: nat)
    ensures
        joined(chunks(w, m)) + chunk_rest(w, m) == w,
    decreases w.len(),
{
    if m > 0 && w.len() > m {
        lemma_chunks_join(w.skip(m as int), m);
        let head = w.take(m as int);
        let tail = chunks(w.skip(m as int), m);
        lemma_joined_add(seq![head], tail);
        lemma_joined_one(head);
        assert(head + joined(tail) + chunk_rest(w.skip(m as int), m) =~= head + (joined(tail) + chunk_rest(w.skip(m as int), m)));
        assert(head + w.skip(m as int) =~= w);
    } else {
        assert(joined(chunks(w, m)) + chunk_rest(w, m) =~= w);
    }
}

proof fn lemma_word_scan(t: Seq<char>)
    ensures
        joined(word_scan(t).done) + word_scan(t).cur == strip_ws(t),
        no_ws(word_scan(t).cur),
        forall|k: int| 0 <= k < word_scan(t).done.len() ==> no_ws(#[trigger] word_scan(t).done[k]),
    decreases t.len(),
{
    if t.len() > 0 {
        lemma_word_scan(t.drop_last());
        let st = word_scan(t.drop_last());
        let c = t.last();
        if is_ws(c) {
            if st.cur.len() > 0 {
                let d = st.done.push(st.cur);
                assert(d.drop_last() =~= st.done);
                assert(joined(d) + seq![] =~= joined(d));
                assert forall|k: int| 0 <= k < d.len() implies no_ws(#[trigger] d[k]) by {
                    if k < st.done.len() {
                        assert(d[k] == st.done[k]);
                    }
                }
            }
            assert(strip_ws(t.drop_last()) + seq![] =~= strip_ws(t.drop_last()));
        } else {
            let cur = st.cur.push(c);
            assert(joined(st.done) + cur =~= joined(st.done) + st.cur + seq![c]);
            assert forall|i: int| 0 <= i < cur.len() implies !is_ws(#[trigger] cur[i]) by {
                if i < st.cur.len() {
                    assert(cur[i] == st.cur[i]);
                }
            }
        }
    }
}

proof fn lemma_words_join(t: Seq<char>)
    ensures
        joined(words(t)) == strip_ws(t),
        forall|k: int| 0 <= k < words(t).len() ==> no_ws(#[trigger] words(t)[k]),
{
    lemma_word_scan(t);
    let st = word_scan(t);
    if st.cur.len() > 0 {
        let d = st.done.push(st.cur);
        assert(d.drop_last() =~= st.done);
        assert forall|k: int| 0 <= k < d.len() implies no_ws(#[trigger] d[k]) by {
            if k < st.done.len() {
                assert(d[k] == st.done[k]);
            }
        }
    } else {
        assert(joined(st.done) + st.cur =~= joined(st.done));
    }
}

proof fn lemma_wrap_words_join(ws: Seq<Seq<char>>, m: nat)
    requires
        forall|k: int| 0 <= k < ws.len() ==> no_ws(#[trigger] ws[k]),
    ensures
        strip_ws(joined(wrap_words(ws, m).lines) + wrap_words(ws, m).cur) == joined(ws),
    decreases ws.len(),
{
    if ws.len() == 0 {
        assert(joined(Seq::<Seq<char>>::empty()) + Seq::<char>::empty() =~= Seq::<char>::empty());
    } else {
        let pre = ws.drop_last();
        assert forall|k: int| 0 <= k < pre.len() implies no_ws(#[trigger] pre[k]) by {
            assert(pre[k] == ws[k]);
        }
        lemma_wrap_words_join(pre, m);
        let st = wrap_words(pre, m);
        let w = ws.last();
        assert(no_ws(w)) by {
            assert(w == ws[ws.len() - 1]);
        }
        lemma_strip_plain(w);
        lemma_chunks_join(w, m);
        let prev = joined(st.lines) + st.cur;
        // strip_ws(prev) == joined(pre); the goal is joined(pre) + w
        if st.cur.len() == 0 {
            let r = place_word(st.lines, w, m);
            lemma_joined_add(st.lines, chunks(w, m));
            assert(joined(r.lines) + r.cur =~= joined(st.lines) + (joined(chunks(w, m)) + chunk_rest(w, m)));
            assert(prev =~= joined(st.lines));
            lemma_strip_add(joined(st.lines), w);
        } else if st.cur.len() + 1 + w.len() <= m {
            let cur2 = st.cur + seq![' '] + w;
            assert(joined(st.lines) + cur2 =~= prev + (seq![' '] + w));
            lemma_strip_add(prev, seq![' '] + w);
            lemma_strip_add(seq![' '], w);
            lemma_strip_space();
            assert(Seq::<char>::empty() + w =~= w);
        } else {
            let l2 = st.lines.push(st.cur);
            let r = place_word(l2, w, m);
            lemma_joined_add(l2, chunks(w, m));
            assert(l2.drop_last() =~= st.lines);
            assert(joined(r.lines) + r.cur =~= prev + (joined(chunks(w, m)) + chunk_rest(w, m)));
            lemma_strip_add(prev, w);
        }
        assert(joined(pre) + w == joined(ws)) by {
            assert(ws.drop_last() == pre);
        }
    }
}

/// Wrapping keeps the text: the lines, joined, hold every non-whitespace
/// character of the text in order; and a text that fits the width comes
/// back as its single line.
pub proof fn law_wrap_keeps_text(t: Seq<char>, m: nat)
    ensures
        strip_ws(joined(word_wrap_spec(t, m))) == strip_ws(t),
        0 < t.len() <= m ==> word_wrap_spec(t, m) == seq![t],
{
    let r = word_wrap_spec(t, m);
    if t.len() == 0 {
        lemma_joined_one(Seq::<char>::empty());
    } else if t.len() <= m {
        lemma_joined_one(t);
    } else {
        lemma_words_join(t);
        lemma_wrap_words_join(words(t), m);
        let st = wrap_words(words(t), m);
        let ls = if st.cur.len() > 0 { st.lines.push(st.cur) } else { st.lines };
        if st.cur.len() > 0 {
            assert(ls.drop_last() =~= st.lines);
        } else {
            assert(joined(st.lines) + st.cur =~= joined(st.lines));
        }
        if ls.len() == 0 {
            lemma_joined_one(Seq::<char>::empty());
            assert(joined(ls) == Seq::<char>::empty());
        }
    }
}

/// The words of a text (see [`words`]).
pub fn split_words(t: &[char]) -> (ws: Vec<Vec<char>>)
    ensures
        ws@.len() == words(t@).len(),
        forall|i: int| 0 <= i < ws@.len() ==> #[trigger] ws@[i]@ == words(t@)[i],
{
    let mut done: Vec<Vec<char>> = Vec::new();
    let mut cur: Vec<char> = Vec::new();
    let mut i: usize = 0;
    while i < t.len()
        invariant
            i <= t@.len(),
            ({
                let st = word_scan(t@.take(i as int));
                &&& done@.len() == st.done.len()
                &&& forall|k: int| 0 <= k < done@.len() ==> #[trigger] done@[k]@ == st.done[k]
                &&& cur@ == st.cur
            }),
        decreases t@.len() - i,
    {
        let c = t[i];
        proof {
            assert(t@.take(i + 1).drop_last() =~= t@.take(i as int));
        }
        if is_whitespace(c) {
            if cur.len() > 0 {
                done.push(cur);
                cur = Vec::new();
            }
        } else {
            cur.push(c);
        }
        i = i + 1;
    }
    proof {
        assert(t@.take(i as int) =~= t@);
    }
    if cur.len() > 0 {
        done.push(cur);
    }
    done
}

proof fn lemma_chunks_step(w: Seq<char>, m: nat)
    requires
        m > 0,
        w.len() > m,
    ensures
        chunks(w, m) == seq![w.take(m as int)] + chunks(w.skip(m as int), m),
        chunk_rest(w, m) == chunk_rest(w.skip(m as int), m),
{
}

/// Append the pieces of word `w` to `lines` and return its remainder.
fn place_word_exec(lines: &mut Vec<Vec<char>>, w: &[char], m: usize) -> (rest: Vec<char>)
    requires
        m > 0,
    ensures
        ({
            let st = place_word(lines_model(old(lines)@), w@, m as nat);
            &&& lines_model(final(lines)@) == st.lines
            &&& rest@ == st.cur
        }),
{
    let mut start: usize = 0;
    let ghost base = lines_model(lines@);
    proof {
        assert(w@.skip(0) =~= w@);
    }
    while w.len() - start > m
        invariant
            m > 0,
            start <= w@.len(),
            base + chunks(w@, m as nat) == lines_model(lines@) + chunks(w@.skip(start as int), m as nat),
            chunk_rest(w@, m as nat) == chunk_rest(w@.skip(start as int), m as nat),
        decreases w@.len() - start,
    {
        let piece = crate::lexical::slice_vec(w, start, start + m);
        let ghost rem = w@.skip(start as int);
        proof {
            lemma_chunks_step(rem, m as nat);
            assert(rem.take(m as int) =~= piece@);
            assert(rem.skip(m as int) =~= w@.skip(start + m));
        }
        let ghost before = lines_model(lines@);
        lines.push(piece);
        proof {
            assert(lines_model(lines@) =~= before.push(piece@));
            assert(before + (seq![piece@] + chunks(w@.skip(start + m), m as nat)) =~= before.push(piece@) + chunks(
                w@.skip(start + m),
                m as nat,
            ));
        }
        start = start + m;
    }
    let rest = crate::lexical::slice_vec(w, start, w.len());
    proof {
        let rem = w@.skip(start as int);
        assert(rest@ =~= rem);
        assert(chunks(rem, m as nat) == Seq::<Seq<char>>::empty());
        assert(chunk_rest(rem, m as nat) == rem);
        assert(lines_model(lines@) + Seq::<Seq<char>>::empty() =~= lines_model(lines@));
    }
    rest
}

/// The models of a list of character vectors.
pub open spec fn lines_model(ls: Seq<Vec<char>>) -> Seq<Seq<char>> {
    ls.map_values(|l: Vec<char>| l@)
}

/// Wrap characters to lines of at most `max_width` (see [`word_wrap_spec`]).
pub fn word_wrap_chars(t: &[char], max_width: usize) -> (ls: Vec<Vec<char>>)
    requires
        max_width > 0 || words(t@).len() == 0,
    ensures
        lines_model(ls@) == word_wrap_spec(t@, max_width as nat),
{
    if t.len() == 0 {
        let mut ls: Vec<Vec<char>> = Vec::new();
        ls.push(Vec::new());
        proof { assert(lines_model(ls@) =~= seq![Seq::<char>::empty()]); }
        return ls;
    }
    if t.len() <= max_width {
        let mut ls: Vec<Vec<char>> = Vec::new();
        ls.push(crate::lexical::slice_vec(t, 0, t.len()));
        proof {
            assert(t@.subrange(0, t@.len() as int) =~= t@);
            assert(lines_model(ls@) =~= seq![t@]);
        }
        return ls;
    }
    let ws = split_words(t);
    let ghost wm = words(t@);
    let mut lines: Vec<Vec<char>> = Vec::new();
    let mut cur: Vec<char> = Vec::new();
    let mut i: usize = 0;
    while i < ws.len()
        invariant
            max_width > 0 || wm.len() == 0,
            i <= ws@.len(),
            ws@.len() == wm.len(),
            forall|k: int| 0 <= k < ws@.len() ==> #[trigger] ws@[k]@ == wm[k],
            ({
                let st = wrap_words(wm.take(i as int), max_width as nat);
                &&& lines_model(lines@) == st.lines
                &&& cur@ == st.cur
            }),
        decreases ws@.len() - i,
    {
        proof {
            assert(wm.take(i + 1).drop_last() =~= wm.take(i as int));
            assert(wm.take(i + 1).last() == ws@[i as int]@);
        }
        let w = &ws[i];
        if cur.len() == 0 {
            cur = place_word_exec(&mut lines, w.as_slice(), max_width);
        } else if cur.len() < max_width && w.len() <= max_width - cur.len() - 1 {
            cur.push(' ');
            let mut j: usize = 0;
            let ghost start = cur@;
            while j < w.len()
                invariant
                    j <= w@.len(),
                    cur@ == start + w@.take(j as int),
                decreases w@.len() - j,
            {
                cur.push(w[j]);
                j = j + 1;
                assert(w@.take(j as int) =~= w@.take(j - 1).push(w@[j - 1]));
            }
            proof {
                assert(w@.take(j as int) =~= w@);
            }
        } else {
            let full = cur;
            let ghost before = lines_model(lines@);
            lines.push(full);
            proof { assert(lines_model(lines@) =~= before.push(full@)); }
            cur = place_word_exec(&mut lines, w.as_slice(), max_width);
        }
        i = i + 1;
    }
    proof {
        assert(wm.take(i as int) =~= wm);
    }
    if cur.len() > 0 {
        let ghost before = lines_model(lines@);
        lines.push(cur);
        proof { assert(lines_model(lines@) =~= before.push(lines@.last()@)); }
    }
    if lines.len() == 0 {
        lines.push(Vec::new());
        proof { assert(lines_model(lines@) =~= seq![Seq::<char>::empty()]); }
    }
    lines
}

/// Word-wrap text to lines of at most `max_width` characters (see
/// [`word_wrap_spec`]). A zero width is accepted for blank text, which
/// gives one empty line.
pub fn word_wrap(text: &str, max_width: usize) -> (ls: Vec<String>)
    requires
        max_width > 0 || words(text@).len() == 0,
    ensures
        ls@.len() == word_wrap_spec(text@, max_width as nat).len(),
        forall|i: int| 0 <= i < ls@.len() ==> #[trigger] ls@[i]@ == word_wrap_spec(text@, max_width as nat)[i],
{
    let t = chars_of(text);
    let lines = word_wrap_chars(t.as_slice(), max_width);
    let mut out: Vec<String> = Vec::new();
    let mut i: usize = 0;
    while i < lines.len()
        invariant
            i <= lines@.len(),
            lines_model(lines@) == word_wrap_spec(text@, max_width as nat),
            out@.len() == i,
            forall|k: int| 0 <= k < i ==> #[trigger] out@[k]@ == lines@[k]@,
        decreases lines@.len() - i,
    {
        let s = string_of(lines[i].as_slice(), 0, lines[i].len());
        proof { assert(lines@[i as int]@.subrange(0, lines@[i as int]@.len() as int) =~= lines@[i as int]@); }
        out.push(s);
        i = i + 1;
    }
    proof {
        assert forall|k: int| 0 <= k < out@.len() implies #[trigger] out@[k]@ == word_wrap_spec(text@, max_width as nat)[k] by {
            assert(lines_model(lines@)[k] == lines@[k]@);
        }
    }
    out
}

/// Content narrower than its cell is placed by the alignment: at the left
/// edge, flush right (the spare width before it), or centered (half the
/// spare width, rounded down, before it); content as wide as the cell or
/// wider starts at the left edge.
pub proof fn law_align_offsets(cell_width: int, content_width: int)
    ensures
        align_offset_spec(cell_width, content_width, Align::Left) == 0,
        content_width < cell_width ==> align_offset_spec(cell_width, content_width, Align::Right) + content_width == cell_width,
        content_width < cell_width ==> {
            let o = align_offset_spec(cell_width, content_width, Align::Center);
            let after = cell_width - content_width - o;
            o == after || o + 1 == after
        },
        content_width >= cell_width ==> align_offset_spec(cell_width, content_width, Align::Right) == 0
            && align_offset_spec(cell_width, content_width, Align::Center) == 0,
{
}

/// Dividers are drawn with `-` for thin, `=` for thick and `.` for dotted
/// lines.
pub proof fn law_divider_chars()
    ensures
        divider_char_spec(LineStyle::Thin) == '-',
        divider_char_spec(LineStyle::Thick) == '=',
        divider_char_spec(LineStyle::Dotted) == '.',
{
}

} // verus!
