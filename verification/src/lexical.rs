//! Character-sequence primitives used by the parser: whitespace, trimming,
//! line splitting, field splitting and number parsing.
use vstd::prelude::*;

verus! {

/// Unicode `White_Space` (the set `char::is_whitespace` tests).
pub open spec fn is_ws(c: char) -> bool {
    let v = c as u32;
    v == 0x20 || (0x09 <= v && v <= 0x0D) || v == 0x85 || v == 0xA0 || v == 0x1680 || (0x2000 <= v
        && v <= 0x200A) || v == 0x2028 || v == 0x2029 || v == 0x202F || v == 0x205F || v == 0x3000
}

/// Whether `c` is Unicode whitespace.
pub fn is_whitespace(c: char) -> (r: bool)
    ensures
        r == is_ws(c),
{
    let v = c as u32;
    v == 0x20 || (0x09 <= v && v <= 0x0D) || v == 0x85 || v == 0xA0 || v == 0x1680 || (0x2000 <= v
        && v <= 0x200A) || v == 0x2028 || v == 0x2029 || v == 0x202F || v == 0x205F || v == 0x3000
}

/// `cs` without its leading whitespace.
pub open spec fn trim_start(cs: Seq<char>) -> Seq<char>
    decreases cs.len(),
{
    if cs.len() > 0 && is_ws(cs[0]) {
        trim_start(cs.drop_first())
    } else {
        cs
    }
}

/// `cs` without its trailing whitespace.
pub open spec fn trim_end(cs: Seq<char>) -> Seq<char>
    decreases cs.len(),
{
    if cs.len() > 0 && is_ws(cs.last()) {
        trim_end(cs.drop_last())
    } else {
        cs
    }
}

/// `cs` without leading or trailing whitespace.
pub open spec fn trim(cs: Seq<char>) -> Seq<char> {
    trim_end(trim_start(cs))
}

proof fn lemma_trim_start_skip(cs: Seq<char>, i: int)
    requires
        0 <= i <= cs.len(),
        forall|j: int| 0 <= j < i ==> is_ws(cs[j]),
    ensures
        trim_start(cs) == trim_start(cs.subrange(i, cs.len() as int)),
    decreases i,
{
    if i > 0 {
        assert(cs.drop_first() =~= cs.subrange(1, cs.len() as int));
        lemma_trim_start_skip(cs.drop_first(), i - 1);
        assert(cs.drop_first().subrange(i - 1, cs.drop_first().len() as int) =~= cs.subrange(
            i,
            cs.len() as int,
        ));
    } else {
        assert(cs.subrange(0, cs.len() as int) =~= cs);
    }
}

proof fn lemma_trim_end_cut(cs: Seq<char>, i: int)
    requires
        0 <= i <= cs.len(),
        forall|j: int| i <= j < cs.len() ==> is_ws(cs[j]),
    ensures
        trim_end(cs) == trim_end(cs.subrange(0, i)),
    decreases cs.len() - i,
{
    if i < cs.len() {
        lemma_trim_end_cut(cs.drop_last(), i);
        assert(cs.drop_last().subrange(0, i) =~= cs.subrange(0, i));
    } else {
        assert(cs.subrange(0, i) =~= cs);
    }
}

/// Trimming twice is trimming once.
pub proof fn lemma_trim_idem(cs: Seq<char>)
    ensures
        trim(trim(cs)) == trim(cs),
{
    lemma_trim_start_stops(cs);
    let a = trim_start(cs);
    lemma_trim_end_keeps_start(a);
    lemma_trim_end_stops(a);
    let t = trim_end(a);
    // t has no leading and no trailing whitespace
    lemma_trim_start_noop(t);
    lemma_trim_end_noop(t);
}

proof fn lemma_trim_start_stops(cs: Seq<char>)
    ensures
        trim_start(cs).len() == 0 || !is_ws(trim_start(cs)[0]),
        trim_start(cs).len() <= cs.len(),
    decreases cs.len(),
{
    if cs.len() > 0 && is_ws(cs[0]) {
        lemma_trim_start_stops(cs.drop_first());
    }
}

proof fn lemma_trim_end_stops(cs: Seq<char>)
    ensures
        trim_end(cs).len() == 0 || !is_ws(trim_end(cs).last()),
        trim_end(cs).len() <= cs.len(),
        trim_end(cs) == cs.take(trim_end(cs).len() as int),
    decreases cs.len(),
{
    if cs.len() > 0 && is_ws(cs.last()) {
        lemma_trim_end_stops(cs.drop_last());
        let r = trim_end(cs.drop_last());
        assert(cs.drop_last().take(r.len() as int) =~= cs.take(r.len() as int));
    } else {
        assert(cs.take(cs.len() as int) =~= cs);
    }
}

proof fn lemma_trim_end_keeps_start(cs: Seq<char>)
    requires
        cs.len() == 0 || !is_ws(cs[0]),
    ensures
        trim_end(cs).len() == 0 || !is_ws(trim_end(cs)[0]),
{
    lemma_trim_end_stops(cs);
    let t = trim_end(cs);
    if t.len() > 0 {
        assert(t[0] == cs[0]);
    }
}

proof fn lemma_trim_start_noop(cs: Seq<char>)
    requires
        cs.len() == 0 || !is_ws(cs[0]),
    ensures
        trim_start(cs) == cs,
{
}

proof fn lemma_trim_end_noop(cs: Seq<char>)
    requires
        cs.len() == 0 || !is_ws(cs.last()),
    ensures
        trim_end(cs) == cs,
{
}

/// Trimming never lengthens.
pub proof fn lemma_trim_len(cs: Seq<char>)
    ensures
        trim(cs).len() <= cs.len(),
{
    lemma_trim_start_stops(cs);
    lemma_trim_end_stops(trim_start(cs));
}

/// The bounds `(a, b)` with `cs[a..b] == trim(cs)`.
pub fn trim_bounds(cs: &[char]) -> (r: (usize, usize))
    ensures
        r.0 <= r.1 <= cs@.len(),
        cs@.subrange(r.0 as int, r.1 as int) == trim(cs@),
{
    let mut a: usize = 0;
    while a < cs.len() && is_whitespace(cs[a])
        invariant
            a <= cs@.len(),
            forall|j: int| 0 <= j < a ==> is_ws(cs@[j]),
        decreases cs@.len() - a,
    {
        a = a + 1;
    }
    proof {
        lemma_trim_start_skip(cs@, a as int);
        let rest = cs@.subrange(a as int, cs@.len() as int);
        if rest.len() > 0 {
            assert(rest[0] == cs@[a as int]);
        }
        assert(trim_start(rest) == rest);
    }
    let mut b: usize = cs.len();
    while b > a && is_whitespace(cs[b - 1])
        invariant
            a <= b <= cs@.len(),
            forall|j: int| b <= j < cs@.len() ==> is_ws(cs@[j]),
        decreases b,
    {
        b = b - 1;
    }
    proof {
        let rest = cs@.subrange(a as int, cs@.len() as int);
        lemma_trim_end_cut(rest, b - a);
        assert(rest.subrange(0, b - a) =~= cs@.subrange(a as int, b as int));
        let t = cs@.subrange(a as int, b as int);
        if t.len() > 0 {
            assert(t.last() == cs@[b - 1]);
        }
        assert(trim_end(t) == t);
    }
    (a, b)
}

/// A copy of `cs[from..to]`.
pub fn slice_vec(cs: &[char], from: usize, to: usize) -> (v: Vec<char>)
    requires
        from <= to <= cs@.len(),
    ensures
        v@ == cs@.subrange(from as int, to as int),
{
    let mut v: Vec<char> = Vec::new();
    let mut i = from;
    while i < to
        invariant
            from <= i <= to <= cs@.len(),
            v@ == cs@.subrange(from as int, i as int),
        decreases to - i,
    {
        v.push(cs[i]);
        i = i + 1;
        assert(v@ =~= cs@.subrange(from as int, i as int));
    }
    v
}

/// A copy of `cs` without its trailing whitespace.
pub fn trim_end_vec(cs: &[char]) -> (v: Vec<char>)
    ensures
        v@ == trim_end(cs@),
{
    let mut b: usize = cs.len();
    while b > 0 && is_whitespace(cs[b - 1])
        invariant
            b <= cs@.len(),
            forall|j: int| b <= j < cs@.len() ==> is_ws(cs@[j]),
        decreases b,
    {
        b = b - 1;
    }
    proof {
        lemma_trim_end_cut(cs@, b as int);
        let t = cs@.subrange(0, b as int);
        if t.len() > 0 {
            assert(t.last() == cs@[b - 1]);
        }
        assert(trim_end(t) == t);
    }
    slice_vec(cs, 0, b)
}

/// Trimming the end never lengthens.
pub proof fn lemma_trim_end_len(cs: Seq<char>)
    ensures
        trim_end(cs).len() <= cs.len(),
{
    lemma_trim_end_stops(cs);
}

/// A trimmed copy of `cs`.
pub fn trimmed(cs: &[char]) -> (v: Vec<char>)
    ensures
        v@ == trim(cs@),
{
    let (a, b) = trim_bounds(cs);
    slice_vec(cs, a, b)
}

/// The state of the line splitter: finished lines and the current line.
pub struct LineState {
    pub done: Seq<Seq<char>>,
    pub cur: Seq<char>,
}

/// A finished line: one `\r` before the `\n` is not part of it.
pub open spec fn strip_cr(l: Seq<char>) -> Seq<char> {
    if l.len() > 0 && l.last() == '\r' {
        l.drop_last()
    } else {
        l
    }
}

/// The line splitter after reading all of `cs`.
pub open spec fn line_scan(cs: Seq<char>) -> LineState
    decreases cs.len(),
{
    if cs.len() == 0 {
        LineState { done: seq![], cur: seq![] }
    } else {
        let st = line_scan(cs.drop_last());
        if cs.last() == '\n' {
            LineState { done: st.done.push(strip_cr(st.cur)), cur: seq![] }
        } else {
            LineState { cur: st.cur.push(cs.last()), ..st }
        }
    }
}

/// The lines of a text: split at `\n` (a `\r` before it is dropped); a
/// final line ending adds no empty line.
pub open spec fn lines(cs: Seq<char>) -> Seq<Seq<char>> {
    let st = line_scan(cs);
    if st.cur.len() == 0 {
        st.done
    } else {
        st.done.push(st.cur)
    }
}

/// The lines of a text (see [`lines`]).
pub fn split_lines(cs: &[char]) -> (ls: Vec<Vec<char>>)
    ensures
        ls@.len() == lines(cs@).len(),
        forall|i: int| 0 <= i < ls@.len() ==> #[trigger] ls@[i]@ == lines(cs@)[i],
{
    let mut done: Vec<Vec<char>> = Vec::new();
    let mut cur: Vec<char> = Vec::new();
    let mut i: usize = 0;
    while i < cs.len()
        invariant
            i <= cs@.len(),
            ({
                let st = line_scan(cs@.take(i as int));
                &&& done@.len() == st.done.len()
                &&& forall|k: int| 0 <= k < done@.len() ==> #[trigger] done@[k]@ == st.done[k]
                &&& cur@ == st.cur
            }),
        decreases cs@.len() - i,
    {
        let c = cs[i];
        proof {
            assert(cs@.take(i + 1).drop_last() =~= cs@.take(i as int));
        }
        if c == '\n' {
            let mut l = cur;
            if l.len() > 0 && l[l.len() - 1] == '\r' {
                l.pop();
            }
            done.push(l);
            cur = Vec::new();
        } else {
            cur.push(c);
        }
        i = i + 1;
    }
    proof {
        assert(cs@.take(i as int) =~= cs@);
    }
    if cur.len() > 0 {
        done.push(cur);
    }
    done
}

/// The state of a field splitter: finished fields and the current field.
pub struct FieldState {
    pub done: Seq<Seq<char>>,
    pub cur: Seq<char>,
}

/// The field splitter after reading all of `cs`.
pub open spec fn field_scan(cs: Seq<char>, sep: char) -> FieldState
    decreases cs.len(),
{
    if cs.len() == 0 {
        FieldState { done: seq![], cur: seq![] }
    } else {
        let st = field_scan(cs.drop_last(), sep);
        if cs.last() == sep {
            FieldState { done: st.done.push(st.cur), cur: seq![] }
        } else {
            FieldState { cur: st.cur.push(cs.last()), ..st }
        }
    }
}

/// The fields of `cs` between occurrences of `sep` (there is always one
/// more field than separators).
pub open spec fn split_fields(cs: Seq<char>, sep: char) -> Seq<Seq<char>> {
    let st = field_scan(cs, sep);
    st.done.push(st.cur)
}

/// The trimmed fields of `cs` separated by `sep`.
pub fn split_trimmed(cs: &[char], sep: char) -> (fs: Vec<Vec<char>>)
    ensures
        fs@.len() == split_fields(cs@, sep).len(),
        forall|i: int| 0 <= i < fs@.len() ==> #[trigger] fs@[i]@ == trim(split_fields(cs@, sep)[i]),
{
    let mut done: Vec<Vec<char>> = Vec::new();
    let mut cur: Vec<char> = Vec::new();
    let mut i: usize = 0;
    while i < cs.len()
        invariant
            i <= cs@.len(),
            ({
                let st = field_scan(cs@.take(i as int), sep);
                &&& done@.len() == st.done.len()
                &&& forall|k: int| 0 <= k < done@.len() ==> #[trigger] done@[k]@ == trim(st.done[k])
                &&& cur@ == st.cur
            }),
        decreases cs@.len() - i,
    {
        let c = cs[i];
        proof {
            assert(cs@.take(i + 1).drop_last() =~= cs@.take(i as int));
        }
        if c == sep {
            let t = trimmed(cur.as_slice());
            done.push(t);
            cur = Vec::new();
        } else {
            cur.push(c);
        }
        i = i + 1;
    }
    proof {
        assert(cs@.take(i as int) =~= cs@);
    }
    let t = trimmed(cur.as_slice());
    done.push(t);
    done
}

/// Whether `cs` starts with `p`.
pub open spec fn has_prefix(cs: Seq<char>, p: Seq<char>) -> bool {
    p.len() <= cs.len() && cs.take(p.len() as int) == p
}

/// Whether `cs` ends with `p`.
pub open spec fn has_suffix(cs: Seq<char>, p: Seq<char>) -> bool {
    p.len() <= cs.len() && cs.skip(cs.len() - p.len()) == p
}

/// Whether `cs` ends with the characters of `p`.
pub fn ends_with(cs: &[char], p: &[char]) -> (r: bool)
    ensures
        r == has_suffix(cs@, p@),
{
    if p.len() > cs.len() {
        return false;
    }
    let n = cs.len();
    let off = n - p.len();
    let mut i: usize = 0;
    while i < p.len()
        invariant
            n == cs@.len(),
            off + p@.len() == cs@.len(),
            p@.len() <= cs@.len(),
            i <= p@.len(),
            forall|j: int| 0 <= j < i ==> cs@[off + j] == p@[j],
        decreases p@.len() - i,
    {
        if cs[off + i] != p[i] {
            assert(cs@.skip(off as int)[i as int] != p@[i as int]);
            return false;
        }
        i = i + 1;
    }
    assert(cs@.skip(off as int) =~= p@);
    true
}

/// Whether `cs` starts with the characters of `p`.
pub fn begins_with(cs: &[char], p: &[char]) -> (r: bool)
    ensures
        r == has_prefix(cs@, p@),
{
    crate::strs::starts_with(cs, p)
}

/// The index of the first occurrence of `c` in `cs`, if any.
pub open spec fn first_index(cs: Seq<char>, c: char) -> Option<int> {
    if exists|i: int| 0 <= i < cs.len() && cs[i] == c {
        Some(choose|i: int| 0 <= i < cs.len() && cs[i] == c && forall|j: int| 0 <= j < i ==> cs[j] != c)
    } else {
        None
    }
}

/// The index of the last occurrence of `c` in `cs`, if any.
pub open spec fn last_index(cs: Seq<char>, c: char) -> Option<int> {
    if exists|i: int| 0 <= i < cs.len() && cs[i] == c {
        Some(choose|i: int| 0 <= i < cs.len() && cs[i] == c && forall|j: int| i < j < cs.len() ==> cs[j] != c)
    } else {
        None
    }
}

/// The first index of `c` in `cs`.
pub fn find_first(cs: &[char], c: char) -> (r: Option<usize>)
    ensures
        r == (match first_index(cs@, c) { Some(i) => Some(i as usize), None => None::<usize> }),
        r matches Some(i) ==> i < cs@.len() && cs@[i as int] == c && forall|j: int| 0 <= j < i ==> cs@[j] != c,
        r is None ==> forall|j: int| 0 <= j < cs@.len() ==> cs@[j] != c,
{
    let mut i: usize = 0;
    while i < cs.len()
        invariant
            i <= cs@.len(),
            forall|j: int| 0 <= j < i ==> cs@[j] != c,
        decreases cs@.len() - i,
    {
        if cs[i] == c {
            proof {
                let k = choose|k: int| 0 <= k < cs@.len() && cs@[k] == c && forall|j: int| 0 <= j < k ==> cs@[j] != c;
                assert(0 <= k < cs@.len() && cs@[k] == c && forall|j: int| 0 <= j < k ==> cs@[j] != c);
                if k < i {
                } else if k > i {
                    assert(cs@[i as int] != c);
                }
            }
            return Some(i);
        }
        i = i + 1;
    }
    None
}

/// The last index of `c` in `cs`.
pub fn find_last(cs: &[char], c: char) -> (r: Option<usize>)
    ensures
        r == (match last_index(cs@, c) { Some(i) => Some(i as usize), None => None::<usize> }),
        r matches Some(i) ==> i < cs@.len() && cs@[i as int] == c && forall|j: int| i < j < cs@.len() ==> cs@[j] != c,
        r is None ==> forall|j: int| 0 <= j < cs@.len() ==> cs@[j] != c,
{
    let mut i: usize = cs.len();
    while i > 0
        invariant
            i <= cs@.len(),
            forall|j: int| i <= j < cs@.len() ==> cs@[j] != c,
        decreases i,
    {
        if cs[i - 1] == c {
            proof {
                let k = choose|k: int| 0 <= k < cs@.len() && cs@[k] == c && forall|j: int| k < j < cs@.len() ==> cs@[j] != c;
                assert(0 <= k < cs@.len() && cs@[k] == c && forall|j: int| k < j < cs@.len() ==> cs@[j] != c);
                if k < i - 1 {
                    assert(cs@[i - 1] != c);
                } else if k > i - 1 {
                }
            }
            return Some(i - 1);
        }
        i = i - 1;
    }
    None
}

} // verus!
