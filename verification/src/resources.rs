//! Resources for pixel-based renderers: pre-decoded images and font bytes,
//! printer configuration, image sizing and processing.
use vstd::prelude::*;
use crate::ast::{Decimal, Node, NodeModel, nodes_model};
use crate::image_data::ImageData;
use crate::strs::{chars_eq, chars_of, string_of};
use crate::numfmt::{decimal_text, decimal_to_text, nat_text, u64_text};
use crate::text_render::push_slice;
use vstd::string::StringSliceAdditionalSpecFns;

verus! {

/// Pixels below this value are black when thresholding.
pub const BLACK_THRESHOLD: u8 = 128;

/// Whether two strings hold the same characters.
pub fn str_eq(a: &str, b: &str) -> (r: bool)
    ensures
        r == (a@ == b@),
{
    let av = chars_of(a);
    let bv = chars_of(b);
    chars_eq(av.as_slice(), bv.as_slice())
}

/// The value stored under `key` in a list of entries: that of the first
/// entry with this key.
pub open spec fn lookup<T>(entries: Seq<(String, T)>, key: Seq<char>) -> Option<T>
    decreases entries.len(),
{
    if entries.len() == 0 {
        None
    } else if entries[0].0@ == key {
        Some(entries[0].1)
    } else {
        lookup(entries.drop_first(), key)
    }
}

/// No key occurs twice.
pub open spec fn keys_distinct<T>(entries: Seq<(String, T)>) -> bool {
    forall|i: int, j: int| 0 <= i < j < entries.len() ==> (#[trigger] entries[i]).0@ != (#[trigger] entries[j]).0@
}

proof fn lemma_lookup_at<T>(entries: Seq<(String, T)>, i: int)
    requires
        0 <= i < entries.len(),
        keys_distinct(entries),
    ensures
        lookup(entries, entries[i].0@) == Some(entries[i].1),
    decreases i,
{
    if i > 0 {
        assert(entries[0].0@ != entries[i].0@);
        let rest = entries.drop_first();
        assert(rest[i - 1] == entries[i]);
        assert forall|a: int, b: int| 0 <= a < b < rest.len() implies (#[trigger] rest[a]).0@ != (#[trigger] rest[b]).0@ by {
            assert(rest[a] == entries[a + 1]);
            assert(rest[b] == entries[b + 1]);
        }
        lemma_lookup_at(rest, i - 1);
    }
}

proof fn lemma_lookup_none<T>(entries: Seq<(String, T)>, key: Seq<char>)
    requires
        forall|i: int| 0 <= i < entries.len() ==> (#[trigger] entries[i]).0@ != key,
    ensures
        lookup(entries, key) is None,
    decreases entries.len(),
{
    if entries.len() > 0 {
        let rest = entries.drop_first();
        assert forall|i: int| 0 <= i < rest.len() implies (#[trigger] rest[i]).0@ != key by {
            assert(rest[i] == entries[i + 1]);
        }
        lemma_lookup_none(rest, key);
    }
}

fn find_key<T>(entries: &Vec<(String, T)>, key: &str) -> (r: Option<usize>)
    ensures
        match r {
            Some(i) => i < entries@.len() && entries@[i as int].0@ == key@ && forall|j: int| 0 <= j < i ==> (#[trigger] entries@[j]).0@ != key@,
            None => forall|j: int| 0 <= j < entries@.len() ==> (#[trigger] entries@[j]).0@ != key@,
        },
{
    let mut i: usize = 0;
    while i < entries.len()
        invariant
            i <= entries@.len(),
            forall|j: int| 0 <= j < i ==> (#[trigger] entries@[j]).0@ != key@,
        decreases entries@.len() - i,
    {
        if str_eq(entries[i].0.as_str(), key) {
            return Some(i);
        }
        i = i + 1;
    }
    None
}

/// Resolved resources for rendering: pre-decoded images and raw font
/// bytes, each keyed by the URL or path written in the source.
#[derive(Debug, Clone)]
pub struct RenderResources {
    /// Pre-decoded grayscale images.
    pub images: Vec<(String, ImageData)>,
    /// Raw TTF/OTF font bytes.
    pub fonts: Vec<(String, Vec<u8>)>,
}

impl RenderResources {
    /// No key occurs twice in either list.
    pub open spec fn wf(&self) -> bool {
        keys_distinct(self.images@) && keys_distinct(self.fonts@)
    }

    /// The image stored under `url`.
    pub open spec fn image_at(&self, url: Seq<char>) -> Option<ImageData> {
        lookup(self.images@, url)
    }

    /// The font bytes stored under `url`.
    pub open spec fn font_at(&self, url: Seq<char>) -> Option<Vec<u8>> {
        lookup(self.fonts@, url)
    }

    /// No resources.
    pub fn new() -> (r: RenderResources)
        ensures
            r.wf(),
            r.images@.len() == 0,
            r.fonts@.len() == 0,
    {
        RenderResources { images: Vec::new(), fonts: Vec::new() }
    }

    /// The image stored under `url`, if any.
    pub fn get_image(&self, url: &str) -> (r: Option<&ImageData>)
        ensures
            match r {
                Some(img) => self.image_at(url@) == Some(*img),
                None => self.image_at(url@) is None,
            },
    {
        match find_key(&self.images, url) {
            Some(i) => {
                proof {
                    lemma_lookup_first(self.images@, url@, i as int);
                }
                Some(&self.images[i].1)
            },
            None => {
                proof {
                    lemma_lookup_none(self.images@, url@);
                }
                None
            },
        }
    }

    /// The font bytes stored under `url`, if any.
    pub fn get_font(&self, url: &str) -> (r: Option<&Vec<u8>>)
        ensures
            match r {
                Some(f) => self.font_at(url@) == Some(*f),
                None => self.font_at(url@) is None,
            },
    {
        match find_key(&self.fonts, url) {
            Some(i) => {
                proof {
                    lemma_lookup_first(self.fonts@, url@, i as int);
                }
                Some(&self.fonts[i].1)
            },
            None => {
                proof {
                    lemma_lookup_none(self.fonts@, url@);
                }
                None
            },
        }
    }

    /// Store an image under `url`, replacing any image stored there.
    pub fn insert_image(&mut self, url: String, img: ImageData)
        requires
            old(self).wf(),
        ensures
            final(self).wf(),
            final(self).image_at(url@) == Some(img),
            forall|k: Seq<char>| k != url@ ==> final(self).image_at(k) == old(self).image_at(k),
            final(self).fonts@ == old(self).fonts@,
    {
        let ghost key = url@;
        let ghost before = self.images@;
        match find_key(&self.images, url.as_str()) {
            Some(i) => {
                self.images.set(i, (url, img));
                proof {
                    lemma_set_entry(before, i as int, self.images@);
                }
            },
            None => {
                self.images.push((url, img));
                proof {
                    lemma_push_entry(before, self.images@);
                }
            },
        }
    }

    /// Store font bytes under `url`, replacing any stored there.
    pub fn insert_font(&mut self, url: String, bytes: Vec<u8>)
        requires
            old(self).wf(),
        ensures
            final(self).wf(),
            final(self).font_at(url@) == Some(bytes),
            forall|k: Seq<char>| k != url@ ==> final(self).font_at(k) == old(self).font_at(k),
            final(self).images@ == old(self).images@,
    {
        let ghost before = self.fonts@;
        match find_key(&self.fonts, url.as_str()) {
            Some(i) => {
                self.fonts.set(i, (url, bytes));
                proof {
                    lemma_set_entry(before, i as int, self.fonts@);
                }
            },
            None => {
                self.fonts.push((url, bytes));
                proof {
                    lemma_push_entry(before, self.fonts@);
                }
            },
        }
    }
}

proof fn lemma_lookup_first<T>(entries: Seq<(String, T)>, key: Seq<char>, i: int)
    requires
        0 <= i < entries.len(),
        entries[i].0@ == key,
        forall|j: int| 0 <= j < i ==> (#[trigger] entries[j]).0@ != key,
    ensures
        lookup(entries, key) == Some(entries[i].1),
    decreases i,
{
    if i > 0 {
        let rest = entries.drop_first();
        assert(rest[i - 1] == entries[i]);
        assert forall|j: int| 0 <= j < i - 1 implies (#[trigger] rest[j]).0@ != key by {
            assert(rest[j] == entries[j + 1]);
        }
        lemma_lookup_first(rest, key, i - 1);
    }
}

proof fn lemma_lookup_other<T>(entries: Seq<(String, T)>, key: Seq<char>, other: Seq<(String, T)>)
    requires
        entries.len() == other.len(),
        forall|j: int| 0 <= j < entries.len() ==> ((#[trigger] entries[j]).0@ == key <==> other[j].0@ == key),
        forall|j: int| 0 <= j < entries.len() && (#[trigger] entries[j]).0@ == key ==> entries[j].1 == other[j].1,
    ensures
        lookup(entries, key) == lookup(other, key),
    decreases entries.len(),
{
    if entries.len() > 0 {
        let r1 = entries.drop_first();
        let r2 = other.drop_first();
        assert forall|j: int| 0 <= j < r1.len() implies ((#[trigger] r1[j]).0@ == key <==> r2[j].0@ == key) by {
            assert(r1[j] == entries[j + 1]);
            assert(r2[j] == other[j + 1]);
        }
        assert forall|j: int| 0 <= j < r1.len() && (#[trigger] r1[j]).0@ == key implies r1[j].1 == r2[j].1 by {
            assert(r1[j] == entries[j + 1]);
            assert(r2[j] == other[j + 1]);
        }
        assert(entries[0].0@ == key <==> other[0].0@ == key);
        lemma_lookup_other(r1, key, r2);
    }
}

proof fn lemma_set_entry<T>(before: Seq<(String, T)>, i: int, after: Seq<(String, T)>)
    requires
        0 <= i < before.len(),
        keys_distinct(before),
        after.len() == before.len(),
        after[i].0@ == before[i].0@,
        forall|j: int| 0 <= j < before.len() && j != i ==> after[j] == before[j],
    ensures
        keys_distinct(after),
        lookup(after, before[i].0@) == Some(after[i].1),
        forall|k: Seq<char>| k != before[i].0@ ==> lookup(after, k) == lookup(before, k),
{
    assert forall|a: int, b: int| 0 <= a < b < after.len() implies (#[trigger] after[a]).0@ != (#[trigger] after[b]).0@ by {
        assert(before[a].0@ != before[b].0@);
    }
    lemma_lookup_at(after, i);
    assert forall|k: Seq<char>| k != before[i].0@ implies lookup(after, k) == lookup(before, k) by {
        assert forall|j: int| 0 <= j < after.len() implies ((#[trigger] after[j]).0@ == k <==> before[j].0@ == k) by {
            if j == i {
            }
        }
        lemma_lookup_other(after, k, before);
    }
}

proof fn lemma_push_entry<T>(before: Seq<(String, T)>, after: Seq<(String, T)>)
    requires
        keys_distinct(before),
        after.len() == before.len() + 1,
        forall|j: int| 0 <= j < before.len() ==> after[j] == before[j],
        forall|j: int| 0 <= j < before.len() ==> (#[trigger] before[j]).0@ != after[before.len() as int].0@,
    ensures
        keys_distinct(after),
        lookup(after, after[before.len() as int].0@) == Some(after[before.len() as int].1),
        forall|k: Seq<char>| k != after[before.len() as int].0@ ==> lookup(after, k) == lookup(before, k),
    decreases before.len(),
{
    let n = before.len() as int;
    assert forall|a: int, b: int| 0 <= a < b < after.len() implies (#[trigger] after[a]).0@ != (#[trigger] after[b]).0@ by {
        if b < n {
            assert(before[a].0@ != before[b].0@);
        } else {
            assert(after[a] == before[a]);
        }
    }
    lemma_lookup_at(after, n);
    assert forall|k: Seq<char>| k != after[n].0@ implies lookup(after, k) == lookup(before, k) by {
        lemma_lookup_prefix(after, before, k);
    }
}

proof fn lemma_lookup_prefix<T>(after: Seq<(String, T)>, before: Seq<(String, T)>, k: Seq<char>)
    requires
        after.len() == before.len() + 1,
        forall|j: int| 0 <= j < before.len() ==> after[j] == before[j],
        after[before.len() as int].0@ != k,
    ensures
        lookup(after, k) == lookup(before, k),
    decreases before.len(),
{
    if before.len() > 0 {
        let a1 = after.drop_first();
        let b1 = before.drop_first();
        assert forall|j: int| 0 <= j < b1.len() implies a1[j] == b1[j] by {
            assert(a1[j] == after[j + 1]);
            assert(b1[j] == before[j + 1]);
        }
        assert(a1[b1.len() as int] == after[before.len() as int]);
        lemma_lookup_prefix(a1, b1, k);
        assert(after[0] == before[0]);
    } else {
        assert(after.drop_first().len() == 0);
        assert(lookup(after.drop_first(), k) is None);
        assert(after[0].0@ != k);
    }
}

/// The printer configuration of a document: paper width in thousandths
/// of a millimeter, DPI and black threshold, each from its last directive,
/// else 80 mm, 203 DPI and 128.
pub open spec fn printer_config_spec(ns: Seq<NodeModel>) -> (int, int, int)
    decreases ns.len(),
{
    if ns.len() == 0 {
        (80000, 203, BLACK_THRESHOLD as int)
    } else {
        let c = printer_config_spec(ns.drop_last());
        match ns.last() {
            NodeModel::PrinterWidth { mm } => (mm.milli as int, c.1, c.2),
            NodeModel::PrinterDpi { dpi } => (c.0, dpi as int, c.2),
            NodeModel::PrinterThreshold { threshold } => (c.0, c.1, threshold as int),
            _ => c,
        }
    }
}

/// Extract the printer configuration (paper width, DPI, threshold) from
/// the nodes (see [`printer_config_spec`]).
pub fn collect_printer_config(nodes: &[Node]) -> (r: (Decimal, u32, u8))
    ensures
        (r.0.milli as int, r.1 as int, r.2 as int) == printer_config_spec(nodes_model(nodes@)),
{
    let ghost ns = nodes_model(nodes@);
    let mut paper = Decimal { milli: 80000 };
    let mut dpi: u32 = 203;
    let mut threshold: u8 = BLACK_THRESHOLD;
    let mut i: usize = 0;
    while i < nodes.len()
        invariant
            ns == nodes_model(nodes@),
            i <= nodes@.len(),
            (paper.milli as int, dpi as int, threshold as int) == printer_config_spec(ns.take(i as int)),
        decreases nodes@.len() - i,
    {
        assert(ns.take(i + 1).drop_last() == ns.take(i as int));
        assert(ns.take(i + 1).last() == nodes@[i as int]@);
        match &nodes[i] {
            Node::PrinterWidth { mm } => {
                paper = *mm;
            },
            Node::PrinterDpi { dpi: d } => {
                dpi = *d;
            },
            Node::PrinterThreshold { threshold: t } => {
                threshold = *t;
            },
            _ => {},
        }
        i = i + 1;
    }
    assert(ns.take(i as int) == ns);
    (paper, dpi, threshold)
}

/// A product of a value at most 2^66 and a 32-bit value is below 2^98.
pub proof fn lemma_mul_u64_u32(a: int, b: int)
    requires
        0 <= a <= 0x4_0000_0000_0000_0000,
        0 <= b <= 0xFFFF_FFFF,
    ensures
        0 <= a * b <= 0x4_0000_0000_0000_0000 * 0xFFFF_FFFF,
{
    assert(0 <= a * b <= 0x4_0000_0000_0000_0000 * 0xFFFF_FFFF) by (nonlinear_arith)
        requires
            0 <= a <= 0x4_0000_0000_0000_0000,
            0 <= b <= 0xFFFF_FFFF,
    ;
}

/// Round a non-negative ratio `num / den` to the nearest integer (halves
/// up) and cap it at `u32::MAX`.
pub open spec fn round_ratio_u32(num: int, den: int) -> int {
    let r = (2 * num + den) / (2 * den);
    if r > u32::MAX { u32::MAX as int } else { r }
}

/// The printable width in dots: the paper less a 4 mm margin on each side,
/// but at least half the paper, at the DPI, rounded to the nearest dot
/// (halves up); at least 8, at most `u32::MAX`. The standard 80 mm roll
/// at 203 DPI prints 576 dots (the formula alone gives 575); 58 mm paper
/// gives 400 at 203 DPI.
pub open spec fn printable_width_spec(paper_milli: int, dpi: int) -> int {
    if paper_milli == 80000 && dpi == 203 {
        576
    } else {
        let half_units = if 2 * paper_milli - 16000 > paper_milli { 2 * paper_milli - 16000 } else { paper_milli };
        let r = (half_units * dpi + 25400) / 50800;
        let r8 = if r < 8 { 8 } else { r };
        if r8 > u32::MAX { u32::MAX as int } else { r8 }
    }
}

/// The printable width in dots for a paper width and DPI (see
/// [`printable_width_spec`]).
pub fn printable_width(paper: Decimal, dpi: u32) -> (r: u32)
    ensures
        r == printable_width_spec(paper.milli as int, dpi as int),
{
    if paper.milli == 80000 && dpi == 203 {
        return 576;
    }
    let p: u128 = paper.milli as u128;
    let half_units: u128 = if 2 * p >= 16000 && 2 * p - 16000 > p { 2 * p - 16000 } else { p };
    proof {
        lemma_mul_u64_u32(half_units as int, dpi as int);
    }
    let r: u128 = (half_units * dpi as u128 + 25400) / 50800;
    let r8: u128 = if r < 8 { 8 } else { r };
    if r8 > u32::MAX as u128 { u32::MAX } else { r8 as u32 }
}

/// Points to dots: `pt * dpi / 72`, rounded, capped at `u32::MAX`.
pub open spec fn pt_to_px_spec(pt_milli: int, dpi: int) -> int {
    round_ratio_u32(pt_milli * dpi, 72000)
}

/// Convert points to pixels (dots) at the given DPI (see [`pt_to_px_spec`]).
pub fn pt_to_px(pt: Decimal, dpi: u32) -> (r: u32)
    ensures
        r == pt_to_px_spec(pt.milli as int, dpi as int),
{
    proof {
        lemma_mul_u64_u32(pt.milli as int, dpi as int);
    }
    let num: u128 = pt.milli as u128 * dpi as u128;
    let q: u128 = (2 * num + 72000) / 144000;
    if q > u32::MAX as u128 { u32::MAX } else { q as u32 }
}

/// Whether a resource path is a remote HTTPS URL (starts with `https://`);
/// every other path is a local file.
pub open spec fn is_url_spec(s: Seq<char>) -> bool {
    s.len() >= 8 && s.take(8) == "https://"@
}

/// Whether a resource path is a remote URL (see [`is_url_spec`]).
pub fn is_url(s: &str) -> (r: bool)
    ensures
        r == is_url_spec(s@),
{
    let cs = chars_of(s);
    let b = chars_of("https://");
    proof {
        reveal_strlit("https://");
    }
    crate::strs::starts_with(cs.as_slice(), b.as_slice())
}

/// ASCII whitespace as `u8::is_ascii_whitespace` defines it.
pub open spec fn ascii_ws(b: u8) -> bool {
    b == 0x20 || b == 0x09 || b == 0x0A || b == 0x0C || b == 0x0D
}

/// Whether raw bytes look like SVG: the first byte that is not ASCII
/// whitespace is `<`.
pub open spec fn is_svg_spec(data: Seq<u8>) -> bool {
    exists|i: int| 0 <= i < data.len() && data[i] == 0x3C && forall|j: int| 0 <= j < i ==> ascii_ws(#[trigger] data[j])
}

/// Whether raw bytes look like SVG (see [`is_svg_spec`]).
pub fn is_svg(data: &[u8]) -> (r: bool)
    ensures
        r == is_svg_spec(data@),
{
    let mut i: usize = 0;
    while i < data.len()
        invariant
            i <= data@.len(),
            forall|j: int| 0 <= j < i ==> ascii_ws(#[trigger] data@[j]),
        decreases data@.len() - i,
    {
        let b = data[i];
        if !(b == 0x20 || b == 0x09 || b == 0x0A || b == 0x0C || b == 0x0D) {
            proof {
                if b != 0x3C {
                    assert forall|k: int| 0 <= k < data@.len() && data@[k] == 0x3C implies !(forall|j: int| 0 <= j < k ==> ascii_ws(#[trigger] data@[j])) by {
                        if k > i {
                            assert(!ascii_ws(data@[i as int]));
                        }
                    }
                }
            }
            return b == 0x3C;
        }
        i = i + 1;
    }
    false
}

/// The 64-bit FNV-1a hash of some bytes.
pub open spec fn fnv_spec(bytes: Seq<u8>) -> u64
    decreases bytes.len(),
{
    if bytes.len() == 0 {
        0xcbf29ce484222325
    } else {
        (fnv_spec(bytes.drop_last()) ^ (bytes.last() as u64)).wrapping_mul(0x100000001b3)
    }
}

/// The FNV-1a hash of a text's UTF-8 bytes.
pub fn fnv_hash(input: &str) -> (h: u64)
    ensures
        h == fnv_spec(input.spec_bytes()),
{
    let bytes = input.as_bytes();
    let mut hash: u64 = 0xcbf29ce484222325;
    let mut i: usize = 0;
    while i < bytes.len()
        invariant
            i <= bytes@.len(),
            hash == fnv_spec(bytes@.take(i as int)),
        decreases bytes@.len() - i,
    {
        assert(bytes@.take(i + 1).drop_last() == bytes@.take(i as int));
        hash = hash ^ (bytes[i] as u64);
        hash = hash.wrapping_mul(0x100000001b3);
        i = i + 1;
    }
    assert(bytes@.take(i as int) == bytes@);
    hash
}

/// The lowercase hexadecimal digit of a value below 16.
pub open spec fn hex_digit(d: int) -> char {
    if d < 10 { (('0' as int) + d) as char } else { (('a' as int) + d - 10) as char }
}

/// The lowercase hexadecimal digits of a number, without leading zeros.
pub open spec fn hex_text(n: nat) -> Seq<char>
    decreases n,
{
    if n < 16 { seq![hex_digit(n as int)] } else { hex_text(n / 16) + seq![hex_digit((n % 16) as int)] }
}

fn hex_char(d: u64) -> (c: char)
    requires
        d < 16,
    ensures
        c == hex_digit(d as int),
{
    if d < 10 {
        crate::numfmt::u64_text(d)[0]
    } else {
        match d {
            10 => 'a',
            11 => 'b',
            12 => 'c',
            13 => 'd',
            14 => 'e',
            _ => 'f',
        }
    }
}

/// The lowercase hexadecimal text of a number (see [`hex_text`]).
pub fn u64_hex(n: u64) -> (r: Vec<char>)
    ensures
        r@ == hex_text(n as nat),
    decreases n,
{
    if n < 16 {
        let mut v: Vec<char> = Vec::new();
        v.push(hex_char(n));
        v
    } else {
        let mut v = u64_hex(n / 16);
        v.push(hex_char(n % 16));
        v
    }
}

/// The processed-image cache key: the hash of the URL in hex, then the
/// settings the processing depends on.
pub open spec fn image_cache_key_spec(url: Seq<char>, paper: Decimal, dpi: u32, max_w_pt: Decimal, max_h_pt: Decimal, threshold: u8, dither: bool) -> Seq<char> {
    hex_text(fnv_spec(vstd::utf8::encode_utf8(url)) as nat) + "_img_"@ + decimal_text(paper) + "_"@ + nat_text(dpi as nat) + "_"@
        + decimal_text(max_w_pt) + "_"@ + decimal_text(max_h_pt) + "_"@ + nat_text(threshold as nat) + "_"@ + (if dither {
        "dither"@
    } else {
        "threshold"@
    })
}

/// The processed-image cache key (see [`image_cache_key_spec`]).
pub fn image_cache_key(url: &str, paper: Decimal, dpi: u32, max_w_pt: Decimal, max_h_pt: Decimal, threshold: u8, dither: bool) -> (r: String)
    ensures
        r@ == image_cache_key_spec(url@, paper, dpi, max_w_pt, max_h_pt, threshold, dither),
{
    let mut out: Vec<char> = Vec::new();
    let h = u64_hex(fnv_hash(url));
    push_slice(&mut out, h.as_slice());
    push_chars(&mut out, "_img_");
    let t = decimal_to_text(paper);
    push_slice(&mut out, t.as_slice());
    push_chars(&mut out, "_");
    let t = u64_text(dpi as u64);
    push_slice(&mut out, t.as_slice());
    push_chars(&mut out, "_");
    let t = decimal_to_text(max_w_pt);
    push_slice(&mut out, t.as_slice());
    push_chars(&mut out, "_");
    let t = decimal_to_text(max_h_pt);
    push_slice(&mut out, t.as_slice());
    push_chars(&mut out, "_");
    let t = u64_text(threshold as u64);
    push_slice(&mut out, t.as_slice());
    push_chars(&mut out, "_");
    if dither {
        push_chars(&mut out, "dither");
    } else {
        push_chars(&mut out, "threshold");
    }
    let s = string_of(out.as_slice(), 0, out.len());
    assert(out@.subrange(0, out@.len() as int) == out@);
    s
}

fn push_chars(out: &mut Vec<char>, s: &str)
    ensures
        final(out)@ == old(out)@ + s@,
{
    let cs = chars_of(s);
    push_slice(out, cs.as_slice());
}

/// What `sha2::Sha256::digest` gives for some bytes, written as lowercase
/// hexadecimal (the digest's `LowerHex` formatting).
pub uninterp spec fn sha256_hex(data: Seq<u8>) -> Seq<char>;

/// What `std::path::Path::extension` gives for a path, when it is valid
/// UTF-8.
pub uninterp spec fn path_extension(path: Seq<char>) -> Option<Seq<char>>;

/// The view of an optional string.
pub open spec fn opt_string(o: Option<String>) -> Option<Seq<char>> {
    match o {
        Some(s) => Some(s@),
        None => None,
    }
}

/// Hashes bytes with `sha2::Sha256::digest` and formats the digest with
/// `{:x}`. Claims only that the text is the name [`sha256_hex`] of the
/// bytes.
#[verifier::external_body]
fn sha256_hex_of(data: &[u8]) -> (r: String)
    ensures
        r@ == sha256_hex(data@),
{
    let hash = <sha2::Sha256 as sha2::Digest>::digest(data);
    format!("{hash:x}")
}

/// Reads a path's extension with `std::path::Path::extension`, kept when it
/// is valid UTF-8. Claims only that the result is the name
/// [`path_extension`] of the path.
#[verifier::external_body]
fn extension_of(path: &str) -> (r: Option<String>)
    ensures
        opt_string(r) == path_extension(path@),
{
    match std::path::Path::new(path).extension() {
        Some(os) => match os.to_str() {
            Some(t) => Some(t.to_string()),
            None => None,
        },
        None => None,
    }
}

/// The part of a URL before its first `?`.
pub open spec fn path_part(url: Seq<char>) -> Seq<char> {
    match crate::lexical::first_index(url, '?') {
        Some(i) => url.take(i),
        None => url,
    }
}

/// The download cache file name of a URL: the SHA-256 of the URL in hex,
/// a point, and the extension of its path (`bin` when it has none).
pub open spec fn download_cache_key_spec(url: Seq<char>) -> Seq<char> {
    sha256_hex(vstd::utf8::encode_utf8(url)) + "."@ + match path_extension(path_part(url)) {
        Some(e) => e,
        None => "bin"@,
    }
}

/// The download cache file name of a URL (see [`download_cache_key_spec`]).
pub fn download_cache_key(url: &str) -> (r: String)
    ensures
        r@ == download_cache_key_spec(url@),
{
    let hex = sha256_hex_of(url.as_bytes());
    let cs = chars_of(url);
    let part: String = match crate::lexical::find_first(cs.as_slice(), '?') {
        Some(i) => {
            let p = string_of(cs.as_slice(), 0, i);
            assert(cs@.subrange(0, i as int) == cs@.take(i as int));
            p
        },
        None => {
            let p = string_of(cs.as_slice(), 0, cs.len());
            assert(cs@.subrange(0, cs@.len() as int) == cs@);
            p
        },
    };
    let mut out: Vec<char> = Vec::new();
    let hc = chars_of(hex.as_str());
    push_slice(&mut out, hc.as_slice());
    out.push('.');
    match extension_of(part.as_str()) {
        Some(e) => {
            let ec = chars_of(e.as_str());
            push_slice(&mut out, ec.as_slice());
        },
        None => push_chars(&mut out, "bin"),
    }
    let s = string_of(out.as_slice(), 0, out.len());
    assert(out@.subrange(0, out@.len() as int) == out@);
    assert(seq!['.'] == "."@) by {
        reveal_strlit(".");
    }
    s
}

/// Configuration for resource loading: a base directory for relative
/// paths, a cache directory, and pre-fetched bytes of remote resources
/// keyed by URL.
#[derive(Debug, Clone)]
pub struct ResourceConfig {
    /// Base directory for resolving relative resource paths.
    pub resource_dir: Option<String>,
    /// Directory for caching downloaded and processed resources.
    pub cache_dir: Option<String>,
    /// Pre-fetched remote resource bytes, keyed by URL; no URL occurs
    /// twice (see [`ResourceConfig::wf`]).
    pub resources: Vec<(String, Vec<u8>)>,
}

impl ResourceConfig {
    /// No URL is provided twice.
    pub open spec fn wf(&self) -> bool {
        keys_distinct(self.resources@)
    }

    /// The bytes provided for `url`.
    pub open spec fn provided_at(&self, url: Seq<char>) -> Option<Vec<u8>> {
        lookup(self.resources@, url)
    }

    /// A configuration with the given directories and nothing provided.
    pub fn new(resource_dir: Option<String>, cache_dir: Option<String>) -> (c: ResourceConfig)
        ensures
            c.wf(),
            c.resource_dir == resource_dir,
            c.cache_dir == cache_dir,
            c.resources@.len() == 0,
    {
        ResourceConfig { resource_dir, cache_dir, resources: Vec::new() }
    }

    /// Provide the bytes of `url`, replacing any provided before.
    pub fn provide(&mut self, url: String, bytes: Vec<u8>)
        requires
            old(self).wf(),
        ensures
            final(self).wf(),
            final(self).provided_at(url@) == Some(bytes),
            forall|k: Seq<char>| k != url@ ==> final(self).provided_at(k) == old(self).provided_at(k),
            final(self).resource_dir == old(self).resource_dir,
            final(self).cache_dir == old(self).cache_dir,
    {
        let ghost before = self.resources@;
        match find_key(&self.resources, url.as_str()) {
            Some(i) => {
                self.resources.set(i, (url, bytes));
                proof {
                    lemma_set_entry(before, i as int, self.resources@);
                }
            },
            None => {
                self.resources.push((url, bytes));
                proof {
                    lemma_push_entry(before, self.resources@);
                }
            },
        }
    }
}

/// The remote URLs among a list, each once, in order.
pub open spec fn keep_remote(v: Seq<Seq<char>>) -> Seq<Seq<char>>
    decreases v.len(),
{
    if v.len() == 0 {
        seq![]
    } else {
        let r = keep_remote(v.drop_last());
        let u = v.last();
        if is_url_spec(u) && !r.contains(u) { r.push(u) } else { r }
    }
}

/// The remote URLs a document refers to: images first, then fonts, each
/// once.
pub open spec fn remote_candidates(ns: Seq<NodeModel>) -> Seq<Seq<char>> {
    keep_remote(crate::collect::images_of(ns) + crate::collect::fonts_of(ns))
}

/// The remote URLs a host still has to fetch: those neither provided in
/// the configuration nor, when there is a cache directory, already cached.
pub open spec fn resolve_spec(ns: Seq<NodeModel>, provided: Seq<(String, Vec<u8>)>, use_cache: bool, cached: Seq<Seq<char>>) -> Seq<Seq<char>> {
    still_needed(remote_candidates(ns), provided, use_cache, cached)
}

/// The URLs of a list that are neither provided nor, when the cache is
/// used, cached.
pub open spec fn still_needed(urls: Seq<Seq<char>>, provided: Seq<(String, Vec<u8>)>, use_cache: bool, cached: Seq<Seq<char>>) -> Seq<Seq<char>>
    decreases urls.len(),
{
    if urls.len() == 0 {
        seq![]
    } else {
        let r = still_needed(urls.drop_last(), provided, use_cache, cached);
        let u = urls.last();
        if lookup(provided, u) is None && !(use_cache && cached.contains(u)) { r.push(u) } else { r }
    }
}

fn contains_str(v: &Vec<String>, x: &str) -> (r: bool)
    ensures
        r == crate::collect::strings_model(v@).contains(x@),
{
    let ghost m = crate::collect::strings_model(v@);
    let mut i: usize = 0;
    while i < v.len()
        invariant
            m == crate::collect::strings_model(v@),
            i <= v@.len(),
            forall|j: int| 0 <= j < i ==> v@[j]@ != x@,
        decreases v@.len() - i,
    {
        if str_eq(v[i].as_str(), x) {
            assert(m[i as int] == x@);
            return true;
        }
        i = i + 1;
    }
    assert(!m.contains(x@)) by {
        if m.contains(x@) {
            let j = choose|j: int| 0 <= j < m.len() && m[j] == x@;
            assert(v@[j]@ == x@);
        }
    }
    false
}

/// The remote URLs a document refers to, images first, then fonts, each
/// once (see [`remote_candidates`]).
pub fn remote_urls(nodes: &[Node]) -> (r: Vec<String>)
    ensures
        crate::collect::strings_model(r@) == remote_candidates(nodes_model(nodes@)),
{
    let urls = crate::collect::collect_resources(nodes);
    let mut all: Vec<String> = Vec::new();
    let mut i: usize = 0;
    while i < urls.images.len()
        invariant
            i <= urls.images@.len(),
            all@ == urls.images@.take(i as int),
        decreases urls.images@.len() - i,
    {
        all.push(urls.images[i].clone());
        i = i + 1;
    }
    let mut j: usize = 0;
    while j < urls.fonts.len()
        invariant
            j <= urls.fonts@.len(),
            crate::collect::strings_model(all@) == crate::collect::strings_model(urls.images@) + crate::collect::strings_model(urls.fonts@).take(j as int),
        decreases urls.fonts@.len() - j,
    {
        let ghost before = all@;
        all.push(urls.fonts[j].clone());
        assert(crate::collect::strings_model(all@) == crate::collect::strings_model(before).push(urls.fonts@[j as int]@));
        assert(crate::collect::strings_model(urls.fonts@).take(j + 1) == crate::collect::strings_model(urls.fonts@).take(j as int).push(urls.fonts@[j as int]@));
        j = j + 1;
    }
    let ghost allm = crate::collect::strings_model(all@);
    assert(allm == crate::collect::images_of(nodes_model(nodes@)) + crate::collect::fonts_of(nodes_model(nodes@))) by {
        assert(urls.images@.take(urls.images@.len() as int) == urls.images@);
        assert(crate::collect::strings_model(urls.fonts@).take(j as int) == crate::collect::strings_model(urls.fonts@));
    }
    let mut out: Vec<String> = Vec::new();
    let mut k: usize = 0;
    while k < all.len()
        invariant
            k <= all@.len(),
            allm == crate::collect::strings_model(all@),
            crate::collect::strings_model(out@) == keep_remote(allm.take(k as int)),
        decreases all@.len() - k,
    {
        assert(allm.take(k + 1).drop_last() == allm.take(k as int));
        assert(allm.take(k + 1).last() == all@[k as int]@);
        if is_url(all[k].as_str()) && !contains_str(&out, all[k].as_str()) {
            let ghost before = out@;
            out.push(all[k].clone());
            assert(crate::collect::strings_model(out@) == crate::collect::strings_model(before).push(all@[k as int]@));
        }
        k = k + 1;
    }
    assert(allm.take(k as int) == allm);
    out
}

/// Discover the remote URLs a host still has to fetch: those of
/// [`remote_urls`] neither provided in `config.resources` nor, when the
/// configuration has a cache directory, among `cached` (the URLs whose
/// download the host found in that cache).
pub fn resolve_resources(nodes: &[Node], config: &ResourceConfig, cached: &Vec<String>) -> (r: Vec<String>)
    ensures
        crate::collect::strings_model(r@) == resolve_spec(nodes_model(nodes@), config.resources@, config.cache_dir is Some, crate::collect::strings_model(cached@)),
{
    let cands = remote_urls(nodes);
    let ghost cm = crate::collect::strings_model(cands@);
    let mut out: Vec<String> = Vec::new();
    let mut k: usize = 0;
    while k < cands.len()
        invariant
            k <= cands@.len(),
            cm == crate::collect::strings_model(cands@),
            crate::collect::strings_model(out@) == still_needed(cm.take(k as int), config.resources@, config.cache_dir is Some, crate::collect::strings_model(cached@)),
        decreases cands@.len() - k,
    {
        let ghost before = out@;
        proof {
            assert(cm.take(k + 1).drop_last() == cm.take(k as int));
            assert(cm.take(k + 1).last() == cands@[k as int]@);
        }
        let provided = match find_key(&config.resources, cands[k].as_str()) {
            Some(i) => {
                proof {
                    lemma_lookup_first(config.resources@, cands@[k as int]@, i as int);
                }
                true
            },
            None => {
                proof {
                    lemma_lookup_none(config.resources@, cands@[k as int]@);
                }
                false
            },
        };
        let in_cache = config.cache_dir.is_some() && contains_str(cached, cands[k].as_str());
        if !provided && !in_cache {
            out.push(cands[k].clone());
            assert(crate::collect::strings_model(out@) == crate::collect::strings_model(before).push(cands@[k as int]@));
        }
        k = k + 1;
    }
    assert(cm.take(k as int) == cm);
    out
}

proof fn lemma_keep_remote(v: Seq<Seq<char>>)
    ensures
        crate::collect::no_repeats(keep_remote(v)),
        forall|u: Seq<char>| #[trigger] keep_remote(v).contains(u) <==> (v.contains(u) && is_url_spec(u)),
    decreases v.len(),
{
    if v.len() > 0 {
        let pre = v.drop_last();
        lemma_keep_remote(pre);
        let r = keep_remote(pre);
        let x = v.last();
        assert forall|u: Seq<char>| #[trigger] keep_remote(v).contains(u) <==> (v.contains(u) && is_url_spec(u)) by {
            if v.contains(u) {
                let k = choose|k: int| 0 <= k < v.len() && v[k] == u;
                if k < v.len() - 1 {
                    assert(pre[k] == u);
                }
            }
            if pre.contains(u) {
                let k = choose|k: int| 0 <= k < pre.len() && pre[k] == u;
                assert(v[k] == u);
            }
            if is_url_spec(x) && !r.contains(x) {
                let w = r.push(x);
                assert(w[r.len() as int] == x);
                if w.contains(u) {
                    let k = choose|k: int| 0 <= k < w.len() && w[k] == u;
                    if k < r.len() {
                        assert(r[k] == u);
                    }
                }
                if r.contains(u) {
                    let k = choose|k: int| 0 <= k < r.len() && r[k] == u;
                    assert(w[k] == u);
                }
            }
        }
    }
}

proof fn lemma_still_needed(urls: Seq<Seq<char>>, provided: Seq<(String, Vec<u8>)>, use_cache: bool, cached: Seq<Seq<char>>)
    requires
        crate::collect::no_repeats(urls),
    ensures
        crate::collect::no_repeats(still_needed(urls, provided, use_cache, cached)),
        forall|u: Seq<char>| #[trigger] still_needed(urls, provided, use_cache, cached).contains(u) <==> (urls.contains(u)
            && lookup(provided, u) is None && !(use_cache && cached.contains(u))),
    decreases urls.len(),
{
    if urls.len() > 0 {
        let pre = urls.drop_last();
        assert(crate::collect::no_repeats(pre)) by {
            assert forall|i: int, j: int| 0 <= i < j < pre.len() implies pre[i] != pre[j] by {
                assert(pre[i] == urls[i] && pre[j] == urls[j]);
            }
        }
        lemma_still_needed(pre, provided, use_cache, cached);
        let r = still_needed(pre, provided, use_cache, cached);
        let x = urls.last();
        assert(!pre.contains(x)) by {
            if pre.contains(x) {
                let k = choose|k: int| 0 <= k < pre.len() && pre[k] == x;
                assert(urls[k] == urls[urls.len() - 1]);
            }
        }
        assert forall|u: Seq<char>| #[trigger] still_needed(urls, provided, use_cache, cached).contains(u) <==> (urls.contains(u)
            && lookup(provided, u) is None && !(use_cache && cached.contains(u))) by {
            if urls.contains(u) {
                let k = choose|k: int| 0 <= k < urls.len() && urls[k] == u;
                if k < urls.len() - 1 {
                    assert(pre[k] == u);
                }
            }
            if pre.contains(u) {
                let k = choose|k: int| 0 <= k < pre.len() && pre[k] == u;
                assert(urls[k] == u);
            }
            if lookup(provided, x) is None && !(use_cache && cached.contains(x)) {
                let w = r.push(x);
                assert(w[r.len() as int] == x);
                if w.contains(u) {
                    let k = choose|k: int| 0 <= k < w.len() && w[k] == u;
                    if k < r.len() {
                        assert(r[k] == u);
                    }
                }
                if r.contains(u) {
                    let k = choose|k: int| 0 <= k < r.len() && r[k] == u;
                    assert(w[k] == u);
                }
            }
        }
        if lookup(provided, x) is None && !(use_cache && cached.contains(x)) {
            let w = r.push(x);
            assert forall|i: int, j: int| 0 <= i < j < w.len() implies w[i] != w[j] by {
                if j == r.len() {
                    assert(r.contains(r[i]));
                }
            }
        }
    }
}

/// The URLs a host still has to fetch are each listed once, and they are
/// exactly the remote (`https://`) URLs that the document's
/// `@image` or `@style` directives name, that the configuration does not
/// provide and that, when a cache is used, are not cached.
pub proof fn law_resolved_urls(ns: Seq<NodeModel>, provided: Seq<(String, Vec<u8>)>, use_cache: bool, cached: Seq<Seq<char>>)
    ensures
        crate::collect::no_repeats(resolve_spec(ns, provided, use_cache, cached)),
        forall|u: Seq<char>| #[trigger] resolve_spec(ns, provided, use_cache, cached).contains(u) <==> (
            is_url_spec(u)
            && (exists|i: int| 0 <= i < ns.len() && (#[trigger] ns[i] matches NodeModel::Image { url, .. } && url == u)
                || exists|i: int| 0 <= i < ns.len() && (#[trigger] ns[i] matches NodeModel::Style { font, .. } && font == u))
            && lookup(provided, u) is None
            && !(use_cache && cached.contains(u))),
{
    let all = crate::collect::images_of(ns) + crate::collect::fonts_of(ns);
    crate::collect::law_images_collected(ns);
    crate::collect::law_fonts_collected(ns);
    lemma_keep_remote(all);
    lemma_still_needed(keep_remote(all), provided, use_cache, cached);
    assert forall|u: Seq<char>| #[trigger] all.contains(u) <==> (crate::collect::images_of(ns).contains(u) || crate::collect::fonts_of(ns).contains(u)) by {
        let a = crate::collect::images_of(ns);
        let b = crate::collect::fonts_of(ns);
        if all.contains(u) {
            let k = choose|k: int| 0 <= k < all.len() && all[k] == u;
            if k < a.len() {
                assert(a[k] == u);
            } else {
                assert(b[k - a.len()] == u);
            }
        }
        if a.contains(u) {
            let k = choose|k: int| 0 <= k < a.len() && a[k] == u;
            assert(all[k] == u);
        }
        if b.contains(u) {
            let k = choose|k: int| 0 <= k < b.len() && b[k] == u;
            assert(all[a.len() + k] == u);
        }
    }
}

/// The first place of `u` in `v`, or `v.len()` where it does not occur.
pub open spec fn first_at(v: Seq<Seq<char>>, u: Seq<char>) -> int
    decreases v.len(),
{
    if v.len() == 0 {
        0
    } else if v[0] == u {
        0
    } else {
        1 + first_at(v.drop_first(), u)
    }
}

proof fn lemma_first_at(v: Seq<Seq<char>>, u: Seq<char>)
    ensures
        0 <= first_at(v, u) <= v.len(),
        v.contains(u) <==> first_at(v, u) < v.len(),
        first_at(v, u) < v.len() ==> v[first_at(v, u)] == u,
        forall|m: int| 0 <= m < first_at(v, u) ==> v[m] != u,
    decreases v.len(),
{
    if v.len() > 0 && v[0] != u {
        let t = v.drop_first();
        lemma_first_at(t, u);
        assert forall|m: int| 0 <= m < first_at(v, u) implies v[m] != u by {
            if m > 0 {
                assert(v[m] == t[m - 1]);
            }
        }
        if v.contains(u) {
            let k = choose|k: int| 0 <= k < v.len() && v[k] == u;
            assert(t[k - 1] == u);
        }
        if t.contains(u) {
            let k = choose|k: int| 0 <= k < t.len() && t[k] == u;
            assert(v[k + 1] == u);
        }
    } else if v.len() > 0 {
        assert(v[0] == u);
    }
}

proof fn lemma_first_at_is(v: Seq<Seq<char>>, u: Seq<char>, k: int)
    requires
        0 <= k < v.len(),
        v[k] == u,
        forall|m: int| 0 <= m < k ==> v[m] != u,
    ensures
        first_at(v, u) == k,
{
    lemma_first_at(v, u);
    if first_at(v, u) < k {
        assert(v[first_at(v, u)] == u);
    }
}

proof fn lemma_first_at_push(v: Seq<Seq<char>>, x: Seq<char>, u: Seq<char>)
    requires
        v.contains(u),
    ensures
        first_at(v.push(x), u) == first_at(v, u),
{
    lemma_first_at(v, u);
    let f = first_at(v, u);
    let w = v.push(x);
    assert forall|m: int| 0 <= m < f implies w[m] != u by {
        assert(w[m] == v[m]);
    }
    lemma_first_at_is(w, u, f);
}

proof fn lemma_first_at_new(v: Seq<Seq<char>>, x: Seq<char>)
    requires
        !v.contains(x),
    ensures
        first_at(v.push(x), x) == v.len(),
{
    let w = v.push(x);
    assert forall|m: int| 0 <= m < v.len() implies w[m] != x by {
        assert(w[m] == v[m]);
    }
    lemma_first_at_is(w, x, v.len() as int);
}

proof fn lemma_keep_remote_order(v: Seq<Seq<char>>)
    ensures
        forall|i: int, j: int| 0 <= i < j < keep_remote(v).len() ==> first_at(v, #[trigger] keep_remote(v)[i]) < first_at(v, #[trigger] keep_remote(v)[j]),
    decreases v.len(),
{
    if v.len() > 0 {
        let pre = v.drop_last();
        let x = v.last();
        let r = keep_remote(pre);
        lemma_keep_remote_order(pre);
        lemma_keep_remote(pre);
        assert(v == pre.push(x));
        assert forall|i: int| 0 <= i < r.len() implies first_at(v, #[trigger] r[i]) == first_at(pre, r[i]) && first_at(pre, r[i]) < pre.len() by {
            assert(r.contains(r[i]));
            lemma_first_at_push(pre, x, r[i]);
            lemma_first_at(pre, r[i]);
        }
        if is_url_spec(x) && !r.contains(x) {
            assert(!pre.contains(x));
            lemma_first_at_new(pre, x);
            let w = r.push(x);
            assert forall|i: int, j: int| 0 <= i < j < w.len() implies first_at(v, #[trigger] w[i]) < first_at(v, #[trigger] w[j]) by {
                assert(w[i] == r[i]);
                if j < r.len() {
                    assert(w[j] == r[j]);
                }
            }
        }
    }
}

proof fn lemma_still_needed_order(urls: Seq<Seq<char>>, provided: Seq<(String, Vec<u8>)>, use_cache: bool, cached: Seq<Seq<char>>)
    requires
        crate::collect::no_repeats(urls),
    ensures
        forall|i: int, j: int| 0 <= i < j < still_needed(urls, provided, use_cache, cached).len()
            ==> first_at(urls, #[trigger] still_needed(urls, provided, use_cache, cached)[i])
                < first_at(urls, #[trigger] still_needed(urls, provided, use_cache, cached)[j]),
    decreases urls.len(),
{
    if urls.len() > 0 {
        let pre = urls.drop_last();
        let x = urls.last();
        assert(crate::collect::no_repeats(pre)) by {
            assert forall|i: int, j: int| 0 <= i < j < pre.len() implies pre[i] != pre[j] by {
                assert(pre[i] == urls[i] && pre[j] == urls[j]);
            }
        }
        let r = still_needed(pre, provided, use_cache, cached);
        lemma_still_needed_order(pre, provided, use_cache, cached);
        lemma_still_needed(pre, provided, use_cache, cached);
        assert(urls == pre.push(x));
        assert forall|i: int| 0 <= i < r.len() implies first_at(urls, #[trigger] r[i]) == first_at(pre, r[i]) && first_at(pre, r[i]) < pre.len() by {
            assert(r.contains(r[i]));
            lemma_first_at_push(pre, x, r[i]);
            lemma_first_at(pre, r[i]);
        }
        if lookup(provided, x) is None && !(use_cache && cached.contains(x)) {
            assert(!pre.contains(x)) by {
                if pre.contains(x) {
                    let k = choose|k: int| 0 <= k < pre.len() && pre[k] == x;
                    assert(urls[k] == urls[urls.len() - 1]);
                }
            }
            lemma_first_at_new(pre, x);
            let w = r.push(x);
            assert forall|i: int, j: int| 0 <= i < j < w.len() implies first_at(urls, #[trigger] w[i]) < first_at(urls, #[trigger] w[j]) by {
                assert(w[i] == r[i]);
                if j < r.len() {
                    assert(w[j] == r[j]);
                }
            }
        }
    }
}

/// The URLs a host still has to fetch come in the order in which the
/// document first names them, images before fonts: each stands at its
/// first place in the image URLs followed by the font URLs, those places
/// increase along the list, and a URL places among the images exactly
/// when an `@image` directive names it.
pub proof fn law_resolved_order(ns: Seq<NodeModel>, provided: Seq<(String, Vec<u8>)>, use_cache: bool, cached: Seq<Seq<char>>)
    ensures
        forall|i: int| 0 <= i < resolve_spec(ns, provided, use_cache, cached).len() ==> {
            let all = crate::collect::images_of(ns) + crate::collect::fonts_of(ns);
            let u = #[trigger] resolve_spec(ns, provided, use_cache, cached)[i];
            &&& 0 <= first_at(all, u) < all.len()
            &&& all[first_at(all, u)] == u
            &&& (crate::collect::images_of(ns).contains(u) <==> first_at(all, u) < crate::collect::images_of(ns).len())
        },
        forall|i: int, j: int| 0 <= i < j < resolve_spec(ns, provided, use_cache, cached).len() ==> first_at(
            crate::collect::images_of(ns) + crate::collect::fonts_of(ns),
            #[trigger] resolve_spec(ns, provided, use_cache, cached)[i],
        ) < first_at(crate::collect::images_of(ns) + crate::collect::fonts_of(ns), #[trigger] resolve_spec(ns, provided, use_cache, cached)[j]),
{
    let a = crate::collect::images_of(ns);
    let all = a + crate::collect::fonts_of(ns);
    let kr = keep_remote(all);
    let r = resolve_spec(ns, provided, use_cache, cached);
    lemma_keep_remote(all);
    lemma_keep_remote_order(all);
    lemma_still_needed(kr, provided, use_cache, cached);
    lemma_still_needed_order(kr, provided, use_cache, cached);
    assert forall|i: int| 0 <= i < r.len() implies {
        let u = #[trigger] r[i];
        &&& 0 <= first_at(all, u) < all.len()
        &&& all[first_at(all, u)] == u
        &&& (a.contains(u) <==> first_at(all, u) < a.len())
    } by {
        let u = r[i];
        assert(r.contains(u));
        lemma_first_at(all, u);
        if a.contains(u) {
            let k = choose|k: int| 0 <= k < a.len() && a[k] == u;
            assert(all[k] == u);
        }
        if first_at(all, u) < a.len() {
            assert(a[first_at(all, u)] == all[first_at(all, u)]);
        }
    }
    assert forall|i: int, j: int| 0 <= i < j < r.len() implies first_at(all, #[trigger] r[i]) < first_at(all, #[trigger] r[j]) by {
        assert(r.contains(r[i]) && r.contains(r[j]));
        lemma_first_at(kr, r[i]);
        lemma_first_at(kr, r[j]);
        let p = first_at(kr, r[i]);
        let q = first_at(kr, r[j]);
        assert(kr[p] == r[i] && kr[q] == r[j]);
    }
}

/// An image to prepare: its URL and the sizing and processing of its first
/// `@image`/`@logo` directive.
#[derive(Debug, Clone)]
pub struct ImageRequest {
    pub url: String,
    pub width: Option<Decimal>,
    pub height: Option<Decimal>,
    pub dither: bool,
}

/// The model of an image request.
pub open spec fn request_model(r: ImageRequest) -> (Seq<char>, Option<Decimal>, Option<Decimal>, bool) {
    (r.url@, r.width, r.height, r.dither)
}

/// The image requests of a document: one per URL, from its first directive.
pub open spec fn image_requests_spec(ns: Seq<NodeModel>) -> Seq<(Seq<char>, Option<Decimal>, Option<Decimal>, bool)>
    decreases ns.len(),
{
    if ns.len() == 0 {
        seq![]
    } else {
        let r = image_requests_spec(ns.drop_last());
        match ns.last() {
            NodeModel::Image { url, width, height, dither, .. } => if exists|k: int| 0 <= k < r.len() && (#[trigger] r[k]).0 == url {
                r
            } else {
                r.push((url, width, height, dither))
            },
            _ => r,
        }
    }
}

/// The images a document asks for, one per URL, with the sizing and
/// processing of the first directive naming it.
pub fn image_requests(nodes: &[Node]) -> (r: Vec<ImageRequest>)
    ensures
        r@.len() == image_requests_spec(nodes_model(nodes@)).len(),
        forall|k: int| 0 <= k < r@.len() ==> request_model(#[trigger] r@[k]) == image_requests_spec(nodes_model(nodes@))[k],
{
    let ghost ns = nodes_model(nodes@);
    let mut out: Vec<ImageRequest> = Vec::new();
    let mut i: usize = 0;
    while i < nodes.len()
        invariant
            ns == nodes_model(nodes@),
            i <= nodes@.len(),
            out@.len() == image_requests_spec(ns.take(i as int)).len(),
            forall|k: int| 0 <= k < out@.len() ==> request_model(#[trigger] out@[k]) == image_requests_spec(ns.take(i as int))[k],
        decreases nodes@.len() - i,
    {
        assert(ns.take(i + 1).drop_last() == ns.take(i as int));
        assert(ns.take(i + 1).last() == nodes@[i as int]@);
        let ghost prev = image_requests_spec(ns.take(i as int));
        match &nodes[i] {
            Node::Image { url, width, height, dither, .. } => {
                let mut found = false;
                let mut k: usize = 0;
                while k < out.len()
                    invariant
                        k <= out@.len(),
                        out@.len() == prev.len(),
                        forall|t: int| 0 <= t < out@.len() ==> request_model(#[trigger] out@[t]) == prev[t],
                        found ==> exists|t: int| 0 <= t < prev.len() && (#[trigger] prev[t]).0 == url@,
                        !found ==> forall|t: int| 0 <= t < k ==> (#[trigger] prev[t]).0 != url@,
                    decreases out@.len() - k,
                {
                    if str_eq(out[k].url.as_str(), url.as_str()) {
                        assert(request_model(out@[k as int]) == prev[k as int]);
                        found = true;
                    }
                    k = k + 1;
                }
                if !found {
                    let ghost before = out@;
                    out.push(ImageRequest { url: url.clone(), width: *width, height: *height, dither: *dither });
                    assert forall|t: int| 0 <= t < out@.len() implies request_model(#[trigger] out@[t]) == prev.push((url@, *width, *height, *dither))[t] by {
                        if t < before.len() {
                            assert(out@[t] == before[t]);
                        }
                    }
                }
            },
            _ => {},
        }
        i = i + 1;
    }
    assert(ns.take(i as int) == ns);
    out
}

/// The width bound of an image in dots: its width in points at the DPI,
/// capped at the printable width; none when it gives no positive width.
pub open spec fn image_max_w(width: Option<Decimal>, dpi: int, paper_px: int) -> Option<int> {
    match width {
        Some(w) => if w.milli > 0 {
            Some(if pt_to_px_spec(w.milli as int, dpi) <= paper_px { pt_to_px_spec(w.milli as int, dpi) } else { paper_px })
        } else {
            None
        },
        None => None,
    }
}

/// The height bound of an image in dots; none when it gives no positive
/// height.
pub open spec fn image_max_h(height: Option<Decimal>, dpi: int) -> Option<int> {
    match height {
        Some(h) => if h.milli > 0 { Some(pt_to_px_spec(h.milli as int, dpi)) } else { None },
        None => None,
    }
}

/// The width and height bounds of an image in dots (see [`image_max_w`]
/// and [`image_max_h`]).
pub fn image_bounds(width: Option<Decimal>, height: Option<Decimal>, dpi: u32, paper_px: u32) -> (r: (Option<u32>, Option<u32>))
    ensures
        opt_u32(r.0) == image_max_w(width, dpi as int, paper_px as int),
        opt_u32(r.1) == image_max_h(height, dpi as int),
{
    let mw = match width {
        Some(w) => if w.milli > 0 {
            let p = pt_to_px(w, dpi);
            Some(if p <= paper_px { p } else { paper_px })
        } else {
            None
        },
        None => None,
    };
    let mh = match height {
        Some(h) => if h.milli > 0 { Some(pt_to_px(h, dpi)) } else { None },
        None => None,
    };
    (mw, mh)
}

/// The view of an optional 32-bit value.
pub open spec fn opt_u32(o: Option<u32>) -> Option<int> {
    match o {
        Some(v) => Some(v as int),
        None => None,
    }
}

/// The size an SVG is rendered at: the width bound (else the printable
/// width) and the height bound (else that width).
pub open spec fn svg_target_spec(mw: Option<int>, mh: Option<int>, paper_px: int) -> (int, int) {
    let w = match mw { Some(v) => v, None => paper_px };
    (w, match mh { Some(v) => v, None => w })
}

/// The size an SVG is rendered at (see [`svg_target_spec`]).
pub fn svg_target(max_w: Option<u32>, max_h: Option<u32>, paper_px: u32) -> (r: (u32, u32))
    ensures
        (r.0 as int, r.1 as int) == svg_target_spec(opt_u32(max_w), opt_u32(max_h), paper_px as int),
{
    let w = match max_w { Some(v) => v, None => paper_px };
    (w, match max_h { Some(v) => v, None => w })
}

/// Scaled dimensions of an image keeping its aspect ratio: within both
/// bounds when both are given; within the one given without enlarging;
/// the full printable width when none is given (the height following, up
/// to `u32::MAX`); each at least 1.
pub open spec fn scale_image_dims_spec(nw: int, nh: int, mw: Option<int>, mh: Option<int>, paper: int) -> (int, int) {
    match (mw, mh) {
        (Some(a), Some(b)) => crate::escpos::fit_dims(nw, nh, a, Some(b)),
        (Some(a), None) => crate::escpos::fit_dims(nw, nh, a, None),
        (None, Some(b)) => {
            let (w, h) = if b < nh { (nw * b / nh, b) } else { (nw, nh) };
            (if w < 1 { 1 } else { w }, if h < 1 { 1 } else { h })
        },
        (None, None) => {
            let h = nh * paper / nw;
            (if paper < 1 { 1 } else { paper }, if h < 1 { 1 } else if h > u32::MAX { u32::MAX as int } else { h })
        },
    }
}

/// Scaled dimensions of a non-empty image (see [`scale_image_dims_spec`]).
pub fn scale_image_dims(nat_w: u32, nat_h: u32, max_w: Option<u32>, max_h: Option<u32>, paper_width: u32) -> (r: (u32, u32))
    requires
        nat_w > 0,
        nat_h > 0,
    ensures
        (r.0 as int, r.1 as int) == scale_image_dims_spec(nat_w as int, nat_h as int, opt_u32(max_w), opt_u32(max_h), paper_width as int),
{
    match (max_w, max_h) {
        (Some(a), Some(b)) => crate::escpos::scale_dims(nat_w, nat_h, a, Some(b)),
        (Some(a), None) => crate::escpos::scale_dims(nat_w, nat_h, a, None),
        (None, Some(b)) => {
            let (w, h): (u32, u32) = if b < nat_h {
                assert((nat_w as int) * (b as int) / (nat_h as int) <= nat_w) by (nonlinear_arith)
                    requires
                        b < nat_h,
                        nat_h > 0,
                        nat_w >= 0,
                ;
                assert((nat_w as int) * (b as int) <= u32::MAX * u32::MAX) by (nonlinear_arith)
                    requires
                        nat_w <= u32::MAX,
                        b <= u32::MAX,
                ;
                (((nat_w as u64) * (b as u64) / (nat_h as u64)) as u32, b)
            } else {
                (nat_w, nat_h)
            };
            (if w < 1 { 1 } else { w }, if h < 1 { 1 } else { h })
        },
        (None, None) => {
            assert((nat_h as int) * (paper_width as int) <= u32::MAX * u32::MAX) by (nonlinear_arith)
                requires
                    nat_h <= u32::MAX,
                    paper_width <= u32::MAX,
            ;
            let h: u64 = (nat_h as u64) * (paper_width as u64) / (nat_w as u64);
            (if paper_width < 1 { 1 } else { paper_width }, if h < 1 { 1 } else if h > u32::MAX as u64 { u32::MAX } else { h as u32 })
        },
    }
}

proof fn lemma_quot_le(x: int, b: int, d: int)
    requires
        0 < d,
        0 <= b,
        x <= b * d,
    ensures
        x / d <= b,
{
    vstd::arithmetic::div_mod::lemma_div_is_ordered(x, b * d, d);
    vstd::arithmetic::div_mod::lemma_div_by_multiple(b, d);
}

proof fn lemma_fit_both(nw: int, nh: int, a: int, b: int)
    requires
        nw > 0,
        nh > 0,
        a >= 1,
        b >= 1,
    ensures
        crate::escpos::fit_dims(nw, nh, a, Some(b)).0 <= a,
        crate::escpos::fit_dims(nw, nh, a, Some(b)).1 <= b,
{
    if a * nh <= b * nw {
        assert(nh * a <= b * nw) by (nonlinear_arith)
            requires
                a * nh <= b * nw,
        ;
        lemma_quot_le(nh * a, b, nw);
    } else {
        assert(nw * b <= a * nh) by (nonlinear_arith)
            requires
                a * nh > b * nw,
        ;
        lemma_quot_le(nw * b, a, nh);
    }
}

/// Scaled image dimensions fit their bounds: each is at least 1; each is
/// within its bound when the bound is given (and at least 1); with no
/// bound the image takes the full printable width; with a single bound the
/// image is never enlarged.
pub proof fn law_scaled_fits(nw: int, nh: int, mw: Option<int>, mh: Option<int>, paper: int)
    requires
        nw > 0,
        nh > 0,
    ensures
        ({
            let r = scale_image_dims_spec(nw, nh, mw, mh, paper);
            &&& r.0 >= 1 && r.1 >= 1
            &&& (mw matches Some(a) && a >= 1) ==> r.0 <= mw->0
            &&& (mh matches Some(b) && b >= 1) ==> r.1 <= mh->0
            &&& (mw is None && mh is None && paper >= 1) ==> r.0 == paper
            &&& (mw is Some && mh is None && mw->0 >= 1) ==> r.0 <= nw && r.1 <= nh
            &&& (mw is None && mh is Some && mh->0 >= 1) ==> r.0 <= nw && r.1 <= nh
        }),
{
    match (mw, mh) {
        (Some(a), Some(b)) => {
            if a >= 1 && b >= 1 {
                lemma_fit_both(nw, nh, a, b);
            } else if a >= 1 {
                if a * nh > b * nw {
                    assert(nw * b <= a * nh) by (nonlinear_arith)
                        requires
                            a * nh > b * nw,
                    ;
                    if nw * b >= 0 {
                        lemma_quot_le(nw * b, a, nh);
                    } else {
                        assert(nw * b < 0);
                        vstd::arithmetic::div_mod::lemma_div_is_ordered(nw * b, 0, nh);
                    }
                }
            } else if b >= 1 {
                if a * nh <= b * nw {
                    assert(nh * a <= b * nw) by (nonlinear_arith)
                        requires
                            a * nh <= b * nw,
                    ;
                    if nh * a >= 0 {
                        lemma_quot_le(nh * a, b, nw);
                    } else {
                        vstd::arithmetic::div_mod::lemma_div_is_ordered(nh * a, 0, nw);
                    }
                }
            }
        },
        (Some(a), None) => {
            if a >= 1 && a < nw {
                assert(nh * a <= nh * nw) by (nonlinear_arith)
                    requires
                        a < nw,
                        nh > 0,
                ;
                assert(nh * nw == nh * nw);
                lemma_quot_le(nh * a, nh, nw);
            }
        },
        (None, Some(b)) => {
            if b >= 1 && b < nh {
                assert(nw * b <= nw * nh) by (nonlinear_arith)
                    requires
                        b < nh,
                        nw > 0,
                ;
                lemma_quot_le(nw * b, nw, nh);
            }
        },
        (None, None) => {},
    }
}

/// An image scaled to fit its bounds by nearest-neighbor sampling (see
/// [`scale_image_dims_spec`]).
pub fn process_raster(raw: &ImageData, max_w: Option<u32>, max_h: Option<u32>, paper_px: u32) -> (img: ImageData)
    requires
        raw.wf(),
        raw.width > 0,
        raw.height > 0,
        ({
            let d = scale_image_dims_spec(raw.width as int, raw.height as int, opt_u32(max_w), opt_u32(max_h), paper_px as int);
            d.0 * d.1 <= u32::MAX
        }),
    ensures
        (img.width as int, img.height as int) == scale_image_dims_spec(raw.width as int, raw.height as int, opt_u32(max_w), opt_u32(max_h), paper_px as int),
        img.pixels@ == crate::escpos::scaled_seq(raw.pixels@, raw.width as int, raw.height as int, img.width as int, img.height as int),
        img.wf(),
{
    let (w, h) = scale_image_dims(raw.width, raw.height, max_w, max_h, paper_px);
    let pixels = crate::raster::scale_nn(raw.pixels.as_slice(), raw.width, raw.height, w, h);
    proof {
        crate::escpos::lemma_scaled_unique(pixels@, raw.pixels@, raw.width as int, raw.height as int, w as int, h as int);
    }
    ImageData { width: w, height: h, pixels }
}

/// Pixels thresholded: 0 below the threshold, 255 at or above it.
pub open spec fn thresholded(p: Seq<u8>, thr: u8) -> Seq<u8> {
    p.map_values(|v: u8| if v < thr { 0u8 } else { 255u8 })
}

/// Turn an image black and white: Floyd–Steinberg dithering, or a plain
/// threshold.
pub fn finish_image(img: &mut ImageData, dither: bool, threshold: u8)
    requires
        old(img).wf(),
    ensures
        final(img).width == old(img).width,
        final(img).height == old(img).height,
        final(img).pixels@ == if dither {
            crate::dither::dithered(old(img).pixels@, old(img).width as int, old(img).height as int)
        } else {
            thresholded(old(img).pixels@, threshold)
        },
        final(img).wf(),
{
    let w = img.width;
    let h = img.height;
    if dither {
        crate::dither::floyd_steinberg(img.pixels.as_mut_slice(), w, h);
        proof {
            crate::dither::law_dither_binary(old(img).pixels@, w as int, h as int);
        }
    } else {
        let ghost p0 = img.pixels@;
        let mut i: usize = 0;
        while i < img.pixels.len()
            invariant
                i <= img.pixels@.len(),
                img.pixels@.len() == p0.len(),
                img.width == w,
                img.height == h,
                forall|j: int| 0 <= j < i ==> img.pixels@[j] == (if p0[j] < threshold { 0u8 } else { 255u8 }),
                forall|j: int| i <= j < p0.len() ==> img.pixels@[j] == p0[j],
            decreases p0.len() - i,
        {
            let v = img.pixels[i];
            img.pixels.set(i, if v < threshold { 0 } else { 255 });
            i = i + 1;
        }
        assert(img.pixels@ == thresholded(p0, threshold));
    }
}

} // verus!
