//! The DMC colour catalogue: codes, names and hex colours read from the
//! catalogue's CSV text, the Blanc / White merge, and the "smart" code order.
use vstd::prelude::*;
use crate::text::{
    chars_of, string_of, trimmed, chars_eq, chars_eq_ignore_ascii_case, strip_start_chars,
    strip_both_chars, sub_vec, trim, eq_ignore_ascii_case, strip_start, strip_both,
    lemma_trim_idempotent, lemma_trim_fixed, is_ws,
};
use crate::numbers::{parse_hex_u8, parse_hex_u8_spec, parse_u32, parse_u32_spec, hex2, hex2_lower, lemma_hex2_parse, lemma_hex2_lower_parse};
use crate::order::{key_le, chars_le_exec, lemma_key_le_total, lemma_key_le_transitive, lemma_chars_le_refl};
use crate::text::{lowercase_of, to_lowercase};
use crate::split::{lines, split_lines, views};
use crate::split::{index_of, find_from, lemma_index_of_props};

verus! {

/// The code `"White"`.
pub open spec fn white_code() -> Seq<char> {
    seq!['W', 'h', 'i', 't', 'e']
}

/// The code `"Blanc"`, under which White and Blanc are kept.
pub open spec fn blanc_code() -> Seq<char> {
    seq!['B', 'l', 'a', 'n', 'c']
}

/// The name shown for the merged Blanc / White colour.
pub open spec fn blanc_name() -> Seq<char> {
    seq!['B', 'l', 'a', 'n', 'c', ' ', '/', ' ', 'W', 'h', 'i', 't', 'e']
}

/// The code under which a colour is kept: trimmed, with `White` (in any ASCII
/// case) turned into `Blanc`.
pub open spec fn canonical(code: Seq<char>) -> Seq<char> {
    let t = trim(code);
    if eq_ignore_ascii_case(t, white_code()) {
        blanc_code()
    } else {
        t
    }
}

/// The code under which a colour is kept.
pub fn canonical_code(code: &str) -> (r: String)
    ensures
        r@ == canonical(code@),
{
    let cs = chars_of(code);
    let t = trimmed(cs.as_slice());
    let white: [char; 5] = ['W', 'h', 'i', 't', 'e'];
    assert(white@ == white_code());
    if chars_eq_ignore_ascii_case(t.as_slice(), white.as_slice()) {
        let blanc: [char; 5] = ['B', 'l', 'a', 'n', 'c'];
        assert(blanc@ == blanc_code());
        string_of(blanc.as_slice())
    } else {
        string_of(t.as_slice())
    }
}

/// Canonicalising a code twice is canonicalising it once.
pub proof fn lemma_canonical_idempotent(code: Seq<char>)
    ensures
        canonical(canonical(code)) == canonical(code),
{
    lemma_trim_idempotent(code);
    let t = trim(code);
    if eq_ignore_ascii_case(t, white_code()) {
        lemma_trim_fixed(blanc_code());
        assert(!eq_ignore_ascii_case(blanc_code(), white_code())) by {
            assert(blanc_code()[0] == 'B');
            assert(white_code()[0] == 'W');
        }
    }
}

/// A colour of the catalogue, as plain values.
pub struct ColorModel {
    pub code: Seq<char>,
    pub name: Seq<char>,
    pub hex: Seq<char>,
    pub rgb: Seq<u8>,
}

/// One DMC colour: its code, name, hex text and the colour that the hex text writes.
#[derive(Clone, Debug)]
pub struct DmcColor {
    pub code: String,
    pub name: String,
    pub hex: String,
    pub rgb: [u8; 3],
}

impl View for DmcColor {
    type V = ColorModel;

    open spec fn view(&self) -> ColorModel {
        ColorModel { code: self.code@, name: self.name@, hex: self.hex@, rgb: self.rgb@ }
    }
}

impl DmcColor {
    /// A copy of this colour.
    pub fn copy(&self) -> (r: DmcColor)
        ensures
            r@ == self@,
    {
        DmcColor {
            code: self.code.clone(),
            name: self.name.clone(),
            hex: self.hex.clone(),
            rgb: self.rgb,
        }
    }
}

// ---------------------------------------------------------------------------
// Hex colours
// ---------------------------------------------------------------------------

/// The number of bytes that `c` takes in UTF-8.
pub open spec fn utf8_width(c: char) -> nat {
    if (c as u32) < 0x80 {
        1
    } else if (c as u32) < 0x800 {
        2
    } else if (c as u32) < 0x10000 {
        3
    } else {
        4
    }
}

/// The number of bytes that `s` takes in UTF-8 (what `str::len` counts).
pub open spec fn utf8_len(s: Seq<char>) -> nat
    decreases s.len(),
{
    if s.len() == 0 {
        0
    } else {
        utf8_len(s.drop_last()) + utf8_width(s.last())
    }
}

/// Byte offset `b` of `s` falls between two characters.
pub open spec fn on_boundary(s: Seq<char>, b: nat) -> bool {
    exists|k: int| 0 <= k <= s.len() && utf8_len(#[trigger] s.take(k)) == b
}

/// The hex text of a colour without surrounding white space and leading `'#'`s.
pub open spec fn hex_digits_of(hex: Seq<char>) -> Seq<char> {
    strip_start(trim(hex), '#')
}

/// The inputs on which the hex parsing slices a string inside a character
/// and panics: six bytes long, and byte 2 is inside a character, or the
/// first two bytes parse and byte 4 is inside a character.
pub open spec fn hex_rgb_panics(hex: Seq<char>) -> bool {
    let v = hex_digits_of(hex);
    &&& utf8_len(v) == 6
    &&& (!on_boundary(v, 2) || (v.len() >= 2 && parse_hex_u8_spec(v.take(2)) is Some
        && !on_boundary(v, 4)))
}

/// The colour that a hex text writes: after trimming and dropping leading
/// `'#'`s, six characters, each pair a byte in base 16.
pub open spec fn parse_hex_rgb_spec(hex: Seq<char>) -> Option<Seq<u8>> {
    let v = hex_digits_of(hex);
    if v.len() == 6 {
        match (
            parse_hex_u8_spec(v.subrange(0, 2)),
            parse_hex_u8_spec(v.subrange(2, 4)),
            parse_hex_u8_spec(v.subrange(4, 6)),
        ) {
            (Some(r), Some(g), Some(b)) => Some(seq![r, g, b]),
            _ => None,
        }
    } else {
        None
    }
}

/// Two hexadecimal digits for a byte, upper or lower case.
pub open spec fn hex_pair(b: u8, upper: bool) -> Seq<char> {
    if upper {
        hex2(b)
    } else {
        hex2_lower(b)
    }
}

/// Three bytes written as hex digits (upper or lower case), with or without a
/// leading `#` (as the missing-colours list writes a colour), read back as
/// the same bytes.
pub proof fn lemma_hex_rgb_round_trip(r: u8, g: u8, b: u8, upper: bool, hash: bool)
    ensures
        parse_hex_rgb_spec(
            (if hash {
                seq!['#']
            } else {
                Seq::<char>::empty()
            }) + hex_pair(r, upper) + hex_pair(g, upper) + hex_pair(b, upper),
        ) == Some(seq![r, g, b]),
{
    lemma_hex2_parse(r);
    lemma_hex2_parse(g);
    lemma_hex2_parse(b);
    lemma_hex2_lower_parse(r);
    lemma_hex2_lower_parse(g);
    lemma_hex2_lower_parse(b);
    let p = if hash {
        seq!['#']
    } else {
        Seq::<char>::empty()
    };
    let x = hex_pair(r, upper);
    let y = hex_pair(g, upper);
    let z = hex_pair(b, upper);
    let v = x + y + z;
    let s = p + x + y + z;
    assert(s =~= p + v);
    assert(v.len() == 6);
    assert(!is_ws(v[0]) && !is_ws(v[5])) by {
        assert(v[0] == x[0]);
        assert(v[5] == z[1]);
    }
    assert(s.last() == v[5]);
    assert(!is_ws(s[0]));
    lemma_trim_fixed(s);
    if hash {
        assert(s.drop_first() =~= v);
    } else {
        assert(s =~= v);
    }
    assert(v[0] != '#');
    assert(hex_digits_of(s) == v);
    assert(v.subrange(0, 2) =~= x);
    assert(v.subrange(2, 4) =~= y);
    assert(v.subrange(4, 6) =~= z);
}

/// The colour that a hex text such as `"#1E90FF"` writes.
pub fn parse_hex_rgb(hex: &str) -> (r: Option<[u8; 3]>)
    requires
        !hex_rgb_panics(hex@),
    ensures
        r matches Some(a) ==> parse_hex_rgb_spec(hex@) == Some(a@),
        r is None ==> parse_hex_rgb_spec(hex@) is None,
{
    let cs = chars_of(hex);
    let t = trimmed(cs.as_slice());
    let v = strip_start_chars(t.as_slice(), '#');
    if v.len() != 6 {
        return None;
    }
    let p0 = sub_vec(v.as_slice(), 0, 2);
    let p1 = sub_vec(v.as_slice(), 2, 4);
    let p2 = sub_vec(v.as_slice(), 4, 6);
    match parse_hex_u8(p0.as_slice()) {
        None => None,
        Some(r) => match parse_hex_u8(p1.as_slice()) {
            None => None,
            Some(g) => match parse_hex_u8(p2.as_slice()) {
                None => None,
                Some(b) => {
                    let a: [u8; 3] = [r, g, b];
                    assert(a@ == seq![r, g, b]);
                    Some(a)
                },
            },
        },
    }
}

// ---------------------------------------------------------------------------
// Catalogue lines
// ---------------------------------------------------------------------------

/// The index of the last `c` in `s`, or `-1` when there is none.
pub open spec fn last_index_of(s: Seq<char>, c: char) -> int
    decreases s.len(),
{
    if s.len() == 0 {
        -1
    } else if s.last() == c {
        s.len() - 1
    } else {
        last_index_of(s.drop_last(), c)
    }
}

proof fn lemma_last_index_of(s: Seq<char>, c: char, k: int)
    requires
        -1 <= k < s.len(),
        forall|i: int| k < i < s.len() ==> #[trigger] s[i] != c,
        k == -1 || s[k] == c,
    ensures
        last_index_of(s, c) == k,
    decreases s.len(),
{
    if s.len() > 0 && k < s.len() - 1 {
        let t = s.drop_last();
        assert forall|i: int| k < i < t.len() implies #[trigger] t[i] != c by {
            assert(t[i] == s[i]);
        }
        lemma_last_index_of(t, c, k);
    }
}

/// One past the index of the last `c` in `s`, or `0` when there is none.
fn rfind_end(s: &[char], c: char) -> (r: usize)
    ensures
        r <= s.len(),
        r - 1 == last_index_of(s@, c),
{
    let mut i: usize = s.len();
    while i > 0 && s[i - 1] != c
        invariant
            i <= s.len(),
            forall|k: int| i <= k < s.len() ==> #[trigger] s@[k] != c,
        decreases i,
    {
        i = i - 1;
    }
    proof {
        lemma_last_index_of(s@, c, i - 1);
    }
    i
}

/// The pieces of a catalogue line `code,name,hex`: the code before the first
/// comma, the hex text after the last one, the name between them.
pub open spec fn line_first_comma(line: Seq<char>) -> int {
    index_of(line, ',') as int
}

pub open spec fn line_raw_code(line: Seq<char>) -> Seq<char> {
    trim(line.take(line_first_comma(line)))
}

pub open spec fn line_hex(line: Seq<char>) -> Seq<char> {
    strip_both(trim(line.skip(last_index_of(line, ',') + 1)), '"')
}

/// The line has two different commas and its code is not `White`: the hex
/// text is then parsed.
pub open spec fn line_reaches_hex(line: Seq<char>) -> bool {
    &&& line_first_comma(line) < line.len()
    &&& line_first_comma(line) != last_index_of(line, ',')
    &&& !eq_ignore_ascii_case(line_raw_code(line), white_code())
}

/// The catalogue lines on which parsing panics (see [`hex_rgb_panics`]).
pub open spec fn dmc_line_panics(line: Seq<char>) -> bool {
    line_reaches_hex(line) && hex_rgb_panics(line_hex(line))
}

/// The colour that a catalogue line `code,name,hex` describes: none when it
/// has fewer than two commas, when its code is `White` (the catalogue lists
/// that colour as `Blanc`), or when its hex text is not a colour. The code
/// is canonical; `Blanc` is named `Blanc / White`.
pub open spec fn parse_dmc_line_spec(line: Seq<char>) -> Option<ColorModel> {
    if !line_reaches_hex(line) {
        None
    } else {
        let code = canonical(line_raw_code(line));
        let name = if code == blanc_code() {
            blanc_name()
        } else {
            trim(line.subrange(line_first_comma(line) + 1, last_index_of(line, ',')))
        };
        let hex = line_hex(line);
        match parse_hex_rgb_spec(hex) {
            Some(rgb) => Some(ColorModel { code, name, hex, rgb }),
            None => None,
        }
    }
}

/// The colour that a catalogue line describes.
pub fn parse_dmc_line(line: &str) -> (r: Option<DmcColor>)
    requires
        !dmc_line_panics(line@),
    ensures
        r matches Some(c) ==> parse_dmc_line_spec(line@) == Some(c@),
        r is None ==> parse_dmc_line_spec(line@) is None,
{
    let cs = chars_of(line);
    let ghost l = line@;
    let first = find_from(cs.as_slice(), 0, ',');
    assert(l.skip(0) == l);
    if first >= cs.len() {
        return None;
    }
    let last_end = rfind_end(cs.as_slice(), ',');
    assert(last_end >= first + 1) by {
        lemma_index_of_props(l, ',');
        assert(l[first as int] == ',');
        if last_end < first + 1 {
            lemma_last_index_props(l, ',');
        }
    }
    if last_end == first + 1 {
        return None;
    }
    let last = last_end - 1;
    let head = sub_vec(cs.as_slice(), 0, first);
    let raw = trimmed(head.as_slice());
    let white: [char; 5] = ['W', 'h', 'i', 't', 'e'];
    assert(white@ == white_code());
    if chars_eq_ignore_ascii_case(raw.as_slice(), white.as_slice()) {
        return None;
    }
    proof {
        lemma_trim_idempotent(l.take(first as int));
    }
    // The code is the trimmed raw code: it is not `White`.
    let blanc: [char; 5] = ['B', 'l', 'a', 'n', 'c'];
    assert(blanc@ == blanc_code());
    let name = if chars_eq(raw.as_slice(), blanc.as_slice()) {
        let n: [char; 13] = ['B', 'l', 'a', 'n', 'c', ' ', '/', ' ', 'W', 'h', 'i', 't', 'e'];
        assert(n@ == blanc_name());
        string_of(n.as_slice())
    } else {
        let middle = sub_vec(cs.as_slice(), first + 1, last);
        let m = trimmed(middle.as_slice());
        string_of(m.as_slice())
    };
    let tail = sub_vec(cs.as_slice(), last + 1, cs.len());
    assert(tail@ == l.skip(last + 1));
    let tail_trimmed = trimmed(tail.as_slice());
    let hex_chars = strip_both_chars(tail_trimmed.as_slice(), '"');
    let hex = string_of(hex_chars.as_slice());
    match parse_hex_rgb(hex.as_str()) {
        None => None,
        Some(rgb) => {
            let code = string_of(raw.as_slice());
            Some(DmcColor { code, name, hex, rgb })
        },
    }
}

proof fn lemma_last_index_props(s: Seq<char>, c: char)
    ensures
        -1 <= last_index_of(s, c) < s.len(),
        last_index_of(s, c) >= 0 ==> s[last_index_of(s, c)] == c,
        forall|i: int| last_index_of(s, c) < i < s.len() ==> #[trigger] s[i] != c,
    decreases s.len(),
{
    if s.len() > 0 && s.last() != c {
        lemma_last_index_props(s.drop_last(), c);
        assert forall|i: int| last_index_of(s, c) < i < s.len() implies #[trigger] s[i] != c by {
            if i < s.len() - 1 {
                assert(s[i] == s.drop_last()[i]);
            }
        }
    }
}

// ---------------------------------------------------------------------------
// Code order and the catalogue
// ---------------------------------------------------------------------------

/// The key by which codes are ordered: numeric codes first, by number, then
/// the others by their lower-case text.
pub open spec fn code_key(code: Seq<char>) -> (u8, u32, Seq<char>) {
    match parse_u32_spec(code) {
        Some(n) => (0u8, n, code),
        None => (1u8, 0u32, lowercase_of(code)),
    }
}

/// The key by which a code is ordered.
pub fn smart_code_key(code: &str) -> (r: (u8, u32, String))
    ensures
        (r.0, r.1, r.2@) == code_key(code@),
{
    let cs = chars_of(code);
    match parse_u32(cs.as_slice()) {
        Some(n) => (0, n, string_of(cs.as_slice())),
        None => (1, 0, to_lowercase(code)),
    }
}

/// The key of a colour: that of its code.
pub open spec fn color_key(c: ColorModel) -> (u8, u32, Seq<char>) {
    code_key(c.code)
}

/// The models of a sequence of colours.
pub open spec fn models(s: Seq<DmcColor>) -> Seq<ColorModel> {
    s.map_values(|c: DmcColor| c@)
}

/// The colours are in key order.
pub open spec fn sorted_by_key(s: Seq<ColorModel>) -> bool {
    forall|i: int, j: int|
        0 <= i < j < s.len() ==> key_le(color_key(#[trigger] s[i]), color_key(#[trigger] s[j]))
}

/// The colours of `s` whose key is `k`, in their order in `s`.
pub open spec fn with_key(s: Seq<ColorModel>, k: (u8, u32, Seq<char>)) -> Seq<ColorModel> {
    s.filter(|c: ColorModel| color_key(c) == k)
}

/// `out` is `inp` sorted stably by key: in key order, and the colours of each
/// key in the order they had in `inp`.
pub open spec fn stably_sorted(out: Seq<ColorModel>, inp: Seq<ColorModel>) -> bool {
    &&& sorted_by_key(out)
    &&& forall|k: (u8, u32, Seq<char>)| #[trigger] with_key(out, k) == with_key(inp, k)
}

proof fn lemma_filter_none<A>(s: Seq<A>, pred: spec_fn(A) -> bool)
    requires
        forall|i: int| 0 <= i < s.len() ==> !pred(#[trigger] s[i]),
    ensures
        s.filter(pred) == Seq::<A>::empty(),
    decreases s.len(),
{
    reveal(Seq::filter);
    if s.len() > 0 {
        let t = s.drop_last();
        assert forall|i: int| 0 <= i < t.len() implies !pred(#[trigger] t[i]) by {
            assert(t[i] == s[i]);
        }
        lemma_filter_none(t, pred);
    }
}

proof fn lemma_insert_with_key(s: Seq<ColorModel>, x: ColorModel, p: int, k: (u8, u32, Seq<char>))
    requires
        0 <= p <= s.len(),
        forall|j: int| p <= j < s.len() ==> color_key(#[trigger] s[j]) != color_key(x),
    ensures
        with_key(s.insert(p, x), k) == if color_key(x) == k {
            with_key(s, k).push(x)
        } else {
            with_key(s, k)
        },
{
    let pred = |c: ColorModel| color_key(c) == k;
    let a = s.take(p);
    let b = s.skip(p);
    assert(s == a + b);
    assert(s.insert(p, x) == a + seq![x] + b);
    Seq::filter_distributes_over_add(a, b, pred);
    Seq::filter_distributes_over_add(a + seq![x], b, pred);
    Seq::filter_distributes_over_add(a, seq![x], pred);
    Seq::<ColorModel>::empty().lemma_filter_push(x, pred);
    assert(Seq::<ColorModel>::empty().push(x) == seq![x]);
    reveal(Seq::filter);
    assert(Seq::<ColorModel>::empty().filter(pred) == Seq::<ColorModel>::empty());
    if color_key(x) == k {
        assert forall|i: int| 0 <= i < b.len() implies !pred(#[trigger] b[i]) by {
            assert(b[i] == s[p + i]);
        }
        lemma_filter_none(b, pred);
        assert(a.filter(pred) + seq![x] + b.filter(pred) == a.filter(pred).push(x));
    }
}

proof fn lemma_insert_sorted(s: Seq<ColorModel>, x: ColorModel, p: int)
    requires
        sorted_by_key(s),
        0 <= p <= s.len(),
        p == 0 || key_le(color_key(s[p - 1]), color_key(x)),
        forall|j: int| p <= j < s.len() ==> !key_le(color_key(#[trigger] s[j]), color_key(x)),
    ensures
        sorted_by_key(s.insert(p, x)),
{
    let n = s.insert(p, x);
    assert forall|i: int, j: int| 0 <= i < j < n.len() implies key_le(
        color_key(#[trigger] n[i]),
        color_key(#[trigger] n[j]),
    ) by {
        if j < p {
            assert(n[i] == s[i] && n[j] == s[j]);
        } else if j == p {
            assert(n[j] == x);
            assert(n[i] == s[i]);
            if i < p - 1 {
                assert(key_le(color_key(s[i]), color_key(s[p - 1])));
                lemma_key_le_transitive(color_key(s[i]), color_key(s[p - 1]), color_key(x));
            }
        } else if i == p {
            assert(n[i] == x);
            assert(n[j] == s[j - 1]);
            lemma_key_le_total(color_key(s[j - 1]), color_key(x));
        } else if i < p {
            assert(n[i] == s[i] && n[j] == s[j - 1]);
        } else {
            assert(n[i] == s[i - 1] && n[j] == s[j - 1]);
        }
    }
}

/// Whether key `x` comes before key `y` or equals it.
fn key_le_exec(x: &(u8, u32, Vec<char>), y: &(u8, u32, Vec<char>)) -> (r: bool)
    ensures
        r == key_le((x.0, x.1, x.2@), (y.0, y.1, y.2@)),
{
    if x.0 != y.0 {
        x.0 < y.0
    } else if x.1 != y.1 {
        x.1 < y.1
    } else {
        chars_le_exec(x.2.as_slice(), y.2.as_slice())
    }
}

/// The colours sorted stably by the key of their codes (`sort_by` on
/// [`smart_code_key`]).
pub fn sort_colors(v: &Vec<DmcColor>) -> (r: Vec<DmcColor>)
    ensures
        stably_sorted(models(r@), models(v@)),
{
    let mut r: Vec<DmcColor> = Vec::new();
    let mut keys: Vec<(u8, u32, Vec<char>)> = Vec::new();
    let ghost vm = models(v@);
    let mut i: usize = 0;
    assert(vm.take(0) =~= Seq::<ColorModel>::empty());
    assert(models(r@) =~= Seq::<ColorModel>::empty());
    while i < v.len()
        invariant
            i <= v.len(),
            vm == models(v@),
            keys.len() == r.len(),
            forall|j: int| 0 <= j < r.len() ==> (#[trigger] keys@[j].0, keys@[j].1, keys@[j].2@) == color_key(r@[j]@),
            sorted_by_key(models(r@)),
            forall|k: (u8, u32, Seq<char>)| #[trigger] with_key(models(r@), k) == with_key(vm.take(i as int), k),
        decreases v.len() - i,
    {
        let x = v[i].copy();
        let (k0, k1, k2) = smart_code_key(x.code.as_str());
        let key = (k0, k1, chars_of(k2.as_str()));
        assert((key.0, key.1, key.2@) == color_key(x@));
        let ghost rm = models(r@);
        let mut p: usize = r.len();
        while p > 0 && !key_le_exec(&keys[p - 1], &key)
            invariant
                p <= r.len() == keys.len(),
                rm == models(r@),
                forall|j: int| 0 <= j < r.len() ==> (#[trigger] keys@[j].0, keys@[j].1, keys@[j].2@) == color_key(r@[j]@),
                (key.0, key.1, key.2@) == color_key(x@),
                forall|j: int| p <= j < rm.len() ==> !key_le(color_key(#[trigger] rm[j]), color_key(x@)),
            decreases p,
        {
            assert(rm[p - 1] == r@[p - 1]@);
            p = p - 1;
        }
        proof {
            if p > 0 {
                assert(rm[p - 1] == r@[p - 1]@);
            }
            lemma_insert_sorted(rm, x@, p as int);
            assert forall|j: int| p <= j < rm.len() implies color_key(#[trigger] rm[j]) != color_key(x@) by {
                if color_key(rm[j]) == color_key(x@) {
                    lemma_chars_le_refl(color_key(x@).2);
                }
            }
        }
        let ghost xm = x@;
        r.insert(p, x);
        keys.insert(p, key);
        assert(models(r@) =~= rm.insert(p as int, xm));
        assert(vm.take(i + 1) == vm.take(i as int).push(xm));
        assert forall|k: (u8, u32, Seq<char>)| #[trigger] with_key(models(r@), k) == with_key(vm.take(i + 1), k) by {
            lemma_insert_with_key(rm, xm, p as int, k);
            vm.take(i as int).lemma_filter_push(xm, |c: ColorModel| color_key(c) == k);
        }
        i = i + 1;
    }
    assert(vm.take(v.len() as int) == vm);
    r
}

/// The catalogue's lines after its header line.
pub open spec fn catalog_lines(csv: Seq<char>) -> Seq<Seq<char>> {
    let ls = lines(csv);
    if ls.len() == 0 {
        ls
    } else {
        ls.drop_first()
    }
}

/// The colours that the lines describe, in line order: blank lines and lines
/// that describe no colour are skipped.
pub open spec fn colors_of_lines(ls: Seq<Seq<char>>) -> Seq<ColorModel>
    decreases ls.len(),
{
    if ls.len() == 0 {
        seq![]
    } else {
        let prev = colors_of_lines(ls.drop_last());
        let t = trim(ls.last());
        if t.len() == 0 {
            prev
        } else {
            match parse_dmc_line_spec(t) {
                Some(c) => prev.push(c),
                None => prev,
            }
        }
    }
}

/// The catalogue text holds a line on which parsing panics.
pub open spec fn catalog_panics(csv: Seq<char>) -> bool {
    exists|i: int|
        0 <= i < catalog_lines(csv).len() && dmc_line_panics(trim(#[trigger] catalog_lines(csv)[i]))
}

/// The colours of the catalogue CSV text (a header line, then `code,name,hex`
/// lines), sorted stably by code key.
pub fn load_dmc_colors(csv: &str) -> (r: Vec<DmcColor>)
    requires
        !catalog_panics(csv@),
    ensures
        stably_sorted(models(r@), colors_of_lines(catalog_lines(csv@))),
{
    let cs = chars_of(csv);
    let ls = split_lines(cs.as_slice());
    let ghost cl = catalog_lines(csv@);
    let mut colors: Vec<DmcColor> = Vec::new();
    if ls.len() == 0 {
        assert(models(colors@) =~= colors_of_lines(cl));
        return sort_colors(&colors);
    }
    assert(cl == views(ls@).drop_first());
    let mut i: usize = 1;
    assert(cl.take(0) =~= Seq::<Seq<char>>::empty());
    assert(models(colors@) =~= Seq::<ColorModel>::empty());
    while i < ls.len()
        invariant
            1 <= i <= ls.len(),
            cl == views(ls@).drop_first(),
            !catalog_panics(csv@),
            cl == catalog_lines(csv@),
            models(colors@) == colors_of_lines(cl.take(i - 1)),
        decreases ls.len() - i,
    {
        let ghost raw = cl[i - 1];
        assert(ls@[i as int]@ == raw);
        assert(cl.take(i as int).drop_last() == cl.take(i - 1));
        assert(cl.take(i as int).last() == raw);
        let t = trimmed(ls[i].as_slice());
        if t.len() > 0 {
            let line = string_of(t.as_slice());
            assert(!dmc_line_panics(trim(cl[i - 1])));
            match parse_dmc_line(line.as_str()) {
                Some(c) => {
                    let ghost before = models(colors@);
                    colors.push(c);
                    assert(models(colors@) =~= before.push(c@));
                },
                None => {},
            }
        }
        i = i + 1;
    }
    assert(cl.take(ls.len() - 1) == cl);
    sort_colors(&colors)
}

// ---------------------------------------------------------------------------
// Recognising the inputs on which catalogue parsing panics
// ---------------------------------------------------------------------------

fn char_width(c: char) -> (r: u64)
    ensures
        r == utf8_width(c),
        1 <= r <= 4,
{
    let n = c as u32;
    if n < 0x80 {
        1
    } else if n < 0x800 {
        2
    } else if n < 0x10000 {
        3
    } else {
        4
    }
}

proof fn lemma_utf8_len_step(v: Seq<char>, k: int)
    requires
        0 <= k < v.len(),
    ensures
        utf8_len(v.take(k + 1)) == utf8_len(v.take(k)) + utf8_width(v[k]),
{
    assert(v.take(k + 1).drop_last() == v.take(k));
    assert(v.take(k + 1).last() == v[k]);
}

proof fn lemma_utf8_len_grows(v: Seq<char>, a: int, b: int)
    requires
        0 <= a <= b <= v.len(),
    ensures
        utf8_len(v.take(a)) + (b - a) <= utf8_len(v.take(b)),
    decreases b - a,
{
    if a < b {
        lemma_utf8_len_grows(v, a, b - 1);
        lemma_utf8_len_step(v, b - 1);
    }
}

/// Whether byte offset `b` of `v` falls between two characters.
fn boundary_at(v: &[char], b: u64) -> (r: bool)
    requires
        b <= 8,
    ensures
        r == on_boundary(v@, b as nat),
{
    let mut n: u64 = 0;
    let mut k: usize = 0;
    assert(v@.take(0) =~= Seq::<char>::empty());
    while k < v.len() && n < b
        invariant
            k <= v.len(),
            n == utf8_len(v@.take(k as int)),
            b <= 8,
            n <= b + 4,
            forall|j: int| 0 <= j < k ==> utf8_len(#[trigger] v@.take(j)) < b,
        decreases v.len() - k,
    {
        proof {
            lemma_utf8_len_step(v@, k as int);
        }
        n = n + char_width(v[k]);
        k = k + 1;
    }
    if n == b {
        return true;
    }
    proof {
        assert forall|j: int| 0 <= j <= v.len() implies utf8_len(#[trigger] v@.take(j)) != b by {
            if j > k {
                lemma_utf8_len_grows(v@, k as int, j);
            }
        }
    }
    false
}

/// Whether `v` takes exactly six bytes in UTF-8.
fn utf8_len_is_six(v: &[char]) -> (r: bool)
    ensures
        r == (utf8_len(v@) == 6),
{
    let mut n: u64 = 0;
    let mut k: usize = 0;
    assert(v@.take(0) =~= Seq::<char>::empty());
    while k < v.len() && n <= 6
        invariant
            k <= v.len(),
            n == utf8_len(v@.take(k as int)),
            n <= 10,
        decreases v.len() - k,
    {
        proof {
            lemma_utf8_len_step(v@, k as int);
        }
        n = n + char_width(v[k]);
        k = k + 1;
    }
    proof {
        lemma_utf8_len_grows(v@, k as int, v.len() as int);
        assert(v@.take(v.len() as int) == v@);
    }
    k == v.len() && n == 6
}

/// Whether parsing the hex text panics (see [`hex_rgb_panics`]).
pub fn hex_rgb_would_panic(hex: &str) -> (r: bool)
    ensures
        r == hex_rgb_panics(hex@),
{
    let cs = chars_of(hex);
    let t = trimmed(cs.as_slice());
    let v = strip_start_chars(t.as_slice(), '#');
    if !utf8_len_is_six(v.as_slice()) {
        return false;
    }
    if !boundary_at(v.as_slice(), 2) {
        return true;
    }
    if v.len() >= 2 {
        let p0 = sub_vec(v.as_slice(), 0, 2);
        assert(p0@ == v@.take(2));
        if parse_hex_u8(p0.as_slice()).is_some() {
            return !boundary_at(v.as_slice(), 4);
        }
    }
    false
}

/// Whether parsing the catalogue line panics (see [`dmc_line_panics`]).
pub fn dmc_line_would_panic(line: &str) -> (r: bool)
    ensures
        r == dmc_line_panics(line@),
{
    let cs = chars_of(line);
    let ghost l = line@;
    let first = find_from(cs.as_slice(), 0, ',');
    assert(l.skip(0) == l);
    if first >= cs.len() {
        return false;
    }
    let last_end = rfind_end(cs.as_slice(), ',');
    assert(last_end >= first + 1) by {
        lemma_index_of_props(l, ',');
        if last_end < first + 1 {
            lemma_last_index_props(l, ',');
        }
    }
    if last_end == first + 1 {
        return false;
    }
    let head = sub_vec(cs.as_slice(), 0, first);
    let raw = trimmed(head.as_slice());
    let white: [char; 5] = ['W', 'h', 'i', 't', 'e'];
    assert(white@ == white_code());
    if chars_eq_ignore_ascii_case(raw.as_slice(), white.as_slice()) {
        return false;
    }
    let tail = sub_vec(cs.as_slice(), last_end, cs.len());
    assert(tail@ == l.skip(last_index_of(l, ',') + 1));
    let tail_trimmed = trimmed(tail.as_slice());
    let hex_chars = strip_both_chars(tail_trimmed.as_slice(), '"');
    let hex = string_of(hex_chars.as_slice());
    hex_rgb_would_panic(hex.as_str())
}

/// Whether loading the catalogue text panics (see [`catalog_panics`]).
pub fn catalog_would_panic(csv: &str) -> (r: bool)
    ensures
        r == catalog_panics(csv@),
{
    let cs = chars_of(csv);
    let ls = split_lines(cs.as_slice());
    if ls.len() == 0 {
        return false;
    }
    let ghost cl = catalog_lines(csv@);
    assert(cl == views(ls@).drop_first());
    let mut i: usize = 1;
    while i < ls.len()
        invariant
            1 <= i <= ls.len(),
            cl == views(ls@).drop_first(),
            cl == catalog_lines(csv@),
            forall|j: int| 0 <= j < i - 1 ==> !dmc_line_panics(trim(#[trigger] cl[j])),
        decreases ls.len() - i,
    {
        assert(ls@[i as int]@ == cl[i - 1]);
        let t = trimmed(ls[i].as_slice());
        let line = string_of(t.as_slice());
        if dmc_line_would_panic(line.as_str()) {
            assert(dmc_line_panics(trim(cl[i - 1])));
            return true;
        }
        i = i + 1;
    }
    false
}

} // verus!
