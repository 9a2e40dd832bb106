//! Looking colours up by what a user types, and the pattern planner: which
//! colours a pasted list of codes asks for, and which of them to buy.
use vstd::prelude::*;
use crate::text::{
    trim, chars_of, trimmed, string_of, eq_ignore_ascii_case, ascii_fold, chars_eq_ignore_ascii_case,
    strip_start, strip_start_chars, sub_vec, chars_eq,
};
use crate::numbers::{is_digit, all_digits};
use crate::catalog::{canonical, canonical_code, ColorModel, DmcColor, models};
use crate::order::{chars_le, chars_lt, chars_le_exec, lemma_chars_le_total, lemma_chars_le_antisymmetric, lemma_chars_le_transitive, lemma_chars_le_refl};
use crate::app::{FlossKeeperApp, entry_of};
use crate::inventory::{EntryModel, owned, is_owned};
use crate::numbers::{decimal, push_decimal};
use crate::text::{push_str, push_char, all_ws};

verus! {

/// The number that a string of digits writes, as text: without leading
/// zeros, and `"0"` when nothing is left.
pub open spec fn number_text(code: Seq<char>) -> Seq<char> {
    let t = strip_start(code, '0');
    if t.len() == 0 {
        seq!['0']
    } else {
        t
    }
}

/// A colour's code matches a looked-up code: equal ignoring ASCII case once
/// canonical, or, both being all digits, the same number.
pub open spec fn code_matches(color_code: Seq<char>, candidate: Seq<char>) -> bool {
    let cc = canonical(color_code);
    ||| eq_ignore_ascii_case(cc, candidate)
    ||| (all_digits(candidate) && all_digits(cc) && number_text(cc) == number_text(candidate))
}

/// The index of the first colour whose code matches, or `-1`.
pub open spec fn first_match(cm: Seq<ColorModel>, candidate: Seq<char>) -> int
    decreases cm.len(),
{
    if cm.len() == 0 {
        -1
    } else if code_matches(cm[0].code, candidate) {
        0
    } else {
        let r = first_match(cm.drop_first(), candidate);
        if r < 0 {
            -1
        } else {
            r + 1
        }
    }
}

proof fn lemma_first_match(cm: Seq<ColorModel>, candidate: Seq<char>, i: int)
    requires
        0 <= i <= cm.len(),
        forall|j: int| 0 <= j < i ==> !code_matches(#[trigger] cm[j].code, candidate),
        i == cm.len() || code_matches(cm[i].code, candidate),
    ensures
        first_match(cm, candidate) == if i == cm.len() {
            -1
        } else {
            i
        },
    decreases i,
{
    if cm.len() > 0 && i > 0 {
        let t = cm.drop_first();
        assert forall|j: int| 0 <= j < i - 1 implies !code_matches(#[trigger] t[j].code, candidate) by {
            assert(t[j] == cm[j + 1]);
        }
        if i < cm.len() {
            assert(t[i - 1] == cm[i]);
        }
        lemma_first_match(t, candidate, i - 1);
        assert(!code_matches(cm[0].code, candidate));
    }
}

/// The code that a typed code is looked up by: canonical, hence trimmed.
pub open spec fn lookup_candidate(raw: Seq<char>) -> Seq<char> {
    canonical(trim(raw))
}

/// The index of the colour that a typed code finds, or `-1`: none for a
/// blank code, else the first colour whose code matches.
pub open spec fn found_index(cm: Seq<ColorModel>, raw: Seq<char>) -> int {
    let c = lookup_candidate(raw);
    if c.len() == 0 {
        -1
    } else {
        first_match(cm, c)
    }
}

pub proof fn lemma_first_match_range(cm: Seq<ColorModel>, candidate: Seq<char>)
    ensures
        -1 <= first_match(cm, candidate) < cm.len(),
    decreases cm.len(),
{
    if cm.len() > 0 {
        lemma_first_match_range(cm.drop_first(), candidate);
    }
}

proof fn lemma_first_match_at_most(cm: Seq<ColorModel>, candidate: Seq<char>, i: int)
    requires
        0 <= i < cm.len(),
        code_matches(cm[i].code, candidate),
    ensures
        0 <= first_match(cm, candidate) <= i,
    decreases i,
{
    if i > 0 && !code_matches(cm[0].code, candidate) {
        let t = cm.drop_first();
        assert(t[i - 1] == cm[i]);
        lemma_first_match_at_most(t, candidate, i - 1);
    }
}

/// Every colour of the catalogue is found by its own code: looking up a
/// colour's code (when it is not blank) finds that colour, or a colour listed
/// before it whose code matches the same way.
pub proof fn lemma_catalogue_code_found(cm: Seq<ColorModel>, i: int)
    requires
        0 <= i < cm.len(),
        canonical(cm[i].code).len() > 0,
    ensures
        0 <= found_index(cm, cm[i].code) <= i,
{
    let c = cm[i].code;
    crate::text::lemma_trim_idempotent(c);
    assert(lookup_candidate(c) == canonical(c));
    assert(eq_ignore_ascii_case(canonical(c), canonical(c)));
    lemma_first_match_at_most(cm, canonical(c), i);
}

proof fn lemma_code_matches_fold(cc: Seq<char>, a: Seq<char>, b: Seq<char>)
    requires
        eq_ignore_ascii_case(a, b),
    ensures
        code_matches(cc, a) == code_matches(cc, b),
{
    let c = canonical(cc);
    assert(eq_ignore_ascii_case(c, a) == eq_ignore_ascii_case(c, b));
    if all_digits(a) || all_digits(b) {
        assert forall|i: int| 0 <= i < a.len() implies a[i] == b[i] by {
            let x = a[i];
            let y = b[i];
            vstd::utf8::char_u32_cast(x, x as u32);
            vstd::utf8::char_u32_cast(y, y as u32);
            assert(ascii_fold(x) == ascii_fold(y));
            if all_digits(a) {
                assert(is_digit(x));
                assert(ascii_fold(x) == x as u32);
                if 'A' <= y && y <= 'Z' {
                    assert(ascii_fold(y) >= 97);
                } else {
                    assert(ascii_fold(y) == y as u32);
                }
            } else {
                assert(is_digit(y));
                assert(ascii_fold(y) == y as u32);
                if 'A' <= x && x <= 'Z' {
                    assert(ascii_fold(x) >= 97);
                } else {
                    assert(ascii_fold(x) == x as u32);
                }
            }
        }
        assert(a =~= b);
    }
}

proof fn lemma_first_match_fold(cm: Seq<ColorModel>, a: Seq<char>, b: Seq<char>)
    requires
        eq_ignore_ascii_case(a, b),
    ensures
        first_match(cm, a) == first_match(cm, b),
    decreases cm.len(),
{
    if cm.len() > 0 {
        lemma_code_matches_fold(cm[0].code, a, b);
        lemma_first_match_fold(cm.drop_first(), a, b);
    }
}

/// A typed code finds the same colour whatever blanks surround it and
/// whatever ASCII case its letters are in: two codes that are equal ignoring
/// ASCII case once trimmed find the same colour (or both none).
pub proof fn lemma_found_index_ignores_case_and_blanks(cm: Seq<ColorModel>, s1: Seq<char>, s2: Seq<char>)
    requires
        eq_ignore_ascii_case(trim(s1), trim(s2)),
    ensures
        found_index(cm, s1) == found_index(cm, s2),
{
    let t1 = trim(s1);
    let t2 = trim(s2);
    crate::text::lemma_trim_idempotent(s1);
    crate::text::lemma_trim_idempotent(s2);
    let w = crate::catalog::white_code();
    assert(eq_ignore_ascii_case(t1, w) == eq_ignore_ascii_case(t2, w)) by {
        if eq_ignore_ascii_case(t1, w) {
            assert forall|i: int| 0 <= i < t2.len() implies ascii_fold(#[trigger] t2[i]) == ascii_fold(w[i]) by {
                assert(ascii_fold(t1[i]) == ascii_fold(t2[i]));
            }
        }
        if eq_ignore_ascii_case(t2, w) {
            assert forall|i: int| 0 <= i < t1.len() implies ascii_fold(#[trigger] t1[i]) == ascii_fold(w[i]) by {
                assert(ascii_fold(t1[i]) == ascii_fold(t2[i]));
            }
        }
    }
    let c1 = lookup_candidate(s1);
    let c2 = lookup_candidate(s2);
    assert(eq_ignore_ascii_case(c1, c2));
    lemma_first_match_fold(cm, c1, c2);
}

fn number_chars(code: &[char]) -> (r: Vec<char>)
    ensures
        r@ == number_text(code@),
{
    let t = strip_start_chars(code, '0');
    if t.len() == 0 {
        let mut z: Vec<char> = Vec::new();
        z.push('0');
        assert(z@ =~= seq!['0']);
        z
    } else {
        t
    }
}

fn chars_all_digits(s: &[char]) -> (r: bool)
    ensures
        r == all_digits(s@),
{
    let mut i: usize = 0;
    while i < s.len()
        invariant
            i <= s.len(),
            forall|k: int| 0 <= k < i ==> is_digit(#[trigger] s@[k]),
        decreases s.len() - i,
    {
        if !('0' <= s[i] && s[i] <= '9') {
            assert(!is_digit(s@[i as int]));
            return false;
        }
        i = i + 1;
    }
    true
}

impl FlossKeeperApp {
    /// The index of the colour that a typed code finds (see [`found_index`]).
    pub fn find_color_index(&self, raw_code: &str) -> (r: Option<usize>)
        ensures
            r matches Some(i) ==> i == found_index(models(self.colors@), raw_code@) && i < self.colors.len(),
            r is None ==> found_index(models(self.colors@), raw_code@) == -1,
    {
        let raw = chars_of(raw_code);
        let t = trimmed(raw.as_slice());
        let t_str = string_of(t.as_slice());
        let candidate_str = canonical_code(t_str.as_str());
        let candidate = chars_of(candidate_str.as_str());
        if candidate.len() == 0 {
            return None;
        }
        let numeric = chars_all_digits(candidate.as_slice());
        let candidate_number = number_chars(candidate.as_slice());
        let ghost cm = models(self.colors@);
        let mut i: usize = 0;
        while i < self.colors.len()
            invariant
                i <= self.colors.len(),
                cm == models(self.colors@),
                candidate@ == lookup_candidate(raw_code@),
                candidate@.len() > 0,
                numeric == all_digits(candidate@),
                candidate_number@ == number_text(candidate@),
                forall|j: int| 0 <= j < i ==> !code_matches(#[trigger] cm[j].code, candidate@),
            decreases self.colors.len() - i,
        {
            assert(cm[i as int] == self.colors@[i as int]@);
            let cc_str = canonical_code(self.colors[i].code.as_str());
            let cc = chars_of(cc_str.as_str());
            let mut hit = chars_eq_ignore_ascii_case(cc.as_slice(), candidate.as_slice());
            if !hit && numeric {
                if chars_all_digits(cc.as_slice()) {
                    let color_number = number_chars(cc.as_slice());
                    hit = chars_eq(color_number.as_slice(), candidate_number.as_slice());
                }
            }
            assert(hit == code_matches(cm[i as int].code, candidate@));
            if hit {
                proof {
                    lemma_first_match(cm, candidate@, i as int);
                }
                return Some(i);
            }
            i = i + 1;
        }
        proof {
            lemma_first_match(cm, candidate@, i as int);
        }
        None
    }

    /// The colour that a typed code finds: none for a blank code, else the
    /// first colour whose canonical code equals it ignoring ASCII case or,
    /// both being all digits, writes the same number.
    pub fn find_color_by_code(&self, raw_code: &str) -> (r: Option<&DmcColor>)
        ensures
            r matches Some(c) ==> found_index(models(self.colors@), raw_code@) >= 0 && c@ == models(
                self.colors@,
            )[found_index(models(self.colors@), raw_code@)],
            r is None ==> found_index(models(self.colors@), raw_code@) == -1,
    {
        match self.find_color_index(raw_code) {
            Some(i) => Some(&self.colors[i]),
            None => None,
        }
    }
}

// ---------------------------------------------------------------------------
// The pattern planner's codes
// ---------------------------------------------------------------------------

/// An ASCII letter or digit.
pub open spec fn is_ascii_alnum(c: char) -> bool {
    ('0' <= c && c <= '9') || ('a' <= c && c <= 'z') || ('A' <= c && c <= 'Z')
}

/// The index of the first character of `s` that is not an ASCII letter or
/// digit, or `s.len()`.
pub open spec fn sep_index(s: Seq<char>) -> nat
    decreases s.len(),
{
    if s.len() == 0 || !is_ascii_alnum(s[0]) {
        0
    } else {
        1 + sep_index(s.drop_first())
    }
}

/// The pieces of `s` between characters that are not ASCII letters or
/// digits (`str::split` with that predicate); some may be empty.
pub open spec fn tokens(s: Seq<char>) -> Seq<Seq<char>>
    decreases s.len(),
{
    let k = sep_index(s);
    if k >= s.len() {
        seq![s]
    } else {
        seq![s.take(k as int)] + tokens(s.skip(k + 1int))
    }
}

proof fn lemma_sep_index(s: Seq<char>, k: int)
    requires
        0 <= k <= s.len(),
        forall|i: int| 0 <= i < k ==> is_ascii_alnum(#[trigger] s[i]),
        k == s.len() || !is_ascii_alnum(s[k]),
    ensures
        sep_index(s) == k,
    decreases k,
{
    if k > 0 {
        let t = s.drop_first();
        assert forall|i: int| 0 <= i < k - 1 implies is_ascii_alnum(#[trigger] t[i]) by {
            assert(t[i] == s[i + 1]);
        }
        if k < s.len() {
            assert(t[k - 1] == s[k]);
        }
        lemma_sep_index(t, k - 1);
    }
}

fn char_is_ascii_alnum(c: char) -> (r: bool)
    ensures
        r == is_ascii_alnum(c),
{
    ('0' <= c && c <= '9') || ('a' <= c && c <= 'z') || ('A' <= c && c <= 'Z')
}

/// The character sequences held by a vector of character vectors.
pub open spec fn char_views(v: Seq<Vec<char>>) -> Seq<Seq<char>> {
    v.map_values(|x: Vec<char>| x@)
}

/// The pieces of `s` between characters that are not ASCII letters or digits.
pub fn split_tokens(s: &[char]) -> (r: Vec<Vec<char>>)
    ensures
        char_views(r@) == tokens(s@),
{
    let mut r: Vec<Vec<char>> = Vec::new();
    let mut p: usize = 0;
    assert(s@.skip(0) == s@);
    assert(char_views(r@) =~= Seq::<Seq<char>>::empty());
    loop
        invariant
            p <= s.len(),
            char_views(r@) + tokens(s@.skip(p as int)) == tokens(s@),
        decreases s.len() - p,
    {
        let ghost t = s@.skip(p as int);
        let ghost before = char_views(r@);
        let mut k: usize = p;
        while k < s.len() && char_is_ascii_alnum(s[k])
            invariant
                p <= k <= s.len(),
                forall|i: int| p <= i < k ==> is_ascii_alnum(#[trigger] s@[i]),
            decreases s.len() - k,
        {
            k = k + 1;
        }
        proof {
            assert forall|i: int| 0 <= i < k - p implies is_ascii_alnum(#[trigger] t[i]) by {
                assert(t[i] == s@[i + p]);
            }
            if k < s.len() {
                assert(t[k - p] == s@[k as int]);
            }
            lemma_sep_index(t, k - p);
        }
        let piece = sub_vec(s, p, k);
        assert(char_views(r@.push(piece)) =~= before.push(piece@));
        if k >= s.len() {
            assert(piece@ == t);
            r.push(piece);
            assert(before.push(t) =~= before + seq![t]);
            return r;
        } else {
            assert(t.take(k - p) == s@.subrange(p as int, k as int));
            assert(t.skip(k - p + 1) == s@.skip(k + 1));
            r.push(piece);
            assert(before.push(piece@) + tokens(s@.skip(k + 1)) =~= before + tokens(t));
            p = k + 1;
        }
    }
}

/// The code of the colour that a token finds, if it finds one.
pub open spec fn token_code(cm: Seq<ColorModel>, token: Seq<char>) -> Option<Seq<char>> {
    let t = trim(token);
    if t.len() == 0 {
        None
    } else {
        let i = found_index(cm, t);
        if i < 0 {
            None
        } else {
            Some(cm[i].code)
        }
    }
}

/// The codes of the colours that the tokens of a pattern's colour list find.
pub open spec fn pattern_code_set(cm: Seq<ColorModel>, input: Seq<char>) -> Set<Seq<char>> {
    Set::new(
        |code: Seq<char>|
            exists|i: int|
                0 <= i < tokens(input).len() && token_code(cm, #[trigger] tokens(input)[i]) == Some(code),
    )
}

/// Each string comes strictly before the next.
pub open spec fn strictly_sorted(s: Seq<Seq<char>>) -> bool {
    forall|i: int, j: int| 0 <= i < j < s.len() ==> chars_lt(#[trigger] s[i], #[trigger] s[j])
}

/// `codes` lists the codes that a pattern's colour list asks for: each once,
/// in string order (what collecting them in a `BTreeSet` gives).
pub open spec fn is_pattern_codes(cm: Seq<ColorModel>, input: Seq<char>, codes: Seq<Seq<char>>) -> bool {
    strictly_sorted(codes) && codes.to_set() == pattern_code_set(cm, input)
}

/// The strings held by a vector of strings.
pub open spec fn string_views(v: Seq<String>) -> Seq<Seq<char>> {
    v.map_values(|x: String| x@)
}

proof fn lemma_lt_transitive(a: Seq<char>, b: Seq<char>, c: Seq<char>)
    requires
        chars_le(a, b),
        chars_lt(b, c),
    ensures
        chars_lt(a, c),
{
    lemma_chars_le_transitive(a, b, c);
    if a == c {
        lemma_chars_le_antisymmetric(b, c);
    }
}

/// Two strictly sorted sequences with the same strings are the same.
pub proof fn lemma_strictly_sorted_unique(a: Seq<Seq<char>>, b: Seq<Seq<char>>)
    requires
        strictly_sorted(a),
        strictly_sorted(b),
        a.to_set() == b.to_set(),
    ensures
        a == b,
    decreases a.len(),
{
    if a.len() == 0 {
        if b.len() > 0 {
            assert(b.to_set().contains(b[0]));
        }
        assert(a =~= b);
    } else {
        assert(a.to_set().contains(a[0]));
        assert(b.len() > 0);
        assert(b.to_set().contains(b[0]));
        let k = choose|k: int| 0 <= k < b.len() && b[k] == a[0];
        let m = choose|m: int| 0 <= m < a.len() && a[m] == b[0];
        if k > 0 {
            assert(chars_lt(b[0], b[k]));
            if m > 0 {
                assert(chars_lt(a[0], a[m]));
                lemma_chars_le_antisymmetric(a[0], b[0]);
            }
        }
        assert(a[0] == b[0]);
        let a2 = a.drop_first();
        let b2 = b.drop_first();
        assert forall|i: int, j: int| 0 <= i < j < a2.len() implies chars_lt(#[trigger] a2[i], #[trigger] a2[j]) by {
            assert(a2[i] == a[i + 1] && a2[j] == a[j + 1]);
        }
        assert forall|i: int, j: int| 0 <= i < j < b2.len() implies chars_lt(#[trigger] b2[i], #[trigger] b2[j]) by {
            assert(b2[i] == b[i + 1] && b2[j] == b[j + 1]);
        }
        assert(a2.to_set() =~= b2.to_set()) by {
            assert forall|x: Seq<char>| a2.to_set().contains(x) implies b2.to_set().contains(x) by {
                let i = choose|i: int| 0 <= i < a2.len() && a2[i] == x;
                assert(a.to_set().contains(x)) by {
                    assert(a[i + 1] == x);
                }
                let j = choose|j: int| 0 <= j < b.len() && b[j] == x;
                if j == 0 {
                    assert(chars_lt(a[0], a[i + 1]));
                }
                assert(b2[j - 1] == x);
            }
            assert forall|x: Seq<char>| b2.to_set().contains(x) implies a2.to_set().contains(x) by {
                let i = choose|i: int| 0 <= i < b2.len() && b2[i] == x;
                assert(b.to_set().contains(x)) by {
                    assert(b[i + 1] == x);
                }
                let j = choose|j: int| 0 <= j < a.len() && a[j] == x;
                if j == 0 {
                    assert(chars_lt(b[0], b[i + 1]));
                }
                assert(a2[j - 1] == x);
            }
        }
        lemma_strictly_sorted_unique(a2, b2);
        assert(a =~= seq![a[0]] + a2);
        assert(b =~= seq![b[0]] + b2);
    }
}

/// Adds `code` to a strictly sorted list of strings, keeping it strictly sorted.
fn insert_sorted(v: &mut Vec<String>, code: String)
    requires
        strictly_sorted(string_views(old(v)@)),
    ensures
        strictly_sorted(string_views(final(v)@)),
        string_views(final(v)@).to_set() == string_views(old(v)@).to_set().insert(code@),
{
    let ghost sv = string_views(v@);
    let cs = chars_of(code.as_str());
    let mut p: usize = 0;
    while p < v.len() && !chars_le_exec(cs.as_slice(), chars_of(v[p].as_str()).as_slice())
        invariant
            p <= v.len(),
            sv == string_views(v@),
            cs@ == code@,
            strictly_sorted(sv),
            forall|j: int| 0 <= j < p ==> chars_lt(#[trigger] sv[j], code@),
        decreases v.len() - p,
    {
        proof {
            lemma_chars_le_total(code@, sv[p as int]);
            if sv[p as int] == code@ {
                lemma_chars_le_refl(code@);
            }
        }
        p = p + 1;
    }
    if p < v.len() && v[p] == code {
        assert(sv[p as int] == code@);
        assert(sv.to_set().insert(code@) =~= sv.to_set()) by {
            assert(sv.to_set().contains(code@));
        }
        return;
    }
    proof {
        if p < v.len() {
            assert(chars_le(code@, sv[p as int]));
            assert(sv[p as int] != code@);
        }
    }
    v.insert(p, code);
    let ghost nv = string_views(v@);
    assert(nv =~= sv.insert(p as int, cs@));
    assert forall|i: int, j: int| 0 <= i < j < nv.len() implies chars_lt(#[trigger] nv[i], #[trigger] nv[j]) by {
        if j < p {
            assert(nv[i] == sv[i] && nv[j] == sv[j]);
        } else if j == p {
            assert(nv[i] == sv[i]);
        } else if i == p {
            assert(nv[j] == sv[j - 1]);
            if j - 1 > p {
                assert(chars_lt(sv[p as int], sv[j - 1]));
                lemma_lt_transitive(code@, sv[p as int], sv[j - 1]);
            }
        } else if i < p {
            assert(nv[i] == sv[i] && nv[j] == sv[j - 1]);
        } else {
            assert(nv[i] == sv[i - 1] && nv[j] == sv[j - 1]);
        }
    }
    assert(nv.to_set() =~= sv.to_set().insert(code@)) by {
        assert forall|x: Seq<char>| nv.to_set().contains(x) implies sv.to_set().insert(code@).contains(x) by {
            let i = choose|i: int| 0 <= i < nv.len() && nv[i] == x;
            if i < p {
                assert(sv[i] == x);
            } else if i > p {
                assert(sv[i - 1] == x);
            }
        }
        assert forall|x: Seq<char>| sv.to_set().insert(code@).contains(x) implies nv.to_set().contains(x) by {
            if x == code@ {
                assert(nv[p as int] == x);
            } else {
                let i = choose|i: int| 0 <= i < sv.len() && sv[i] == x;
                if i < p {
                    assert(nv[i] == x);
                } else {
                    assert(nv[i + 1] == x);
                }
            }
        }
    }
}

impl FlossKeeperApp {
    /// The codes of the colours that the pattern planner's input asks for:
    /// each once, in string order.
    pub fn pattern_required_codes(&self) -> (r: Vec<String>)
        ensures
            is_pattern_codes(models(self.colors@), self.pattern_input@, string_views(r@)),
            string_views(r@) == pattern_codes(models(self.colors@), self.pattern_input@),
    {
        let input = chars_of(self.pattern_input.as_str());
        let toks = split_tokens(input.as_slice());
        let ghost tv = char_views(toks@);
        let ghost cm = models(self.colors@);
        let mut found: Vec<String> = Vec::new();
        let mut i: usize = 0;
        assert(string_views(found@).to_set() =~= Set::<Seq<char>>::empty());
        while i < toks.len()
            invariant
                i <= toks.len(),
                tv == char_views(toks@),
                tv == tokens(self.pattern_input@),
                cm == models(self.colors@),
                strictly_sorted(string_views(found@)),
                string_views(found@).to_set() == Set::new(
                    |code: Seq<char>| exists|j: int| 0 <= j < i && token_code(cm, #[trigger] tv[j]) == Some(code),
                ),
            decreases toks.len() - i,
        {
            let ghost before = string_views(found@).to_set();
            let token = trimmed(toks[i].as_slice());
            assert(toks@[i as int]@ == tv[i as int]);
            if token.len() > 0 {
                let token_str = string_of(token.as_slice());
                match self.find_color_index(token_str.as_str()) {
                    Some(k) => {
                        proof {
                            lemma_first_match_range(cm, lookup_candidate(token@));
                        }
                        let code = self.colors[k].code.clone();
                        assert(token_code(cm, tv[i as int]) == Some(code@));
                        insert_sorted(&mut found, code);
                    },
                    None => {
                        assert(token_code(cm, tv[i as int]) is None);
                    },
                }
            } else {
                assert(token_code(cm, tv[i as int]) is None);
            }
            assert(string_views(found@).to_set() =~= Set::new(
                |code: Seq<char>| exists|j: int| 0 <= j < i + 1 && token_code(cm, #[trigger] tv[j]) == Some(code),
            )) by {
                let now = Set::new(
                    |code: Seq<char>| exists|j: int| 0 <= j < i + 1 && token_code(cm, #[trigger] tv[j]) == Some(code),
                );
                assert forall|x: Seq<char>| now.contains(x) implies string_views(found@).to_set().contains(x) by {
                    let j = choose|j: int| 0 <= j < i + 1 && token_code(cm, #[trigger] tv[j]) == Some(x);
                    if j < i {
                        assert(before.contains(x));
                    }
                }
                assert forall|x: Seq<char>| string_views(found@).to_set().contains(x) implies now.contains(x) by {
                    if before.contains(x) {
                        let j = choose|j: int| 0 <= j < i && token_code(cm, #[trigger] tv[j]) == Some(x);
                        assert(0 <= j < i + 1 && token_code(cm, tv[j]) == Some(x));
                    } else {
                        assert(token_code(cm, tv[i as int]) == Some(x));
                    }
                }
            }
            i = i + 1;
        }
        assert(string_views(found@).to_set() =~= pattern_code_set(cm, self.pattern_input@));
        proof {
            lemma_pattern_codes(cm, self.pattern_input@, string_views(found@));
        }
        found
    }
}

/// The codes that a pattern's colour list asks for, each once, in string order.
pub open spec fn pattern_codes(cm: Seq<ColorModel>, input: Seq<char>) -> Seq<Seq<char>> {
    choose|codes: Seq<Seq<char>>| is_pattern_codes(cm, input, codes)
}

/// The one list of codes that satisfies [`is_pattern_codes`] is [`pattern_codes`].
pub proof fn lemma_pattern_codes(cm: Seq<ColorModel>, input: Seq<char>, codes: Seq<Seq<char>>)
    requires
        is_pattern_codes(cm, input, codes),
    ensures
        pattern_codes(cm, input) == codes,
{
    let c = pattern_codes(cm, input);
    assert(is_pattern_codes(cm, input, c));
    lemma_strictly_sorted_unique(c, codes);
}

/// The colour that a required code finds.
pub open spec fn req_color(cm: Seq<ColorModel>, code: Seq<char>) -> Option<ColorModel> {
    let i = found_index(cm, code);
    if i < 0 {
        None
    } else {
        Some(cm[i])
    }
}

/// How many required codes find a colour that is owned (`want_owned`) or not owned.
pub open spec fn count_req(cm: Seq<ColorModel>, inv: Seq<(Seq<char>, EntryModel)>, req: Seq<Seq<char>>, want_owned: bool) -> nat
    decreases req.len(),
{
    if req.len() == 0 {
        0
    } else {
        count_req(cm, inv, req.drop_last(), want_owned) + match req_color(cm, req.last()) {
            Some(c) => if owned(entry_of(inv, c.code)) == want_owned {
                1nat
            } else {
                0nat
            },
            None => 0nat,
        }
    }
}

/// `DMC code - name` for each required colour not owned.
pub open spec fn need_lines(cm: Seq<ColorModel>, inv: Seq<(Seq<char>, EntryModel)>, req: Seq<Seq<char>>) -> Seq<char>
    decreases req.len(),
{
    if req.len() == 0 {
        seq![]
    } else {
        need_lines(cm, inv, req.drop_last()) + match req_color(cm, req.last()) {
            Some(c) => if !owned(entry_of(inv, c.code)) {
                "DMC "@ + c.code + " - "@ + c.name + seq!['\n']
            } else {
                Seq::<char>::empty()
            },
            None => Seq::<char>::empty(),
        }
    }
}

/// The full-detail line of a required colour.
pub open spec fn detail_line(c: ColorModel, e: EntryModel) -> Seq<char> {
    let status = if owned(e) {
        "OWNED"@
    } else {
        "MISSING"@
    };
    "DMC "@ + c.code + " - "@ + c.name + " | "@ + status + " | bobbins: "@ + decimal(e.bobbins as nat)
        + " | skeins: "@ + decimal(e.skeins as nat) + seq!['\n']
}

/// The full-detail lines of the required colours.
pub open spec fn detail_lines(cm: Seq<ColorModel>, inv: Seq<(Seq<char>, EntryModel)>, req: Seq<Seq<char>>) -> Seq<char>
    decreases req.len(),
{
    if req.len() == 0 {
        seq![]
    } else {
        detail_lines(cm, inv, req.drop_last()) + match req_color(cm, req.last()) {
            Some(c) => detail_line(c, entry_of(inv, c.code)),
            None => Seq::<char>::empty(),
        }
    }
}

/// The pattern planner report for the required codes.
pub open spec fn planner_report(cm: Seq<ColorModel>, inv: Seq<(Seq<char>, EntryModel)>, req: Seq<Seq<char>>) -> Seq<char> {
    let head = "FlossKeeper Pattern Planner Report\n"@ + "==================================\n\n"@
        + "Required colors: "@ + decimal(req.len()) + seq!['\n'] + "Owned colors: "@ + decimal(
        count_req(cm, inv, req, true),
    ) + seq!['\n'] + "Need to buy: "@ + decimal(count_req(cm, inv, req, false)) + seq!['\n', '\n'];
    if req.len() == 0 {
        head + "No recognized DMC colors were entered.\n"@
    } else {
        let need = need_lines(cm, inv, req);
        let nothing = if need.len() == 0 {
            "Nothing. You own every required color.\n"@
        } else {
            Seq::<char>::empty()
        };
        head + "Need to Buy\n"@ + "-----------\n"@ + need + nothing + "\nFull Detail\n"@ + "-----------\n"@
            + detail_lines(cm, inv, req)
    }
}

/// The need-to-buy list copied by the pattern planner.
pub open spec fn need_to_buy_text(cm: Seq<ColorModel>, inv: Seq<(Seq<char>, EntryModel)>, req: Seq<Seq<char>>) -> Seq<char> {
    let need = need_lines(cm, inv, req);
    if all_ws(need) {
        "Nothing to buy. You own every required color."@
    } else {
        need
    }
}

proof fn lemma_count_req_le(cm: Seq<ColorModel>, inv: Seq<(Seq<char>, EntryModel)>, req: Seq<Seq<char>>, w: bool)
    ensures
        count_req(cm, inv, req, w) <= req.len(),
    decreases req.len(),
{
    if req.len() > 0 {
        lemma_count_req_le(cm, inv, req.drop_last(), w);
    }
}

proof fn lemma_count_req_all_found(cm: Seq<ColorModel>, inv: Seq<(Seq<char>, EntryModel)>, req: Seq<Seq<char>>)
    requires
        forall|k: int| 0 <= k < req.len() ==> found_index(cm, #[trigger] req[k]) >= 0,
    ensures
        count_req(cm, inv, req, true) + count_req(cm, inv, req, false) == req.len(),
    decreases req.len(),
{
    if req.len() > 0 {
        let p = req.drop_last();
        assert forall|k: int| 0 <= k < p.len() implies found_index(cm, #[trigger] p[k]) >= 0 by {
            assert(p[k] == req[k]);
        }
        lemma_count_req_all_found(cm, inv, p);
        assert(found_index(cm, req[req.len() - 1]) >= 0);
    }
}

/// Every code that the pattern planner lists is a catalogue colour's code, so
/// the owned colours and the colours to buy add up to the required colours,
/// when no catalogue code is blank.
pub proof fn lemma_planner_counts_add_up(
    cm: Seq<ColorModel>,
    inv: Seq<(Seq<char>, EntryModel)>,
    input: Seq<char>,
    codes: Seq<Seq<char>>,
)
    requires
        is_pattern_codes(cm, input, codes),
        forall|j: int| 0 <= j < cm.len() ==> canonical(#[trigger] cm[j].code).len() > 0,
    ensures
        pattern_codes(cm, input) == codes,
        count_req(cm, inv, codes, true) + count_req(cm, inv, codes, false) == codes.len(),
{
    lemma_pattern_codes(cm, input, codes);
    assert forall|k: int| 0 <= k < codes.len() implies found_index(cm, #[trigger] codes[k]) >= 0 by {
        assert(codes.to_set().contains(codes[k]));
        assert(pattern_code_set(cm, input).contains(codes[k]));
        let i = choose|i: int|
            0 <= i < tokens(input).len() && token_code(cm, #[trigger] tokens(input)[i]) == Some(codes[k]);
        let t = trim(tokens(input)[i]);
        lemma_first_match_range(cm, lookup_candidate(t));
        let j = found_index(cm, t);
        assert(0 <= j < cm.len());
        assert(codes[k] == cm[j].code);
        lemma_catalogue_code_found(cm, j);
    }
    lemma_count_req_all_found(cm, inv, codes);
}

impl FlossKeeperApp {
    fn required_color(&self, code: &String) -> (r: Option<&DmcColor>)
        ensures
            r matches Some(c) ==> req_color(models(self.colors@), code@) == Some(c@),
            r is None ==> req_color(models(self.colors@), code@) is None,
    {
        let r = self.find_color_by_code(code.as_str());
        proof {
            lemma_first_match_range(models(self.colors@), lookup_candidate(code@));
        }
        r
    }

    /// How many of the given codes find an owned colour, and how many a
    /// colour not owned (the planner's "Owned colors" and "Need to buy").
    pub fn count_required(&self, codes: &Vec<String>) -> (r: (usize, usize))
        ensures
            r.0 == count_req(models(self.colors@), self.inventory@, string_views(codes@), true),
            r.1 == count_req(models(self.colors@), self.inventory@, string_views(codes@), false),
    {
        let ghost cm = models(self.colors@);
        let ghost req = string_views(codes@);
        let mut owned_count: usize = 0;
        let mut missing_count: usize = 0;
        let mut i: usize = 0;
        assert(req.take(0) =~= Seq::<Seq<char>>::empty());
        while i < codes.len()
            invariant
                i <= codes.len(),
                cm == models(self.colors@),
                req == string_views(codes@),
                owned_count <= i,
                missing_count <= i,
                owned_count == count_req(cm, self.inventory@, req.take(i as int), true),
                missing_count == count_req(cm, self.inventory@, req.take(i as int), false),
            decreases codes.len() - i,
        {
            assert(req.take(i + 1).drop_last() == req.take(i as int));
            assert(req.take(i + 1).last() == codes@[i as int]@);
            proof {
                lemma_count_req_le(cm, self.inventory@, req.take(i as int), true);
                lemma_count_req_le(cm, self.inventory@, req.take(i as int), false);
            }
            match self.required_color(&codes[i]) {
                Some(color) => {
                    let entry = self.entry_for(color.code.as_str());
                    if is_owned(&entry) {
                        owned_count = owned_count + 1;
                    } else {
                        missing_count = missing_count + 1;
                    }
                },
                None => {},
            }
            i = i + 1;
        }
        assert(req.take(codes.len() as int) == req);
        (owned_count, missing_count)
    }

    /// Appends the need-to-buy lines of the required codes.
    fn push_need_lines(&self, codes: &Vec<String>, out: &mut String)
        ensures
            final(out)@ == old(out)@ + need_lines(models(self.colors@), self.inventory@, string_views(codes@)),
    {
        let ghost cm = models(self.colors@);
        let ghost req = string_views(codes@);
        let ghost start = out@;
        let mut i: usize = 0;
        assert(req.take(0) =~= Seq::<Seq<char>>::empty());
        while i < codes.len()
            invariant
                i <= codes.len(),
                cm == models(self.colors@),
                req == string_views(codes@),
                out@ == start + need_lines(cm, self.inventory@, req.take(i as int)),
            decreases codes.len() - i,
        {
            assert(req.take(i + 1).drop_last() == req.take(i as int));
            assert(req.take(i + 1).last() == codes@[i as int]@);
            let ghost before = out@;
            match self.required_color(&codes[i]) {
                Some(color) => {
                    let entry = self.entry_for(color.code.as_str());
                    if !is_owned(&entry) {
                        push_str(out, "DMC ");
                        push_str(out, color.code.as_str());
                        push_str(out, " - ");
                        push_str(out, color.name.as_str());
                        push_char(out, '\n');
                        assert(out@ =~= before + ("DMC "@ + color.code@ + " - "@ + color.name@ + seq!['\n']));
                    } else {
                        assert(out@ =~= before + Seq::<char>::empty());
                    }
                },
                None => {
                    assert(out@ =~= before + Seq::<char>::empty());
                },
            }
            i = i + 1;
        }
        assert(req.take(codes.len() as int) == req);
    }

    /// Appends the full-detail lines of the required codes.
    fn push_detail_lines(&self, codes: &Vec<String>, out: &mut String)
        ensures
            final(out)@ == old(out)@ + detail_lines(models(self.colors@), self.inventory@, string_views(codes@)),
    {
        let ghost cm = models(self.colors@);
        let ghost req = string_views(codes@);
        let ghost start = out@;
        let mut i: usize = 0;
        assert(req.take(0) =~= Seq::<Seq<char>>::empty());
        while i < codes.len()
            invariant
                i <= codes.len(),
                cm == models(self.colors@),
                req == string_views(codes@),
                out@ == start + detail_lines(cm, self.inventory@, req.take(i as int)),
            decreases codes.len() - i,
        {
            assert(req.take(i + 1).drop_last() == req.take(i as int));
            assert(req.take(i + 1).last() == codes@[i as int]@);
            let ghost before = out@;
            match self.required_color(&codes[i]) {
                Some(color) => {
                    let entry = self.entry_for(color.code.as_str());
                    let mut line = String::new();
                    push_str(&mut line, "DMC ");
                    push_str(&mut line, color.code.as_str());
                    push_str(&mut line, " - ");
                    push_str(&mut line, color.name.as_str());
                    push_str(&mut line, " | ");
                    if is_owned(&entry) {
                        push_str(&mut line, "OWNED");
                    } else {
                        push_str(&mut line, "MISSING");
                    }
                    push_str(&mut line, " | bobbins: ");
                    push_decimal(&mut line, entry.bobbins as u64);
                    push_str(&mut line, " | skeins: ");
                    push_decimal(&mut line, entry.skeins as u64);
                    push_char(&mut line, '\n');
                    assert(line@ =~= detail_line(color@, entry@));
                    push_str(out, line.as_str());
                },
                None => {
                    assert(out@ =~= before + Seq::<char>::empty());
                },
            }
            i = i + 1;
        }
        assert(req.take(codes.len() as int) == req);
    }

    /// The pattern planner report for the current input.
    pub fn pattern_planner_report(&self) -> (r: String)
        ensures
            r@ == planner_report(
                models(self.colors@),
                self.inventory@,
                pattern_codes(models(self.colors@), self.pattern_input@),
            ),
    {
        let codes = self.pattern_required_codes();
        let (owned_count, missing_count) = self.count_required(&codes);
        let mut out = String::new();
        push_str(&mut out, "FlossKeeper Pattern Planner Report\n");
        push_str(&mut out, "==================================\n\n");
        push_str(&mut out, "Required colors: ");
        push_decimal(&mut out, codes.len() as u64);
        push_char(&mut out, '\n');
        push_str(&mut out, "Owned colors: ");
        push_decimal(&mut out, owned_count as u64);
        push_char(&mut out, '\n');
        push_str(&mut out, "Need to buy: ");
        push_decimal(&mut out, missing_count as u64);
        push_char(&mut out, '\n');
        push_char(&mut out, '\n');
        if codes.len() == 0 {
            push_str(&mut out, "No recognized DMC colors were entered.\n");
            return out;
        }
        push_str(&mut out, "Need to Buy\n");
        push_str(&mut out, "-----------\n");
        let mut need = String::new();
        self.push_need_lines(&codes, &mut need);
        push_str(&mut out, need.as_str());
        let need_chars = chars_of(need.as_str());
        if need_chars.len() == 0 {
            push_str(&mut out, "Nothing. You own every required color.\n");
        }
        push_str(&mut out, "\nFull Detail\n");
        push_str(&mut out, "-----------\n");
        let mut detail = String::new();
        self.push_detail_lines(&codes, &mut detail);
        push_str(&mut out, detail.as_str());
        assert(need@ =~= need_lines(models(self.colors@), self.inventory@, string_views(codes@)));
        assert(detail@ =~= detail_lines(models(self.colors@), self.inventory@, string_views(codes@)));
        out
    }

    /// The need-to-buy list for the current input.
    pub fn pattern_need_to_buy_plain_text(&self) -> (r: String)
        ensures
            r@ == need_to_buy_text(
                models(self.colors@),
                self.inventory@,
                pattern_codes(models(self.colors@), self.pattern_input@),
            ),
    {
        let codes = self.pattern_required_codes();
        let mut out = String::new();
        self.push_need_lines(&codes, &mut out);
        assert(out@ =~= need_lines(models(self.colors@), self.inventory@, string_views(codes@)));
        let cs = chars_of(out.as_str());
        let (a, b) = crate::text::trim_range(cs.as_slice());
        proof {
            crate::text::lemma_trim_empty_iff(cs@, a as int, b as int);
        }
        if a == b {
            let mut m = String::new();
            push_str(&mut m, "Nothing to buy. You own every required color.");
            m
        } else {
            out
        }
    }
}

/// A pattern list that is exactly one catalogue code made of ASCII letters
/// (either case) and digits is one token, and asks for exactly one colour:
/// that colour, or one listed before it that the code finds first.
pub proof fn lemma_single_code_pattern(cm: Seq<ColorModel>, i: int)
    requires
        0 <= i < cm.len(),
        cm[i].code.len() > 0,
        forall|k: int|
            0 <= k < cm[i].code.len() ==> {
                let c = #[trigger] cm[i].code[k];
                ('0' <= c && c <= '9') || ('a' <= c && c <= 'z') || ('A' <= c && c <= 'Z')
            },
    ensures
        tokens(cm[i].code) == seq![cm[i].code],
        0 <= found_index(cm, cm[i].code) <= i,
        pattern_codes(cm, cm[i].code) == seq![cm[found_index(cm, cm[i].code)].code],
{
    let code = cm[i].code;
    assert forall|k: int| 0 <= k < code.len() implies is_ascii_alnum(#[trigger] code[k]) by {}
    lemma_sep_index(code, code.len() as int);
    assert(tokens(code) == seq![code]);
    assert(!crate::text::is_ws(code[0]) && !crate::text::is_ws(code.last())) by {
        assert(code.last() == code[code.len() - 1]);
    }
    crate::text::lemma_trim_fixed(code);
    assert(canonical(code).len() > 0);
    lemma_catalogue_code_found(cm, i);
    let f = found_index(cm, code);
    let x = cm[f].code;
    assert(token_code(cm, tokens(code)[0]) == Some(x));
    assert(pattern_code_set(cm, code) =~= set![x]) by {
        assert forall|y: Seq<char>| pattern_code_set(cm, code).contains(y) implies y == x by {
            let j = choose|j: int| 0 <= j < tokens(code).len() && token_code(cm, #[trigger] tokens(code)[j]) == Some(y);
            assert(j == 0);
        }
        assert(pattern_code_set(cm, code).contains(x)) by {
            assert(0 <= 0 < tokens(code).len() && token_code(cm, tokens(code)[0]) == Some(x));
        }
    }
    assert(seq![x].to_set() =~= set![x]) by {
        assert(seq![x].contains(x)) by {
            assert(seq![x][0] == x);
        }
    }
    assert(is_pattern_codes(cm, code, seq![x]));
    lemma_pattern_codes(cm, code, seq![x]);
}

/// A typed code and a catalogue code that are both all digits find each
/// other when they write the same digits once leading zeros are dropped from
/// each: the lookup finds that colour or one listed before it.
pub proof fn lemma_number_codes_match(cm: Seq<ColorModel>, typed: Seq<char>, i: int)
    requires
        0 <= i < cm.len(),
        trim(typed).len() > 0,
        all_digits(trim(typed)),
        all_digits(trim(cm[i].code)),
        strip_start(trim(typed), '0') == strip_start(trim(cm[i].code), '0'),
    ensures
        0 <= found_index(cm, typed) <= i,
{
    let t = trim(typed);
    let c = trim(cm[i].code);
    crate::text::lemma_trim_idempotent(typed);
    crate::text::lemma_trim_idempotent(cm[i].code);
    let w = crate::catalog::white_code();
    assert(!eq_ignore_ascii_case(t, w)) by {
        if t.len() == w.len() {
            assert(is_digit(t[0]));
            assert(ascii_fold(t[0]) != ascii_fold(w[0]));
        }
    }
    assert(!eq_ignore_ascii_case(c, w)) by {
        if c.len() == w.len() {
            assert(is_digit(c[0]));
            assert(ascii_fold(c[0]) != ascii_fold(w[0]));
        }
    }
    assert(lookup_candidate(typed) == t);
    assert(canonical(cm[i].code) == c);
    assert(number_text(c) == number_text(t));
    assert(code_matches(cm[i].code, t));
    lemma_first_match_at_most(cm, t, i);
}

} // verus!
