//! Character-level text helpers shared by the rest of the library: trimming,
//! splitting into lines and fields, and small searches, each stated over the
//! string's sequence of characters.
use vstd::prelude::*;

verus! {

/// Appends one character to a `String` (std's `String::push`).
#[verifier::external_body]
pub(crate) fn push_char(s: &mut String, c: char)
    ensures
        final(s)@ == old(s)@.push(c),
{
    s.push(c);
}

/// The characters of a string slice, in order.
pub fn chars_of(s: &str) -> (v: Vec<char>)
    ensures
        v@ == s@,
{
    let mut v: Vec<char> = Vec::new();
    for c in it: s.chars()
        invariant
            v@ == it.seq().take(it.index() as int),
    {
        v.push(c);
    }
    v
}

/// A `String` holding exactly the given characters.
pub fn string_of(cs: &[char]) -> (s: String)
    ensures
        s@ == cs@,
{
    let mut s = String::new();
    let mut i: usize = 0;
    while i < cs.len()
        invariant
            i <= cs.len(),
            s@ == cs@.take(i as int),
        decreases cs.len() - i,
    {
        push_char(&mut s, cs[i]);
        assert(cs@.take(i + 1) == cs@.take(i as int).push(cs@[i as int]));
        i = i + 1;
    }
    assert(cs@.take(cs.len() as int) == cs@);
    s
}

/// Appends the given characters to a `String`.
pub fn push_chars(s: &mut String, cs: &[char])
    ensures
        final(s)@ == old(s)@ + cs@,
{
    let mut i: usize = 0;
    while i < cs.len()
        invariant
            i <= cs.len(),
            s@ == old(s)@ + cs@.take(i as int),
        decreases cs.len() - i,
    {
        push_char(s, cs[i]);
        assert(cs@.take(i + 1) == cs@.take(i as int).push(cs@[i as int]));
        i = i + 1;
    }
    assert(cs@.take(cs.len() as int) == cs@);
}

/// Appends a string slice to a `String`.
pub fn push_str(s: &mut String, t: &str)
    ensures
        final(s)@ == old(s)@ + t@,
{
    let cs = chars_of(t);
    push_chars(s, cs.as_slice());
}

/// The characters `s[from..to]`, copied.
pub fn sub_vec(s: &[char], from: usize, to: usize) -> (v: Vec<char>)
    requires
        from <= to <= s.len(),
    ensures
        v@ == s@.subrange(from as int, to as int),
{
    let mut v: Vec<char> = Vec::new();
    let mut i: usize = from;
    while i < to
        invariant
            from <= i <= to <= s.len(),
            v@ == s@.subrange(from as int, i as int),
        decreases to - i,
    {
        v.push(s[i]);
        assert(s@.subrange(from as int, i + 1) == s@.subrange(from as int, i as int).push(s@[i as int]));
        i = i + 1;
    }
    v
}

/// Whether two character sequences are equal.
pub fn chars_eq(a: &[char], b: &[char]) -> (r: bool)
    ensures
        r == (a@ == b@),
{
    if a.len() != b.len() {
        return false;
    }
    let mut i: usize = 0;
    while i < a.len()
        invariant
            i <= a.len() == b.len(),
            forall|k: int| 0 <= k < i ==> a@[k] == b@[k],
        decreases a.len() - i,
    {
        if a[i] != b[i] {
            return false;
        }
        i = i + 1;
    }
    assert(a@ =~= b@);
    true
}

// ---------------------------------------------------------------------------
// Whitespace and trimming
// ---------------------------------------------------------------------------

/// Characters with the Unicode `White_Space` property, the ones that
/// `char::is_whitespace` accepts and `str::trim` removes.
pub open spec fn is_ws(c: char) -> bool {
    ||| ('\u{9}' <= c && c <= '\u{d}')
    ||| c == ' '
    ||| c == '\u{85}'
    ||| c == '\u{a0}'
    ||| c == '\u{1680}'
    ||| ('\u{2000}' <= c && c <= '\u{200a}')
    ||| c == '\u{2028}'
    ||| c == '\u{2029}'
    ||| c == '\u{202f}'
    ||| c == '\u{205f}'
    ||| c == '\u{3000}'
}

/// Whether `c` is white space.
pub fn is_whitespace(c: char) -> (r: bool)
    ensures
        r == is_ws(c),
{
    ('\u{9}' <= c && c <= '\u{d}') || c == ' ' || c == '\u{85}' || c == '\u{a0}' || c == '\u{1680}'
        || ('\u{2000}' <= c && c <= '\u{200a}') || c == '\u{2028}' || c == '\u{2029}' || c
        == '\u{202f}' || c == '\u{205f}' || c == '\u{3000}'
}

/// `s` without its leading white space.
pub open spec fn trim_start(s: Seq<char>) -> Seq<char>
    decreases s.len(),
{
    if s.len() > 0 && is_ws(s[0]) {
        trim_start(s.drop_first())
    } else {
        s
    }
}

/// `s` without its trailing white space.
pub open spec fn trim_end(s: Seq<char>) -> Seq<char>
    decreases s.len(),
{
    if s.len() > 0 && is_ws(s.last()) {
        trim_end(s.drop_last())
    } else {
        s
    }
}

/// `s` without leading and trailing white space (`str::trim`).
pub open spec fn trim(s: Seq<char>) -> Seq<char> {
    trim_end(trim_start(s))
}

/// Whether every character of `s` is white space, that is, `trim(s)` is empty.
pub open spec fn all_ws(s: Seq<char>) -> bool {
    forall|i: int| 0 <= i < s.len() ==> is_ws(#[trigger] s[i])
}

pub proof fn lemma_trim_start_at(s: Seq<char>, i: int)
    requires
        0 <= i <= s.len(),
        forall|k: int| 0 <= k < i ==> is_ws(#[trigger] s[k]),
        i == s.len() || !is_ws(s[i]),
    ensures
        trim_start(s) == s.subrange(i, s.len() as int),
    decreases i,
{
    if i == 0 {
        assert(s.subrange(0, s.len() as int) == s);
    } else {
        let t = s.drop_first();
        assert forall|k: int| 0 <= k < i - 1 implies is_ws(#[trigger] t[k]) by {
            assert(t[k] == s[k + 1]);
        }
        lemma_trim_start_at(t, i - 1);
        assert(t.subrange(i - 1, t.len() as int) == s.subrange(i, s.len() as int));
    }
}

pub proof fn lemma_trim_end_at(s: Seq<char>, j: int)
    requires
        0 <= j <= s.len(),
        forall|k: int| j <= k < s.len() ==> is_ws(#[trigger] s[k]),
        j == 0 || !is_ws(s[j - 1]),
    ensures
        trim_end(s) == s.subrange(0, j),
    decreases s.len() - j,
{
    if j == s.len() {
        assert(s.subrange(0, j) == s);
    } else {
        let t = s.drop_last();
        assert forall|k: int| j <= k < t.len() implies is_ws(#[trigger] t[k]) by {
            assert(t[k] == s[k]);
        }
        lemma_trim_end_at(t, j);
        assert(t.subrange(0, j) == s.subrange(0, j));
    }
}

/// The bounds `(a, b)` of the trimmed part of `s`: `s[a..b]` is `trim(s)`.
pub fn trim_range(s: &[char]) -> (r: (usize, usize))
    ensures
        r.0 <= r.1 <= s.len(),
        s@.subrange(r.0 as int, r.1 as int) == trim(s@),
        forall|k: int| 0 <= k < r.0 ==> is_ws(#[trigger] s@[k]),
        forall|k: int| r.1 <= k < s.len() ==> is_ws(#[trigger] s@[k]),
{
    let mut a: usize = 0;
    while a < s.len() && is_whitespace(s[a])
        invariant
            a <= s.len(),
            forall|k: int| 0 <= k < a ==> is_ws(#[trigger] s@[k]),
        decreases s.len() - a,
    {
        a = a + 1;
    }
    let mut b: usize = s.len();
    while b > a && is_whitespace(s[b - 1])
        invariant
            a <= b <= s.len(),
            forall|k: int| b <= k < s.len() ==> is_ws(#[trigger] s@[k]),
        decreases b,
    {
        b = b - 1;
    }
    proof {
        lemma_trim_start_at(s@, a as int);
        let t = s@.subrange(a as int, s.len() as int);
        assert forall|k: int| b - a <= k < t.len() implies is_ws(#[trigger] t[k]) by {
            assert(t[k] == s@[k + a]);
        }
        if b > a {
            assert(t[b - a - 1] == s@[b - 1]);
        }
        lemma_trim_end_at(t, b - a);
        assert(t.subrange(0, b - a) == s@.subrange(a as int, b as int));
    }
    (a, b)
}

/// The trimmed characters of `s`.
pub fn trimmed(s: &[char]) -> (v: Vec<char>)
    ensures
        v@ == trim(s@),
{
    let (a, b) = trim_range(s);
    sub_vec(s, a, b)
}

pub proof fn lemma_trim_empty_iff(s: Seq<char>, a: int, b: int)
    requires
        0 <= a <= b <= s.len(),
        s.subrange(a, b) == trim(s),
        forall|k: int| 0 <= k < a ==> is_ws(#[trigger] s[k]),
        forall|k: int| b <= k < s.len() ==> is_ws(#[trigger] s[k]),
    ensures
        (trim(s).len() == 0) == all_ws(s),
{
    if trim(s).len() == 0 {
        assert forall|i: int| 0 <= i < s.len() implies is_ws(#[trigger] s[i]) by {
            assert(a == b);
        }
    } else {
        lemma_trim_ends(s);
    }
}

/// A non-empty trimmed string starts and ends with a character that is not white space.
pub proof fn lemma_trim_ends(s: Seq<char>)
    ensures
        trim(s).len() > 0 ==> !is_ws(trim(s)[0]) && !is_ws(trim(s).last()),
        trim(s).len() == 0 ==> all_ws(s),
{
    lemma_trim_start_shape(s);
    lemma_trim_end_shape(trim_start(s));
    if trim(s).len() == 0 {
        let t = trim_start(s);
        let k = s.len() - t.len();
        assert forall|i: int| 0 <= i < s.len() implies is_ws(#[trigger] s[i]) by {
            if i >= k {
                assert(s[i] == t[i - k]);
            }
        }
    }
}

proof fn lemma_trim_start_shape(s: Seq<char>)
    ensures
        trim_start(s).len() <= s.len(),
        trim_start(s) == s.subrange(s.len() - trim_start(s).len(), s.len() as int),
        forall|i: int| 0 <= i < s.len() - trim_start(s).len() ==> is_ws(#[trigger] s[i]),
        trim_start(s).len() > 0 ==> !is_ws(trim_start(s)[0]),
        trim_end(trim_start(s)).len() > 0 ==> !is_ws(trim_start(s)[0]),
    decreases s.len(),
{
    if s.len() > 0 && is_ws(s[0]) {
        lemma_trim_start_shape(s.drop_first());
        let t = s.drop_first();
        assert forall|i: int| 0 <= i < s.len() - trim_start(s).len() implies is_ws(#[trigger] s[i]) by {
            if i > 0 {
                assert(s[i] == t[i - 1]);
            }
        }
        assert(t.subrange(t.len() - trim_start(t).len(), t.len() as int) == s.subrange(
            s.len() - trim_start(s).len(),
            s.len() as int,
        ));
    } else {
        assert(s.subrange(0, s.len() as int) == s);
    }
    lemma_trim_end_shape(trim_start(s));
    if trim_end(trim_start(s)).len() > 0 {
        assert(trim_end(trim_start(s))[0] == trim_start(s)[0]);
    }
}

proof fn lemma_trim_end_shape(s: Seq<char>)
    ensures
        trim_end(s).len() <= s.len(),
        trim_end(s) == s.subrange(0, trim_end(s).len() as int),
        forall|i: int| trim_end(s).len() <= i < s.len() ==> is_ws(#[trigger] s[i]),
        trim_end(s).len() > 0 ==> !is_ws(trim_end(s).last()),
    decreases s.len(),
{
    if s.len() > 0 && is_ws(s.last()) {
        lemma_trim_end_shape(s.drop_last());
        let t = s.drop_last();
        assert forall|i: int| trim_end(s).len() <= i < s.len() implies is_ws(#[trigger] s[i]) by {
            if i < s.len() - 1 {
                assert(s[i] == t[i]);
            }
        }
        assert(t.subrange(0, trim_end(t).len() as int) == s.subrange(0, trim_end(s).len() as int));
    } else {
        assert(s.subrange(0, s.len() as int) == s);
    }
}

/// Trimming twice is trimming once.
pub proof fn lemma_trim_idempotent(s: Seq<char>)
    ensures
        trim(trim(s)) == trim(s),
{
    lemma_trim_ends(s);
    let t = trim(s);
    if t.len() == 0 {
        assert(trim_start(t) == t);
        assert(trim_end(t) == t);
    } else {
        assert(trim_start(t) == t);
        assert(trim_end(t) == t);
    }
}

/// A sequence with no white space at either end is its own trim.
pub proof fn lemma_trim_fixed(s: Seq<char>)
    requires
        s.len() == 0 || (!is_ws(s[0]) && !is_ws(s.last())),
    ensures
        trim(s) == s,
{
    assert(trim_start(s) == s);
    assert(trim_end(s) == s);
}

// ---------------------------------------------------------------------------
// Searching and rewriting
// ---------------------------------------------------------------------------

/// `t` occurs in `s` starting at index `i`.
pub open spec fn occurs_at(s: Seq<char>, t: Seq<char>, i: int) -> bool {
    0 <= i && i + t.len() <= s.len() && s.subrange(i, i + t.len()) == t
}

/// `t` occurs somewhere in `s` (`str::contains` with a string pattern).
pub open spec fn contains_sub(s: Seq<char>, t: Seq<char>) -> bool {
    exists|i: int| occurs_at(s, t, i)
}

/// Whether `t` occurs in `s`.
pub fn contains_chars(s: &[char], t: &[char]) -> (r: bool)
    ensures
        r == contains_sub(s@, t@),
{
    if t.len() > s.len() {
        return false;
    }
    let mut i: usize = 0;
    let last = s.len() - t.len();
    while i <= last
        invariant
            last == s.len() - t.len(),
            t.len() <= s.len(),
            i <= s.len() - t.len() + 1,
            forall|k: int| 0 <= k < i ==> !occurs_at(s@, t@, k),
        decreases s.len() - i,
    {
        let mut j: usize = 0;
        let mut same = true;
        while j < t.len()
            invariant
                i + t.len() <= s.len(),
                j <= t.len(),
                same == (forall|m: int| 0 <= m < j ==> s@[i + m] == t@[m]),
            decreases t.len() - j,
        {
            if s[i + j] != t[j] {
                same = false;
            }
            j = j + 1;
        }
        if same {
            assert(s@.subrange(i as int, i + t.len()) =~= t@);
            assert(occurs_at(s@, t@, i as int));
            return true;
        }
        assert(!occurs_at(s@, t@, i as int)) by {
            if s@.subrange(i as int, i + t.len()) == t@ {
                assert forall|m: int| 0 <= m < t.len() implies s@[i + m] == t@[m] by {
                    assert(s@.subrange(i as int, i + t.len())[m] == s@[i + m]);
                }
            }
        }
        i = i + 1;
    }
    false
}

/// Whether the character `c` occurs in `s`.
pub fn contains_char(s: &[char], c: char) -> (r: bool)
    ensures
        r == s@.contains(c),
{
    let mut i: usize = 0;
    while i < s.len()
        invariant
            i <= s.len(),
            forall|k: int| 0 <= k < i ==> s@[k] != c,
        decreases s.len() - i,
    {
        if s[i] == c {
            assert(s@[i as int] == c);
            return true;
        }
        i = i + 1;
    }
    false
}

/// `c` folded to ASCII lower case (other characters unchanged), as a code point.
pub open spec fn ascii_fold(c: char) -> u32 {
    if 'A' <= c && c <= 'Z' {
        (c as u32 + 32) as u32
    } else {
        c as u32
    }
}

/// `a` and `b` are equal ignoring ASCII case (`str::eq_ignore_ascii_case`).
pub open spec fn eq_ignore_ascii_case(a: Seq<char>, b: Seq<char>) -> bool {
    a.len() == b.len() && forall|i: int| 0 <= i < a.len() ==> ascii_fold(#[trigger] a[i]) == ascii_fold(b[i])
}

fn fold_char(c: char) -> (r: u32)
    ensures
        r == ascii_fold(c),
{
    if 'A' <= c && c <= 'Z' {
        (c as u32) + 32
    } else {
        c as u32
    }
}

/// Whether `a` and `b` are equal ignoring ASCII case.
pub fn chars_eq_ignore_ascii_case(a: &[char], b: &[char]) -> (r: bool)
    ensures
        r == eq_ignore_ascii_case(a@, b@),
{
    if a.len() != b.len() {
        return false;
    }
    let mut i: usize = 0;
    while i < a.len()
        invariant
            i <= a.len() == b.len(),
            forall|k: int| 0 <= k < i ==> ascii_fold(#[trigger] a@[k]) == ascii_fold(b@[k]),
        decreases a.len() - i,
    {
        if fold_char(a[i]) != fold_char(b[i]) {
            return false;
        }
        i = i + 1;
    }
    true
}

/// `s` without every leading `c` (`str::trim_start_matches` with a character).
pub open spec fn strip_start(s: Seq<char>, c: char) -> Seq<char>
    decreases s.len(),
{
    if s.len() > 0 && s[0] == c {
        strip_start(s.drop_first(), c)
    } else {
        s
    }
}

/// `s` without every trailing `c` (`str::trim_end_matches` with a character).
pub open spec fn strip_end(s: Seq<char>, c: char) -> Seq<char>
    decreases s.len(),
{
    if s.len() > 0 && s.last() == c {
        strip_end(s.drop_last(), c)
    } else {
        s
    }
}

/// `s` without every leading and trailing `c` (`str::trim_matches` with a character).
pub open spec fn strip_both(s: Seq<char>, c: char) -> Seq<char> {
    strip_end(strip_start(s, c), c)
}

proof fn lemma_strip_start_at(s: Seq<char>, c: char, i: int)
    requires
        0 <= i <= s.len(),
        forall|k: int| 0 <= k < i ==> #[trigger] s[k] == c,
        i == s.len() || s[i] != c,
    ensures
        strip_start(s, c) == s.subrange(i, s.len() as int),
    decreases i,
{
    if i == 0 {
        assert(s.subrange(0, s.len() as int) == s);
    } else {
        let t = s.drop_first();
        assert forall|k: int| 0 <= k < i - 1 implies #[trigger] t[k] == c by {
            assert(t[k] == s[k + 1]);
        }
        lemma_strip_start_at(t, c, i - 1);
        assert(t.subrange(i - 1, t.len() as int) == s.subrange(i, s.len() as int));
    }
}

proof fn lemma_strip_end_at(s: Seq<char>, c: char, j: int)
    requires
        0 <= j <= s.len(),
        forall|k: int| j <= k < s.len() ==> #[trigger] s[k] == c,
        j == 0 || s[j - 1] != c,
    ensures
        strip_end(s, c) == s.subrange(0, j),
    decreases s.len() - j,
{
    if j == s.len() {
        assert(s.subrange(0, j) == s);
    } else {
        let t = s.drop_last();
        assert forall|k: int| j <= k < t.len() implies #[trigger] t[k] == c by {
            assert(t[k] == s[k]);
        }
        lemma_strip_end_at(t, c, j);
        assert(t.subrange(0, j) == s.subrange(0, j));
    }
}

/// `s` without every leading `c`.
pub fn strip_start_chars(s: &[char], c: char) -> (v: Vec<char>)
    ensures
        v@ == strip_start(s@, c),
{
    let mut a: usize = 0;
    while a < s.len() && s[a] == c
        invariant
            a <= s.len(),
            forall|k: int| 0 <= k < a ==> #[trigger] s@[k] == c,
        decreases s.len() - a,
    {
        a = a + 1;
    }
    proof {
        lemma_strip_start_at(s@, c, a as int);
    }
    sub_vec(s, a, s.len())
}

/// `s` without every leading and trailing `c`.
pub fn strip_both_chars(s: &[char], c: char) -> (v: Vec<char>)
    ensures
        v@ == strip_both(s@, c),
{
    let t = strip_start_chars(s, c);
    let mut b: usize = t.len();
    while b > 0 && t[b - 1] == c
        invariant
            b <= t.len(),
            forall|k: int| b <= k < t.len() ==> #[trigger] t@[k] == c,
        decreases b,
    {
        b = b - 1;
    }
    proof {
        lemma_strip_end_at(t@, c, b as int);
    }
    sub_vec(t.as_slice(), 0, b)
}

/// `s` with every `c` replaced by `r` (`str::replace` with a character pattern).
pub open spec fn replace_char(s: Seq<char>, c: char, r: Seq<char>) -> Seq<char>
    decreases s.len(),
{
    if s.len() == 0 {
        seq![]
    } else {
        replace_char(s.drop_last(), c, r) + (if s.last() == c {
            r
        } else {
            seq![s.last()]
        })
    }
}

/// `s` with every `c` replaced by `r`.
pub fn replace_chars(s: &[char], c: char, r: &[char]) -> (v: Vec<char>)
    ensures
        v@ == replace_char(s@, c, r@),
{
    let mut v: Vec<char> = Vec::new();
    let mut i: usize = 0;
    assert(s@.take(0) =~= Seq::<char>::empty());
    while i < s.len()
        invariant
            i <= s.len(),
            v@ == replace_char(s@.take(i as int), c, r@),
        decreases s.len() - i,
    {
        let ghost before = v@;
        if s[i] == c {
            let mut j: usize = 0;
            while j < r.len()
                invariant
                    j <= r.len(),
                    v@ == before + r@.take(j as int),
                decreases r.len() - j,
            {
                v.push(r[j]);
                assert(r@.take(j + 1) == r@.take(j as int).push(r@[j as int]));
                j = j + 1;
            }
            assert(r@.take(r.len() as int) == r@);
        } else {
            v.push(s[i]);
        }
        assert(s@.take(i + 1).drop_last() == s@.take(i as int));
        assert(s@.take(i + 1).last() == s@[i as int]);
        i = i + 1;
    }
    assert(s@.take(s.len() as int) == s@);
    v
}

/// Replacing a character by a non-empty text never shortens a string.
pub proof fn lemma_replace_len_ge(s: Seq<char>, c: char, r: Seq<char>)
    requires
        r.len() >= 1,
    ensures
        replace_char(s, c, r).len() >= s.len(),
    decreases s.len(),
{
    if s.len() > 0 {
        lemma_replace_len_ge(s.drop_last(), c, r);
    }
}

/// `replace_char` distributes over concatenation.
pub proof fn lemma_replace_char_add(a: Seq<char>, b: Seq<char>, c: char, r: Seq<char>)
    ensures
        replace_char(a + b, c, r) == replace_char(a, c, r) + replace_char(b, c, r),
    decreases b.len(),
{
    if b.len() == 0 {
        assert(a + b == a);
    } else {
        lemma_replace_char_add(a, b.drop_last(), c, r);
        assert((a + b).drop_last() == a + b.drop_last());
    }
}

/// What `str::to_lowercase` gives for a string: the Unicode lower-case
/// mapping of each character, which depends on nothing but the string.
pub uninterp spec fn lowercase_of(s: Seq<char>) -> Seq<char>;

/// `s.to_lowercase()`: std's `str::to_lowercase`, named
/// [`lowercase_of`]; the lower case of the empty string is empty.
#[verifier::external_body]
pub(crate) fn to_lowercase(s: &str) -> (r: String)
    ensures
        r@ == lowercase_of(s@),
        s@.len() == 0 ==> r@.len() == 0,
{
    s.to_lowercase()
}

/// The length of `trim_end(s)`: `s[..r]` is `s` without its trailing white space.
pub fn trim_end_len(s: &[char]) -> (r: usize)
    ensures
        r <= s.len(),
        s@.subrange(0, r as int) == trim_end(s@),
{
    let mut b: usize = s.len();
    while b > 0 && is_whitespace(s[b - 1])
        invariant
            b <= s.len(),
            forall|k: int| b <= k < s.len() ==> is_ws(#[trigger] s@[k]),
        decreases b,
    {
        b = b - 1;
    }
    proof {
        lemma_trim_end_at(s@, b as int);
    }
    b
}

/// Trailing white space is trimmed from the last part when it is not all
/// white space.
pub proof fn lemma_trim_end_concat(p: Seq<char>, n: Seq<char>)
    requires
        !all_ws(n),
    ensures
        trim_end(p + n) == p + trim_end(n),
    decreases n.len(),
{
    assert(n.len() > 0);
    if is_ws(n.last()) {
        let m = n.drop_last();
        assert(!all_ws(m)) by {
            let i = choose|i: int| 0 <= i < n.len() && !is_ws(#[trigger] n[i]);
            assert(i < n.len() - 1);
            assert(m[i] == n[i]);
        }
        lemma_trim_end_concat(p, m);
        assert((p + n).drop_last() == p + m);
    }
}

/// A white-space tail disappears entirely.
pub proof fn lemma_trim_end_ws_tail(p: Seq<char>, n: Seq<char>)
    requires
        all_ws(n),
    ensures
        trim_end(p + n) == trim_end(p),
    decreases n.len(),
{
    if n.len() == 0 {
        assert(p + n == p);
    } else {
        let m = n.drop_last();
        assert((p + n).drop_last() == p + m);
        assert((p + n).last() == n.last());
        lemma_trim_end_ws_tail(p, m);
    }
}

proof fn lemma_trim_start_drop_last(x: Seq<char>)
    requires
        trim_start(x).len() > 0,
    ensures
        trim_start(x.drop_last()) == trim_start(x).drop_last(),
    decreases x.len(),
{
    if x.len() > 0 && is_ws(x[0]) {
        let y = x.drop_first();
        lemma_trim_start_drop_last(y);
        assert(x.drop_last().drop_first() == y.drop_last());
        assert(x.drop_last()[0] == x[0]) by {
            lemma_trim_start_shape(y);
        }
    } else {
        if x.len() > 1 {
            assert(x.drop_last()[0] == x[0]);
        }
    }
}

/// Trimming ignores a white-space last character.
proof fn lemma_trim_ws_last(x: Seq<char>)
    requires
        x.len() > 0,
        is_ws(x.last()),
    ensures
        trim(x) == trim(x.drop_last()),
{
    lemma_trim_start_shape(x);
    lemma_trim_start_shape(x.drop_last());
    if trim_start(x).len() > 0 {
        lemma_trim_start_drop_last(x);
        assert(trim_start(x).last() == x.last());
    } else {
        lemma_trim_ends(x);
        assert forall|i: int| 0 <= i < x.drop_last().len() implies is_ws(#[trigger] x.drop_last()[i]) by {
            assert(x.drop_last()[i] == x[i]);
        }
        lemma_trim_ends(x.drop_last());
        if trim(x.drop_last()).len() > 0 {
            let t = trim(x.drop_last());
            lemma_trim_start_shape(x.drop_last());
            lemma_trim_end_shape(trim_start(x.drop_last()));
            let k = x.drop_last().len() - trim_start(x.drop_last()).len();
            assert(t[0] == x.drop_last()[k]);
        }
        assert(trim(x).len() == 0);
    }
}

/// Trimming the end first changes nothing about the trim.
pub proof fn lemma_trim_of_trim_end(x: Seq<char>)
    ensures
        trim(trim_end(x)) == trim(x),
    decreases x.len(),
{
    if x.len() > 0 && is_ws(x.last()) {
        lemma_trim_of_trim_end(x.drop_last());
        lemma_trim_ws_last(x);
    }
}

/// A trimmed, non-empty string starts with a character that is not white space.
pub proof fn lemma_trimmed_first(x: Seq<char>)
    requires
        trim(x) == x,
        x.len() > 0,
    ensures
        !is_ws(x[0]),
        !all_ws(x),
{
    lemma_trim_ends(x);
}

/// A trim is empty exactly when it is all white space.
pub proof fn lemma_trim_all_ws(x: Seq<char>)
    ensures
        all_ws(trim(x)) == (trim(x).len() == 0),
{
    lemma_trim_ends(x);
}

/// A string of white space trims to nothing.
pub proof fn lemma_all_ws_trim_empty(x: Seq<char>)
    requires
        all_ws(x),
    ensures
        trim(x) == Seq::<char>::empty(),
{
    lemma_trim_start_shape(x);
    let t = trim_start(x);
    if t.len() > 0 {
        let k = x.len() - t.len();
        assert(t[0] == x[k]);
    }
    assert(trim_end(t) == t);
    assert(t =~= Seq::<char>::empty());
}

/// Replacing `c` by a replacement without `c` leaves no `c`.
pub proof fn lemma_replace_removes(s: Seq<char>, c: char, r: Seq<char>, d: char)
    requires
        !r.contains(d),
        d == c || !s.contains(d),
    ensures
        !replace_char(s, c, r).contains(d),
    decreases s.len(),
{
    if s.len() > 0 {
        let t = s.drop_last();
        assert(d == c || !t.contains(d)) by {
            if d != c && t.contains(d) {
                let i = choose|i: int| 0 <= i < t.len() && t[i] == d;
                assert(s[i] == d);
            }
        }
        lemma_replace_removes(t, c, r, d);
        let tail = if s.last() == c {
            r
        } else {
            seq![s.last()]
        };
        assert(!tail.contains(d)) by {
            if s.last() != c && tail.contains(d) {
                assert(tail[0] == d);
                assert(s[s.len() - 1] == d);
            }
        }
        let whole = replace_char(t, c, r) + tail;
        if whole.contains(d) {
            let i = choose|i: int| 0 <= i < whole.len() && whole[i] == d;
            if i < replace_char(t, c, r).len() {
                assert(replace_char(t, c, r)[i] == d);
            } else {
                assert(tail[i - replace_char(t, c, r).len()] == d);
            }
        }
    }
}

} // verus!
