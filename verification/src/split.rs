//! Splitting text into lines (`str::lines`) and fields (`str::split`,
//! `str::splitn` on one character), stated over character sequences.
use vstd::prelude::*;
use crate::text::sub_vec;

verus! {

/// The index of the first `c` in `s`, or `s.len()` when there is none.
pub open spec fn index_of(s: Seq<char>, c: char) -> nat
    decreases s.len(),
{
    if s.len() == 0 || s[0] == c {
        0
    } else {
        1 + index_of(s.drop_first(), c)
    }
}

pub proof fn lemma_index_of(s: Seq<char>, c: char, k: int)
    requires
        0 <= k <= s.len(),
        forall|i: int| 0 <= i < k ==> #[trigger] s[i] != c,
        k == s.len() || s[k] == c,
    ensures
        index_of(s, c) == k,
    decreases k,
{
    if k > 0 {
        let t = s.drop_first();
        assert forall|i: int| 0 <= i < k - 1 implies #[trigger] t[i] != c by {
            assert(t[i] == s[i + 1]);
        }
        lemma_index_of(t, c, k - 1);
    }
}

pub proof fn lemma_index_of_props(s: Seq<char>, c: char)
    ensures
        index_of(s, c) <= s.len(),
        forall|i: int| 0 <= i < index_of(s, c) ==> #[trigger] s[i] != c,
        index_of(s, c) < s.len() ==> s[index_of(s, c) as int] == c,
    decreases s.len(),
{
    if s.len() > 0 && s[0] != c {
        lemma_index_of_props(s.drop_first(), c);
        assert forall|i: int| 0 <= i < index_of(s, c) implies #[trigger] s[i] != c by {
            if i > 0 {
                assert(s[i] == s.drop_first()[i - 1]);
            }
        }
    }
}

/// The first index `i >= from` with `s[i] == c`, or `s.len()`.
pub fn find_from(s: &[char], from: usize, c: char) -> (r: usize)
    requires
        from <= s.len(),
    ensures
        from <= r <= s.len(),
        r - from == index_of(s@.skip(from as int), c),
        forall|i: int| from <= i < r ==> #[trigger] s@[i] != c,
        r < s.len() ==> s@[r as int] == c,
{
    let mut i: usize = from;
    while i < s.len() && s[i] != c
        invariant
            from <= i <= s.len(),
            forall|k: int| from <= k < i ==> #[trigger] s@[k] != c,
        decreases s.len() - i,
    {
        i = i + 1;
    }
    proof {
        let t = s@.skip(from as int);
        assert forall|k: int| 0 <= k < i - from implies #[trigger] t[k] != c by {
            assert(t[k] == s@[k + from]);
        }
        if i < s.len() {
            assert(t[i - from] == s@[i as int]);
        }
        lemma_index_of(t, c, i - from);
    }
    i
}

/// A line without the `'\r'` that ended it before its `'\n'`.
pub open spec fn strip_cr(l: Seq<char>) -> Seq<char> {
    if l.len() > 0 && l.last() == '\r' {
        l.drop_last()
    } else {
        l
    }
}

/// The lines of `s`, as `str::lines` gives them: split at `'\n'`, a `'\r'` just
/// before a `'\n'` dropped, and no empty line after a final `'\n'`.
pub open spec fn lines(s: Seq<char>) -> Seq<Seq<char>>
    decreases s.len(),
{
    if s.len() == 0 {
        seq![]
    } else {
        let k = index_of(s, '\n');
        if k >= s.len() {
            seq![s]
        } else {
            seq![strip_cr(s.take(k as int))] + lines(s.skip(k + 1int))
        }
    }
}

/// The pieces of `s` between occurrences of `c` (`str::split` on a character).
pub open spec fn split_char(s: Seq<char>, c: char) -> Seq<Seq<char>>
    decreases s.len(),
{
    let k = index_of(s, c);
    if k >= s.len() {
        seq![s]
    } else {
        seq![s.take(k as int)] + split_char(s.skip(k + 1int), c)
    }
}

/// At most `n` pieces of `s` split at `c`, the last holding the rest
/// (`str::splitn` on a character, for `n >= 1`).
pub open spec fn splitn_char(s: Seq<char>, c: char, n: nat) -> Seq<Seq<char>>
    decreases n,
{
    let k = index_of(s, c);
    if n <= 1 || k >= s.len() {
        seq![s]
    } else {
        seq![s.take(k as int)] + splitn_char(s.skip(k + 1int), c, (n - 1) as nat)
    }
}

/// The character sequences held by a vector of character vectors.
pub open spec fn views(v: Seq<Vec<char>>) -> Seq<Seq<char>> {
    v.map_values(|x: Vec<char>| x@)
}

pub proof fn lemma_views_push(v: Seq<Vec<char>>, x: Vec<char>)
    ensures
        views(v.push(x)) == views(v).push(x@),
{
    assert(views(v.push(x)) =~= views(v).push(x@));
}

/// The lines of `s` (see [`lines`]).
pub fn split_lines(s: &[char]) -> (r: Vec<Vec<char>>)
    ensures
        views(r@) == lines(s@),
{
    let mut r: Vec<Vec<char>> = Vec::new();
    let mut p: usize = 0;
    assert(s@.skip(0) == s@);
    assert(views(r@) =~= Seq::<Seq<char>>::empty());
    while p < s.len()
        invariant
            p <= s.len(),
            views(r@) + lines(s@.skip(p as int)) == lines(s@),
        decreases s.len() - p,
    {
        let ghost t = s@.skip(p as int);
        let ghost before = views(r@);
        let k = find_from(s, p, '\n');
        if k >= s.len() {
            let line = sub_vec(s, p, s.len());
            assert(line@ == t);
            assert(lines(t) == seq![t]);
            proof { lemma_views_push(r@, line); }
            r.push(line);
            assert(s@.skip(s.len() as int) =~= Seq::<char>::empty());
            assert(before.push(t) + lines(Seq::<char>::empty()) =~= before + seq![t]);
            p = s.len();
        } else {
            let end = if k > p && s[k - 1] == '\r' {
                k - 1
            } else {
                k
            };
            let line = sub_vec(s, p, end);
            assert(t.take(k - p) == s@.subrange(p as int, k as int));
            assert(line@ == strip_cr(t.take(k - p)));
            assert(t.skip(k - p + 1) == s@.skip(k + 1));
            proof { lemma_views_push(r@, line); }
            r.push(line);
            assert(lines(t) == seq![line@] + lines(s@.skip(k + 1)));
            assert(before.push(line@) + lines(s@.skip(k + 1)) =~= before + lines(t));
            p = k + 1;
        }
    }
    assert(s@.skip(p as int) =~= Seq::<char>::empty());
    assert(views(r@) + seq![] =~= views(r@));
    r
}

/// The fields of `s` split at `c` (see [`split_char`]).
pub fn split_fields(s: &[char], c: char) -> (r: Vec<Vec<char>>)
    ensures
        views(r@) == split_char(s@, c),
{
    let mut r: Vec<Vec<char>> = Vec::new();
    let mut p: usize = 0;
    assert(s@.skip(0) == s@);
    assert(views(r@) =~= Seq::<Seq<char>>::empty());
    loop
        invariant
            p <= s.len(),
            views(r@) + split_char(s@.skip(p as int), c) == split_char(s@, c),
        decreases s.len() - p,
    {
        let ghost t = s@.skip(p as int);
        let ghost before = views(r@);
        let k = find_from(s, p, c);
        if k >= s.len() {
            let piece = sub_vec(s, p, s.len());
            assert(piece@ == t);
            proof { lemma_views_push(r@, piece); }
            r.push(piece);
            assert(before.push(t) =~= before + seq![t]);
            return r;
        } else {
            let piece = sub_vec(s, p, k);
            assert(t.take(k - p) == s@.subrange(p as int, k as int));
            assert(t.skip(k - p + 1) == s@.skip(k + 1));
            proof { lemma_views_push(r@, piece); }
            r.push(piece);
            assert(before.push(piece@) + split_char(s@.skip(k + 1), c) =~= before + split_char(t, c));
            p = k + 1;
        }
    }
}

/// At most `n` fields of `s` split at `c` (see [`splitn_char`]).
pub fn splitn_fields(s: &[char], c: char, n: usize) -> (r: Vec<Vec<char>>)
    requires
        n >= 1,
    ensures
        views(r@) == splitn_char(s@, c, n as nat),
{
    let mut r: Vec<Vec<char>> = Vec::new();
    let mut p: usize = 0;
    let mut m: usize = n;
    assert(s@.skip(0) == s@);
    assert(views(r@) =~= Seq::<Seq<char>>::empty());
    loop
        invariant
            p <= s.len(),
            1 <= m <= n,
            views(r@) + splitn_char(s@.skip(p as int), c, m as nat) == splitn_char(s@, c, n as nat),
        decreases m,
    {
        let ghost t = s@.skip(p as int);
        let ghost before = views(r@);
        let k = find_from(s, p, c);
        if m <= 1 || k >= s.len() {
            let piece = sub_vec(s, p, s.len());
            assert(piece@ == t);
            proof { lemma_views_push(r@, piece); }
            r.push(piece);
            assert(before.push(t) =~= before + seq![t]);
            return r;
        } else {
            let piece = sub_vec(s, p, k);
            assert(t.take(k - p) == s@.subrange(p as int, k as int));
            assert(t.skip(k - p + 1) == s@.skip(k + 1));
            proof { lemma_views_push(r@, piece); }
            r.push(piece);
            assert(before.push(piece@) + splitn_char(s@.skip(k + 1), c, (m - 1) as nat) =~= before
                + splitn_char(t, c, m as nat));
            p = k + 1;
            m = m - 1;
        }
    }
}

/// `splitn` gives at least one piece.
pub proof fn lemma_splitn_nonempty(s: Seq<char>, c: char, n: nat)
    ensures
        splitn_char(s, c, n).len() >= 1,
    decreases n,
{
    let k = index_of(s, c);
    if !(n <= 1 || k >= s.len()) {
        lemma_splitn_nonempty(s.skip(k + 1int), c, (n - 1) as nat);
    }
}

/// The first `c` of `a + b` is that of `a` when `a` holds one.
pub proof fn lemma_index_of_concat(a: Seq<char>, b: Seq<char>, c: char)
    requires
        index_of(a, c) < a.len(),
    ensures
        index_of(a + b, c) == index_of(a, c),
{
    lemma_index_of_props(a, c);
    let k = index_of(a, c) as int;
    assert forall|i: int| 0 <= i < k implies #[trigger] (a + b)[i] != c by {
        assert((a + b)[i] == a[i]);
    }
    assert((a + b)[k] == a[k]);
    lemma_index_of(a + b, c, k);
}

/// With no `c` in `x`, the first `c` of `x + [c] + y` follows `x`.
pub proof fn lemma_index_of_after(x: Seq<char>, c: char, y: Seq<char>)
    requires
        !x.contains(c),
    ensures
        index_of(x + seq![c] + y, c) == x.len(),
        (x + seq![c] + y).take(x.len() as int) == x,
        (x + seq![c] + y).skip(x.len() + 1int) == y,
{
    let s = x + seq![c] + y;
    assert forall|i: int| 0 <= i < x.len() implies #[trigger] s[i] != c by {
        assert(s[i] == x[i]);
        if x[i] == c {
            assert(x.contains(c));
        }
    }
    assert(s[x.len() as int] == c);
    lemma_index_of(s, c, x.len() as int);
    assert(s.take(x.len() as int) =~= x);
    assert(s.skip(x.len() + 1int) =~= y);
}

/// With no `c` in `x`, `x` has no `c` at all for `index_of`.
pub proof fn lemma_index_of_none(x: Seq<char>, c: char)
    requires
        !x.contains(c),
    ensures
        index_of(x, c) == x.len(),
{
    assert forall|i: int| 0 <= i < x.len() implies #[trigger] x[i] != c by {
        if x[i] == c {
            assert(x.contains(c));
        }
    }
    lemma_index_of(x, c, x.len() as int);
}

/// Lines of a text that ends with a line feed, followed by more text.
pub proof fn lemma_lines_concat(a: Seq<char>, b: Seq<char>)
    requires
        a.len() == 0 || a.last() == '\n',
    ensures
        lines(a + b) == lines(a) + lines(b),
    decreases a.len(),
{
    if a.len() == 0 {
        assert(a + b == b);
        assert(lines(a) == Seq::<Seq<char>>::empty());
        assert(lines(a) + lines(b) == lines(b));
    } else {
        lemma_index_of_props(a, '\n');
        if index_of(a, '\n') >= a.len() {
            assert(a[a.len() - 1] == '\n');
        }
        let k = index_of(a, '\n');
        lemma_index_of_concat(a, b, '\n');
        let rest = a.skip(k + 1int);
        assert((a + b).take(k as int) == a.take(k as int));
        assert((a + b).skip(k + 1int) == rest + b);
        if rest.len() > 0 {
            assert(rest.last() == a.last());
        }
        lemma_lines_concat(rest, b);
        assert(lines(a + b) == seq![strip_cr(a.take(k as int))] + lines(rest + b));
        assert(lines(a) == seq![strip_cr(a.take(k as int))] + lines(rest));
        assert(seq![strip_cr(a.take(k as int))] + (lines(rest) + lines(b)) == (seq![strip_cr(a.take(k as int))] + lines(rest)) + lines(b));
    }
}

/// The lines of one line with its line feed.
pub proof fn lemma_lines_single(x: Seq<char>)
    requires
        !x.contains('\n'),
    ensures
        lines(x.push('\n')) == seq![strip_cr(x)],
{
    let s = x.push('\n');
    assert(s == x + seq!['\n'] + Seq::<char>::empty());
    lemma_index_of_after(x, '\n', Seq::<char>::empty());
    assert(s.skip(x.len() + 1int) =~= Seq::<char>::empty());
    assert(lines(Seq::<char>::empty()) == Seq::<Seq<char>>::empty());
    assert(lines(s) == seq![strip_cr(x)] + lines(Seq::<char>::empty()));
    assert(seq![strip_cr(x)] + Seq::<Seq<char>>::empty() == seq![strip_cr(x)]);
}

/// Splitting at `c` after a first piece without `c`.
pub proof fn lemma_splitn_first(x: Seq<char>, c: char, y: Seq<char>, n: nat)
    requires
        !x.contains(c),
        n >= 2,
    ensures
        splitn_char(x + seq![c] + y, c, n) == seq![x] + splitn_char(y, c, (n - 1) as nat),
{
    lemma_index_of_after(x, c, y);
}

/// Splitting a piece without `c` gives it whole.
pub proof fn lemma_splitn_whole(x: Seq<char>, c: char, n: nat)
    requires
        !x.contains(c) || n <= 1,
    ensures
        splitn_char(x, c, n) == seq![x],
{
    if n > 1 {
        lemma_index_of_none(x, c);
    }
}

} // verus!
