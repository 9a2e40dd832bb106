//! The collection file: one line per owned colour, `code<TAB>bobbins<TAB>skeins<TAB>notes`,
//! after two `#` comment lines. Writing it, and reading it back into an inventory.
use vstd::prelude::*;
use crate::text::{
    all_ws, trim, trim_end, contains_sub, replace_char, push_char, push_chars, push_str,
    chars_of, trimmed, trim_range, lemma_trim_empty_iff, contains_chars, replace_chars,
    string_of, is_ws,
};
use crate::split::{
    lines, split_lines, splitn_char, splitn_fields, views, strip_cr, lemma_lines_concat,
    lemma_lines_single, lemma_splitn_first, lemma_splitn_whole,
};
use crate::numbers::{decimal, parse_u32, parse_u32_spec, push_decimal, lemma_decimal_digits, lemma_parse_decimal, is_digit};
use crate::catalog::{canonical, canonical_code, ColorModel, DmcColor, models, blanc_code, white_code};
use crate::text::{
    lemma_trim_fixed, lemma_trim_end_concat, lemma_trim_end_ws_tail, lemma_trim_of_trim_end,
    lemma_trimmed_first, lemma_trim_all_ws, lemma_all_ws_trim_empty, lemma_replace_removes,
    eq_ignore_ascii_case,
};
use crate::inventory::{
    EntryModel, Inventory, InventoryEntry, empty_entry, entry_is_empty, key_index, lookup,
    upsert,
};

verus! {

// ---------------------------------------------------------------------------
// Writing
// ---------------------------------------------------------------------------

/// The two comment lines that open the collection file.
pub open spec fn collection_header() -> Seq<char> {
    seq!['#', ' ', 'F', 'l', 'o', 's', 's', 'K', 'e', 'e', 'p', 'e', 'r', ' ', 'c', 'o', 'l', 'l',
    'e', 'c', 't', 'i', 'o', 'n', ' ', 'v', '1', '\n', '#', ' ', 'c', 'o', 'd', 'e', '\t', 'b',
    'o', 'b', 'b', 'i', 'n', 's', '\t', 's', 'k', 'e', 'i', 'n', 's', '\t', 'n', 'o', 't', 'e',
    's', '\n']
}

/// A note as it is written to the file: tabs and line feeds become spaces.
pub open spec fn clean_notes(notes: Seq<char>) -> Seq<char> {
    replace_char(replace_char(notes, '\t', seq![' ']), '\n', seq![' '])
}

/// The line written for a colour and its entry.
pub open spec fn row_text(code: Seq<char>, e: EntryModel) -> Seq<char> {
    code + seq!['\t'] + decimal(e.bobbins as nat) + seq!['\t'] + decimal(e.skeins as nat) + seq![
        '\t',
    ] + clean_notes(e.notes) + seq!['\n']
}

/// The rows written for the colours, in catalogue order: one for each colour
/// whose code has an entry that is not empty.
pub open spec fn collection_rows(
    colors: Seq<ColorModel>,
    inv: Seq<(Seq<char>, EntryModel)>,
) -> Seq<char>
    decreases colors.len(),
{
    if colors.len() == 0 {
        seq![]
    } else {
        let c = colors.last();
        collection_rows(colors.drop_last(), inv) + match lookup(inv, c.code) {
            Some(e) => if entry_is_empty(e) {
                Seq::<char>::empty()
            } else {
                row_text(c.code, e)
            },
            None => Seq::<char>::empty(),
        }
    }
}

/// The whole collection file.
pub open spec fn collection_text_spec(
    colors: Seq<ColorModel>,
    inv: Seq<(Seq<char>, EntryModel)>,
) -> Seq<char> {
    collection_header() + collection_rows(colors, inv)
}

/// The text of the collection file for the colours and the inventory.
pub fn collection_text(colors: &Vec<DmcColor>, inventory: &Inventory) -> (r: String)
    ensures
        r@ == collection_text_spec(models(colors@), inventory@),
{
    let mut out = String::new();
    let header: [char; 56] = ['#', ' ', 'F', 'l', 'o', 's', 's', 'K', 'e', 'e', 'p', 'e', 'r', ' ',
    'c', 'o', 'l', 'l', 'e', 'c', 't', 'i', 'o', 'n', ' ', 'v', '1', '\n', '#', ' ', 'c', 'o',
    'd', 'e', '\t', 'b', 'o', 'b', 'b', 'i', 'n', 's', '\t', 's', 'k', 'e', 'i', 'n', 's', '\t',
    'n', 'o', 't', 'e', 's', '\n'];
    push_chars(&mut out, header.as_slice());
    assert(out@ == collection_header());
    let ghost cm = models(colors@);
    let mut i: usize = 0;
    assert(cm.take(0) =~= Seq::<ColorModel>::empty());
    while i < colors.len()
        invariant
            i <= colors.len(),
            cm == models(colors@),
            out@ == collection_header() + collection_rows(cm.take(i as int), inventory@),
        decreases colors.len() - i,
    {
        let color = &colors[i];
        assert(cm.take(i + 1).drop_last() == cm.take(i as int));
        assert(cm.take(i + 1).last() == color@);
        let ghost before = out@;
        match inventory.get(&color.code) {
            Some(entry) => {
                if !entry.is_empty() {
                    push_str(&mut out, color.code.as_str());
                    push_char(&mut out, '\t');
                    push_decimal(&mut out, entry.bobbins as u64);
                    push_char(&mut out, '\t');
                    push_decimal(&mut out, entry.skeins as u64);
                    push_char(&mut out, '\t');
                    let notes = chars_of(entry.notes.as_str());
                    let space: [char; 1] = [' '];
                    let n1 = replace_chars(notes.as_slice(), '\t', space.as_slice());
                    let n2 = replace_chars(n1.as_slice(), '\n', space.as_slice());
                    assert(space@ == seq![' ']);
                    push_chars(&mut out, n2.as_slice());
                    push_char(&mut out, '\n');
                    assert(out@ == before + row_text(color.code@, entry@));
                } else {
                    assert(out@ == before + Seq::<char>::empty());
                }
            },
            None => {
                assert(out@ == before + Seq::<char>::empty());
            },
        }
        i = i + 1;
    }
    assert(cm.take(colors.len() as int) == cm);
    out
}

// ---------------------------------------------------------------------------
// Reading
// ---------------------------------------------------------------------------

/// `a + b`, or `u32::MAX` when that does not fit.
pub open spec fn sat_add(a: u32, b: u32) -> u32 {
    if a + b > u32::MAX {
        u32::MAX
    } else {
        (a + b) as u32
    }
}

/// The number in a field: the field trimmed and parsed, or 0.
pub open spec fn count_field(parts: Seq<Seq<char>>, i: int) -> u32 {
    if i < parts.len() {
        match parse_u32_spec(trim(parts[i])) {
            Some(n) => n,
            None => 0,
        }
    } else {
        0
    }
}

/// What a line of the file holds: nothing for a blank line, a `#` comment
/// line or a line with an empty code; else the trimmed code, the bobbins and
/// skeins (0 where missing or not a number) and the trimmed note.
pub open spec fn parse_row(line: Seq<char>) -> Option<(Seq<char>, u32, u32, Seq<char>)> {
    let l = trim_end(line);
    if all_ws(l) || (l.len() > 0 && l[0] == '#') {
        None
    } else {
        let parts = splitn_char(l, '\t', 4);
        let code = trim(parts[0]);
        let notes = if parts.len() > 3 {
            trim(parts[3])
        } else {
            Seq::<char>::empty()
        };
        if code.len() == 0 {
            None
        } else {
            Some((code, count_field(parts, 1), count_field(parts, 2), notes))
        }
    }
}

/// The note kept when a line's note meets the note already stored: a blank
/// new note changes nothing, a blank old note is replaced, and a new note not
/// found in the old one is appended after `" | "`.
pub open spec fn merged_notes(old: Seq<char>, notes: Seq<char>) -> Seq<char> {
    if all_ws(notes) {
        old
    } else if all_ws(old) {
        notes
    } else if !contains_sub(old, trim(notes)) {
        trim(old) + seq![' ', '|', ' '] + trim(notes)
    } else {
        old
    }
}

/// The inventory after reading one line of the file into it: the line's
/// counts are added (saturating) to the entry of its canonical code, which
/// is created if needed, and its note merged in.
pub open spec fn apply_line(s: Seq<(Seq<char>, EntryModel)>, line: Seq<char>) -> Seq<(Seq<char>, EntryModel)> {
    match parse_row(line) {
        None => s,
        Some((code, b, k, notes)) => {
            let key = canonical(code);
            let old = match lookup(s, key) {
                Some(e) => e,
                None => empty_entry(),
            };
            upsert(
                s,
                key,
                EntryModel {
                    bobbins: sat_add(old.bobbins, b),
                    skeins: sat_add(old.skeins, k),
                    notes: merged_notes(old.notes, notes),
                },
            )
        },
    }
}

/// The inventory after reading the lines, in order, into `s`.
pub open spec fn load_lines(s: Seq<(Seq<char>, EntryModel)>, ls: Seq<Seq<char>>) -> Seq<(Seq<char>, EntryModel)>
    decreases ls.len(),
{
    if ls.len() == 0 {
        s
    } else {
        apply_line(load_lines(s, ls.drop_last()), ls.last())
    }
}

/// The inventory that the text of a collection file holds.
pub open spec fn load_collection_spec(contents: Seq<char>) -> Seq<(Seq<char>, EntryModel)> {
    load_lines(Seq::empty(), lines(contents))
}

/// The number in field `i`, or 0.
fn count_at(parts: &Vec<Vec<char>>, i: usize) -> (r: u32)
    ensures
        r == count_field(views(parts@), i as int),
{
    if i < parts.len() {
        let t = trimmed(parts[i].as_slice());
        match parse_u32(t.as_slice()) {
            Some(n) => n,
            None => 0,
        }
    } else {
        0
    }
}

/// Whether every character is white space.
fn chars_all_ws(s: &[char]) -> (r: bool)
    ensures
        r == all_ws(s@),
{
    let (a, b) = trim_range(s);
    proof {
        lemma_trim_empty_iff(s@, a as int, b as int);
    }
    a == b
}

/// What a line of the file holds (see [`parse_row`]).
fn parse_row_exec(line: &[char]) -> (r: Option<(Vec<char>, u32, u32, Vec<char>)>)
    ensures
        r matches Some(x) ==> parse_row(line@) == Some((x.0@, x.1, x.2, x.3@)),
        r is None ==> parse_row(line@) is None,
{
    let b = crate::text::trim_end_len(line);
    let l = crate::text::sub_vec(line, 0, b);
    if chars_all_ws(l.as_slice()) || (l.len() > 0 && l[0] == '#') {
        return None;
    }
    let parts = splitn_fields(l.as_slice(), '\t', 4);
    proof {
        crate::split::lemma_splitn_nonempty(l@, '\t', 4);
    }
    let code = trimmed(parts[0].as_slice());
    let notes = if parts.len() > 3 {
        trimmed(parts[3].as_slice())
    } else {
        Vec::new()
    };
    if code.len() == 0 {
        return None;
    }
    let bobbins = count_at(&parts, 1);
    let skeins = count_at(&parts, 2);
    Some((code, bobbins, skeins, notes))
}

/// The note kept when a line's note meets the stored one (see [`merged_notes`]).
fn merge_notes(old: &String, notes: &[char]) -> (r: String)
    ensures
        r@ == merged_notes(old@, notes@),
{
    if chars_all_ws(notes) {
        return old.clone();
    }
    let old_chars = chars_of(old.as_str());
    if chars_all_ws(old_chars.as_slice()) {
        return string_of(notes);
    }
    let t_notes = trimmed(notes);
    if !contains_chars(old_chars.as_slice(), t_notes.as_slice()) {
        let t_old = trimmed(old_chars.as_slice());
        let mut out = string_of(t_old.as_slice());
        push_char(&mut out, ' ');
        push_char(&mut out, '|');
        push_char(&mut out, ' ');
        push_chars(&mut out, t_notes.as_slice());
        assert(out@ =~= trim(old@) + seq![' ', '|', ' '] + trim(notes@));
        out
    } else {
        old.clone()
    }
}

/// Reads one line of the file into the inventory (see [`apply_line`]).
pub fn apply_collection_line(inventory: &mut Inventory, line: &[char])
    ensures
        final(inventory)@ == apply_line(old(inventory)@, line@),
{
    match parse_row_exec(line) {
        None => {},
        Some((code, b, k, notes)) => {
            let code_str = string_of(code.as_slice());
            let key = canonical_code(code_str.as_str());
            let old_entry = match inventory.get(&key) {
                Some(e) => e.copy(),
                None => InventoryEntry::default(),
            };
            let entry = InventoryEntry {
                bobbins: old_entry.bobbins.saturating_add(b),
                skeins: old_entry.skeins.saturating_add(k),
                notes: merge_notes(&old_entry.notes, notes.as_slice()),
            };
            inventory.insert(key, entry);
        },
    }
}

/// Replaces the inventory with what the text of a collection file holds.
pub fn load_collection_text(inventory: &mut Inventory, contents: &str)
    ensures
        final(inventory)@ == load_collection_spec(contents@),
{
    inventory.clear();
    let cs = chars_of(contents);
    let ls = split_lines(cs.as_slice());
    let ghost lv = views(ls@);
    let mut i: usize = 0;
    assert(lv.take(0) =~= Seq::<Seq<char>>::empty());
    while i < ls.len()
        invariant
            i <= ls.len(),
            lv == views(ls@),
            lv == lines(contents@),
            inventory@ == load_lines(Seq::empty(), lv.take(i as int)),
        decreases ls.len() - i,
    {
        assert(lv.take(i + 1).drop_last() == lv.take(i as int));
        assert(lv.take(i + 1).last() == ls@[i as int]@);
        apply_collection_line(inventory, ls[i].as_slice());
        i = i + 1;
    }
    assert(lv.take(ls.len() as int) == lv);
}

// ---------------------------------------------------------------------------
// Reading back what was written
// ---------------------------------------------------------------------------

/// A code that the file format carries unchanged: non-empty, canonical, not
/// starting with `#`, and holding no tab or line feed.
pub open spec fn code_writable(code: Seq<char>) -> bool {
    &&& code.len() > 0
    &&& canonical(code) == code
    &&& code[0] != '#'
    &&& !code.contains('\t')
    &&& !code.contains('\n')
}

/// Every colour's code is writable.
pub open spec fn codes_writable(colors: Seq<ColorModel>) -> bool {
    forall|i: int| 0 <= i < colors.len() ==> code_writable(#[trigger] colors[i].code)
}

/// No two colours share a code.
pub open spec fn codes_distinct(colors: Seq<ColorModel>) -> bool {
    forall|i: int, j: int| 0 <= i < j < colors.len() ==> (#[trigger] colors[i]).code != (#[trigger] colors[j]).code
}

/// An entry as the file gives it back: the same counts, and the note as it
/// was written, trimmed.
pub open spec fn stored_entry(e: EntryModel) -> EntryModel {
    EntryModel { bobbins: e.bobbins, skeins: e.skeins, notes: trim(clean_notes(e.notes)) }
}

/// The entries that the file keeps: for each colour in catalogue order whose
/// code has an entry that is not empty, that code and the entry as stored.
pub open spec fn saved_entries(
    colors: Seq<ColorModel>,
    inv: Seq<(Seq<char>, EntryModel)>,
) -> Seq<(Seq<char>, EntryModel)>
    decreases colors.len(),
{
    if colors.len() == 0 {
        seq![]
    } else {
        let c = colors.last();
        saved_entries(colors.drop_last(), inv) + match lookup(inv, c.code) {
            Some(e) => if entry_is_empty(e) {
                Seq::<(Seq<char>, EntryModel)>::empty()
            } else {
                seq![(c.code, stored_entry(e))]
            },
            None => Seq::<(Seq<char>, EntryModel)>::empty(),
        }
    }
}

proof fn lemma_canonical_trimmed(code: Seq<char>)
    requires
        canonical(code) == code,
    ensures
        trim(code) == code,
{
    if eq_ignore_ascii_case(trim(code), white_code()) {
        assert(!is_ws(blanc_code()[0]));
        assert(!is_ws(blanc_code().last()));
        lemma_trim_fixed(blanc_code());
    }
}

proof fn lemma_decimal_plain(n: nat)
    ensures
        !decimal(n).contains('\t'),
        !decimal(n).contains('\n'),
        !is_ws(decimal(n).last()),
        trim(decimal(n)) == decimal(n),
        decimal(n).len() > 0,
{
    lemma_decimal_digits(n);
    let d = decimal(n);
    assert(is_digit(d[0]));
    assert(is_digit(d[d.len() - 1]));
    lemma_trim_fixed(d);
    if d.contains('\t') {
        let i = choose|i: int| 0 <= i < d.len() && d[i] == '\t';
        assert(is_digit(d[i]));
    }
    if d.contains('\n') {
        let i = choose|i: int| 0 <= i < d.len() && d[i] == '\n';
        assert(is_digit(d[i]));
    }
}

proof fn lemma_clean_plain(n: Seq<char>)
    ensures
        !clean_notes(n).contains('\t'),
        !clean_notes(n).contains('\n'),
{
    let sp = seq![' '];
    assert(!sp.contains('\t')) by {
        if sp.contains('\t') {
            assert(sp[0] == '\t');
        }
    }
    assert(!sp.contains('\n')) by {
        if sp.contains('\n') {
            assert(sp[0] == '\n');
        }
    }
    lemma_replace_removes(n, '\t', sp, '\t');
    lemma_replace_removes(replace_char(n, '\t', sp), '\n', sp, '\t');
    lemma_replace_removes(replace_char(n, '\t', sp), '\n', sp, '\n');
}

/// The line of a row, without its line feed.
pub open spec fn row_body(code: Seq<char>, e: EntryModel) -> Seq<char> {
    code + seq!['\t'] + decimal(e.bobbins as nat) + seq!['\t'] + decimal(e.skeins as nat) + seq![
        '\t',
    ] + clean_notes(e.notes)
}

proof fn lemma_row_body_no_nl(code: Seq<char>, e: EntryModel)
    requires
        !code.contains('\n'),
    ensures
        !row_body(code, e).contains('\n'),
        row_text(code, e) == row_body(code, e).push('\n'),
{
    lemma_decimal_plain(e.bobbins as nat);
    lemma_decimal_plain(e.skeins as nat);
    lemma_clean_plain(e.notes);
    let b = decimal(e.bobbins as nat);
    let s = decimal(e.skeins as nat);
    let n = clean_notes(e.notes);
    let body = row_body(code, e);
    assert(row_text(code, e) =~= body.push('\n'));
    if body.contains('\n') {
        let i = choose|i: int| 0 <= i < body.len() && body[i] == '\n';
        let l0 = code.len() as int;
        let l1 = l0 + 1 + b.len();
        let l2 = l1 + 1 + s.len();
        if i < l0 {
            assert(body[i] == code[i]);
        } else if i == l0 {
            assert(body[i] == '\t');
        } else if i < l1 {
            assert(body[i] == b[i - l0 - 1]);
        } else if i == l1 {
            assert(body[i] == '\t');
        } else if i < l2 {
            assert(body[i] == s[i - l1 - 1]);
        } else if i == l2 {
            assert(body[i] == '\t');
        } else {
            assert(body[i] == n[i - l2 - 1]);
        }
    }
}

/// Reading a written row into an inventory without its code appends the
/// code with the entry as stored.
proof fn lemma_apply_row(state: Seq<(Seq<char>, EntryModel)>, code: Seq<char>, e: EntryModel)
    requires
        code_writable(code),
        key_index(state, code) < 0,
    ensures
        apply_line(state, strip_cr(row_body(code, e))) == state.push((code, stored_entry(e))),
{
    let b = decimal(e.bobbins as nat);
    let s = decimal(e.skeins as nat);
    let n = clean_notes(e.notes);
    lemma_decimal_plain(e.bobbins as nat);
    lemma_decimal_plain(e.skeins as nat);
    lemma_clean_plain(e.notes);
    lemma_canonical_trimmed(code);
    lemma_trimmed_first(code);
    let tab = seq!['\t'];
    let q = code + tab + b + tab + s;
    let body = row_body(code, e);
    assert(body =~= (q + tab) + n);
    // A '\r' before the line feed is trailing white space anyway.
    assert(trim_end(strip_cr(body)) == trim_end(body)) by {
        if body.len() > 0 && body.last() == '\r' {
            assert(is_ws('\r'));
        }
    }
    assert(q.last() == s.last());
    assert(trim_end(q) == q);
    assert((q + tab).drop_last() =~= q);
    assert(trim_end(q + tab) == q) by {
        assert(is_ws('\t'));
    }
    let l = trim_end(body);
    let notes = trim(n);
    assert(q[0] == code[0]);
    if all_ws(n) {
        lemma_trim_end_ws_tail(q + tab, n);
        assert(l == q);
        assert(l =~= code + tab + (b + tab + s));
        lemma_splitn_first(code, '\t', b + tab + s, 4);
        lemma_splitn_first(b, '\t', s, 3);
        lemma_splitn_whole(s, '\t', 2);
        assert(splitn_char(l, '\t', 4) =~= seq![code, b, s]);
        lemma_all_ws_trim_empty(n);
    } else {
        lemma_trim_end_concat(q + tab, n);
        let n2 = trim_end(n);
        assert(l == (q + tab) + n2);
        assert(l =~= code + tab + (b + tab + (s + tab + n2)));
        lemma_splitn_first(code, '\t', b + tab + (s + tab + n2), 4);
        lemma_splitn_first(b, '\t', s + tab + n2, 3);
        lemma_splitn_first(s, '\t', n2, 2);
        lemma_splitn_whole(n2, '\t', 1);
        assert(splitn_char(l, '\t', 4) =~= seq![code, b, s, n2]);
        lemma_trim_of_trim_end(n);
    }
    assert(!all_ws(l)) by {
        assert(l[0] == code[0]);
    }
    lemma_parse_decimal(e.bobbins);
    lemma_parse_decimal(e.skeins);
    assert(parse_row(strip_cr(body)) == Some((code, e.bobbins, e.skeins, notes)));
    assert(lookup(state, code) is None);
    lemma_trim_all_ws(n);
    if all_ws(notes) {
        assert(notes =~= Seq::<char>::empty());
    }
    assert(all_ws(Seq::<char>::empty()));
    assert(merged_notes(Seq::<char>::empty(), notes) == notes);
}

proof fn lemma_header_lines()
    ensures
        load_lines(Seq::empty(), lines(collection_header())) == Seq::<(Seq<char>, EntryModel)>::empty(),
        collection_header().last() == '\n',
{
    let h1 = seq!['#', ' ', 'F', 'l', 'o', 's', 's', 'K', 'e', 'e', 'p', 'e', 'r', ' ', 'c', 'o',
    'l', 'l', 'e', 'c', 't', 'i', 'o', 'n', ' ', 'v', '1'];
    let h2 = seq!['#', ' ', 'c', 'o', 'd', 'e', '\t', 'b', 'o', 'b', 'b', 'i', 'n', 's', '\t', 's',
    'k', 'e', 'i', 'n', 's', '\t', 'n', 'o', 't', 'e', 's'];
    assert(collection_header() =~= h1.push('\n') + h2.push('\n'));
    assert(!h1.contains('\n')) by {
        if h1.contains('\n') {
            let i = choose|i: int| 0 <= i < h1.len() && h1[i] == '\n';
        }
    }
    assert(!h2.contains('\n')) by {
        if h2.contains('\n') {
            let i = choose|i: int| 0 <= i < h2.len() && h2[i] == '\n';
        }
    }
    lemma_lines_concat(h1.push('\n'), h2.push('\n'));
    lemma_lines_single(h1);
    lemma_lines_single(h2);
    let ls = lines(collection_header());
    assert(ls =~= seq![h1, h2]);
    assert(strip_cr(h1) == h1);
    assert(strip_cr(h2) == h2);
    assert(trim_end(h1) == h1);
    assert(trim_end(h2) == h2);
    assert(!all_ws(h1)) by {
        assert(!is_ws(h1[0]));
    }
    assert(!all_ws(h2)) by {
        assert(!is_ws(h2[0]));
    }
    assert(parse_row(h1) is None);
    assert(parse_row(h2) is None);
    assert(ls.drop_last() =~= seq![h1]);
    assert(ls.drop_last().drop_last() =~= Seq::<Seq<char>>::empty());
    let e0 = Seq::<(Seq<char>, EntryModel)>::empty();
    assert(load_lines(e0, ls.drop_last().drop_last()) == e0);
    assert(ls.drop_last().last() == h1);
    assert(load_lines(e0, ls.drop_last()) == apply_line(e0, h1));
    assert(apply_line(e0, h1) == e0);
    assert(ls.last() == h2);
    assert(load_lines(e0, ls) == apply_line(e0, h2));
}

proof fn lemma_saved_keys(colors: Seq<ColorModel>, inv: Seq<(Seq<char>, EntryModel)>, k: Seq<char>)
    requires
        forall|j: int| 0 <= j < colors.len() ==> (#[trigger] colors[j]).code != k,
    ensures
        key_index(saved_entries(colors, inv), k) < 0,
    decreases colors.len(),
{
    if colors.len() > 0 {
        let p = colors.drop_last();
        assert forall|j: int| 0 <= j < p.len() implies (#[trigger] p[j]).code != k by {
            assert(p[j] == colors[j]);
        }
        lemma_saved_keys(p, inv, k);
        let prev = saved_entries(p, inv);
        let c = colors.last();
        assert(c == colors[colors.len() - 1]);
        match lookup(inv, c.code) {
            Some(e) => {
                if !entry_is_empty(e) {
                    let s2 = prev.push((c.code, stored_entry(e)));
                    assert(saved_entries(colors, inv) =~= s2);
                    assert(s2.drop_last() == prev);
                } else {
                    assert(saved_entries(colors, inv) =~= prev);
                }
            },
            None => {
                assert(saved_entries(colors, inv) =~= prev);
            },
        }
    }
}

proof fn lemma_rows_end_nl(colors: Seq<ColorModel>, inv: Seq<(Seq<char>, EntryModel)>)
    ensures
        (collection_header() + collection_rows(colors, inv)).last() == '\n',
        (collection_header() + collection_rows(colors, inv)).len() > 0,
    decreases colors.len(),
{
    lemma_header_lines();
    if colors.len() > 0 {
        lemma_rows_end_nl(colors.drop_last(), inv);
        let prev = collection_header() + collection_rows(colors.drop_last(), inv);
        let c = colors.last();
        match lookup(inv, c.code) {
            Some(e) => {
                if !entry_is_empty(e) {
                    assert(collection_header() + collection_rows(colors, inv) =~= prev + row_text(c.code, e));
                } else {
                    assert(collection_header() + collection_rows(colors, inv) =~= prev);
                }
            },
            None => {
                assert(collection_header() + collection_rows(colors, inv) =~= prev);
            },
        }
    }
}

/// Writing the collection file and reading it back gives, in catalogue
/// order, each colour that had a non-empty entry with its counts and its
/// note as written (tabs and line feeds turned into spaces, trimmed), when
/// the colours' codes are distinct and the file format carries them.
pub proof fn lemma_save_then_load(colors: Seq<ColorModel>, inv: Seq<(Seq<char>, EntryModel)>)
    requires
        codes_distinct(colors),
        codes_writable(colors),
    ensures
        load_collection_spec(collection_text_spec(colors, inv)) == saved_entries(colors, inv),
    decreases colors.len(),
{
    lemma_header_lines();
    if colors.len() > 0 {
        let p = colors.drop_last();
        assert forall|i: int, j: int| 0 <= i < j < p.len() implies (#[trigger] p[i]).code != (#[trigger] p[j]).code by {
            assert(p[i] == colors[i] && p[j] == colors[j]);
        }
        assert forall|i: int| 0 <= i < p.len() implies code_writable(#[trigger] p[i].code) by {
            assert(p[i] == colors[i]);
        }
        lemma_save_then_load(p, inv);
        let c = colors.last();
        assert(c == colors[colors.len() - 1]);
        assert(code_writable(c.code));
        let prev_text = collection_text_spec(p, inv);
        let prev = saved_entries(p, inv);
        lemma_rows_end_nl(p, inv);
        assert forall|j: int| 0 <= j < p.len() implies (#[trigger] p[j]).code != c.code by {
            assert(p[j] == colors[j]);
        }
        lemma_saved_keys(p, inv, c.code);
        match lookup(inv, c.code) {
            Some(e) => {
                if !entry_is_empty(e) {
                    let row = row_text(c.code, e);
                    assert(collection_text_spec(colors, inv) =~= prev_text + row);
                    lemma_lines_concat(prev_text, row);
                    lemma_row_body_no_nl(c.code, e);
                    lemma_lines_single(row_body(c.code, e));
                    let ls = lines(prev_text) + seq![strip_cr(row_body(c.code, e))];
                    assert(ls.drop_last() =~= lines(prev_text));
                    assert(ls.last() == strip_cr(row_body(c.code, e)));
                    lemma_apply_row(prev, c.code, e);
                    assert(saved_entries(colors, inv) =~= prev.push((c.code, stored_entry(e))));
                } else {
                    assert(collection_text_spec(colors, inv) =~= prev_text);
                    assert(saved_entries(colors, inv) =~= prev);
                }
            },
            None => {
                assert(collection_text_spec(colors, inv) =~= prev_text);
                assert(saved_entries(colors, inv) =~= prev);
            },
        }
    } else {
        assert(collection_text_spec(colors, inv) =~= collection_header());
    }
}

/// What the saved entries hold for `k`: the entry stored for it when `k` is a
/// catalogue code whose entry is not empty, else nothing.
pub open spec fn saved_lookup(colors: Seq<ColorModel>, inv: Seq<(Seq<char>, EntryModel)>, k: Seq<char>) -> Option<EntryModel> {
    if exists|i: int| 0 <= i < colors.len() && (#[trigger] colors[i]).code == k {
        match lookup(inv, k) {
            Some(e) => if entry_is_empty(e) {
                None
            } else {
                Some(stored_entry(e))
            },
            None => None,
        }
    } else {
        None
    }
}

proof fn lemma_lookup_saved(colors: Seq<ColorModel>, inv: Seq<(Seq<char>, EntryModel)>, k: Seq<char>)
    requires
        codes_distinct(colors),
    ensures
        lookup(saved_entries(colors, inv), k) == saved_lookup(colors, inv, k),
    decreases colors.len(),
{
    if colors.len() == 0 {
        assert(saved_entries(colors, inv) =~= Seq::<(Seq<char>, EntryModel)>::empty());
    } else {
        let p = colors.drop_last();
        let c = colors.last();
        assert forall|i: int, j: int| 0 <= i < j < p.len() implies (#[trigger] p[i]).code != (#[trigger] p[j]).code by {
            assert(p[i] == colors[i] && p[j] == colors[j]);
        }
        lemma_lookup_saved(p, inv, k);
        let prev = saved_entries(p, inv);
        assert(c == colors[colors.len() - 1]);
        let in_p = exists|i: int| 0 <= i < p.len() && (#[trigger] p[i]).code == k;
        let in_all = exists|i: int| 0 <= i < colors.len() && (#[trigger] colors[i]).code == k;
        assert(in_all == (in_p || c.code == k)) by {
            if in_p {
                let i = choose|i: int| 0 <= i < p.len() && (#[trigger] p[i]).code == k;
                assert(colors[i] == p[i]);
            }
            if in_all {
                let i = choose|i: int| 0 <= i < colors.len() && (#[trigger] colors[i]).code == k;
                if i < p.len() {
                    assert(p[i] == colors[i]);
                }
            }
            if c.code == k {
                assert(colors[colors.len() - 1].code == k);
            }
        }
        if c.code == k && in_p {
            let i = choose|i: int| 0 <= i < p.len() && (#[trigger] p[i]).code == k;
            assert(colors[i] == p[i]);
            assert(colors[i].code != colors[colors.len() - 1].code);
        }
        assert(saved_lookup(p, inv, k) == (if in_p {
            match lookup(inv, k) {
                Some(e) => if entry_is_empty(e) { None } else { Some(stored_entry(e)) },
                None => None,
            }
        } else {
            None::<EntryModel>
        }));
        assert(saved_lookup(colors, inv, k) == (if in_all {
            match lookup(inv, k) {
                Some(e) => if entry_is_empty(e) { None } else { Some(stored_entry(e)) },
                None => None,
            }
        } else {
            None::<EntryModel>
        }));
        match lookup(inv, c.code) {
            Some(e) => {
                if !entry_is_empty(e) {
                    let t = prev.push((c.code, stored_entry(e)));
                    assert(saved_entries(colors, inv) =~= t);
                    assert(t.drop_last() =~= prev);
                    assert(t.last() == (c.code, stored_entry(e)));
                    if c.code != k {
                        assert(key_index(t, k) == key_index(prev, k));
                        crate::inventory::lemma_key_index(prev, k);
                        if key_index(prev, k) >= 0 {
                            assert(t[key_index(prev, k)] == prev[key_index(prev, k)]);
                        }
                    } else {
                        assert(key_index(t, k) == t.len() - 1);
                    }
                } else {
                    assert(saved_entries(colors, inv) =~= prev);
                }
            },
            None => {
                assert(saved_entries(colors, inv) =~= prev);
            },
        }
    }
}

/// Saving a collection and loading the file gives the same entry for every
/// code, when every entry is stored under a catalogue code, none is empty, and
/// each note is already as the file keeps it (trimmed, without tabs or line
/// feeds); the catalogue codes must be distinct and fit the file format.
pub proof fn lemma_save_then_load_restores(colors: Seq<ColorModel>, inv: Seq<(Seq<char>, EntryModel)>)
    requires
        codes_distinct(colors),
        codes_writable(colors),
        forall|j: int|
            0 <= j < inv.len() ==> exists|i: int|
                0 <= i < colors.len() && (#[trigger] colors[i]).code == (#[trigger] inv[j]).0,
        forall|j: int| 0 <= j < inv.len() ==> !entry_is_empty(#[trigger] inv[j].1),
        forall|j: int| 0 <= j < inv.len() ==> stored_entry(#[trigger] inv[j].1) == inv[j].1,
    ensures
        forall|k: Seq<char>|
            #[trigger] lookup(load_collection_spec(collection_text_spec(colors, inv)), k) == lookup(inv, k),
{
    lemma_save_then_load(colors, inv);
    assert forall|k: Seq<char>|
        #[trigger] lookup(load_collection_spec(collection_text_spec(colors, inv)), k) == lookup(inv, k) by {
        lemma_lookup_saved(colors, inv, k);
        crate::inventory::lemma_key_index(inv, k);
        let j = key_index(inv, k);
        if j >= 0 {
            assert(inv[j].0 == k);
            let i = choose|i: int| 0 <= i < colors.len() && (#[trigger] colors[i]).code == inv[j].0;
            assert(colors[i].code == k);
        }
    }
}

/// Reading a line whose note is blank keeps the note already stored under
/// its canonical code (none where there was no entry): only the counts
/// change, each growing by the line's count and stopping at `u32::MAX`; every
/// other code keeps its entry.
pub proof fn lemma_blank_note_keeps_note(s: Seq<(Seq<char>, EntryModel)>, line: Seq<char>)
    requires
        crate::inventory::keys_distinct(s),
        parse_row(line) is Some,
        all_ws(parse_row(line)->Some_0.3),
    ensures
        ({
            let (code, b, k, _notes) = parse_row(line)->Some_0;
            let key = canonical(code);
            let old = match lookup(s, key) {
                Some(e) => e,
                None => empty_entry(),
            };
            &&& lookup(apply_line(s, line), key) matches Some(e) && {
                &&& e.notes == old.notes
                &&& old.bobbins + b <= u32::MAX ==> e.bobbins == old.bobbins + b
                &&& old.bobbins + b > u32::MAX ==> e.bobbins == u32::MAX
                &&& old.skeins + k <= u32::MAX ==> e.skeins == old.skeins + k
                &&& old.skeins + k > u32::MAX ==> e.skeins == u32::MAX
            }
            &&& forall|k2: Seq<char>| k2 != key ==> #[trigger] lookup(apply_line(s, line), k2) == lookup(s, k2)
        }),
{
    let (code, b, k, notes) = parse_row(line)->Some_0;
    let key = canonical(code);
    let old = match lookup(s, key) {
        Some(e) => e,
        None => empty_entry(),
    };
    let e = EntryModel {
        bobbins: sat_add(old.bobbins, b),
        skeins: sat_add(old.skeins, k),
        notes: merged_notes(old.notes, notes),
    };
    assert(apply_line(s, line) == upsert(s, key, e));
    crate::inventory::lemma_lookup_upsert(s, key, e, key);
    assert forall|k2: Seq<char>| k2 != key implies #[trigger] lookup(apply_line(s, line), k2) == lookup(s, k2) by {
        crate::inventory::lemma_lookup_upsert(s, key, e, k2);
    }
}

} // verus!
