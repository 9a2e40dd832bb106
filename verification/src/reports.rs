//! The texts that FlossKeeper exports: the missing-colour lists, the
//! shopping list, the owned-colours CSV, and the collection file itself.
use vstd::prelude::*;
use crate::text::{
    trim, chars_of, trimmed, push_char, push_chars, push_str, contains_char,
    replace_char, replace_chars, string_of, lemma_replace_char_add,
};
use crate::numbers::{decimal, push_decimal, hex2, push_hex2};
use crate::catalog::{ColorModel, DmcColor, models};
use crate::inventory::{EntryModel, InventoryEntry, owned, units_fit, is_owned};
use crate::app::{FlossKeeperApp, FilterMode, entry_of, count_matching, lemma_count_matching_le};
use crate::collection::{collection_text, collection_text_spec, load_collection_text, load_collection_spec};

verus! {

// ---------------------------------------------------------------------------
// Small text pieces
// ---------------------------------------------------------------------------

/// A CSV field: quoted, with quotes doubled, when it holds a comma, a quote,
/// a line feed or a carriage return; else as it is.
pub open spec fn csv_field(value: Seq<char>) -> Seq<char> {
    if value.contains(',') || value.contains('"') || value.contains('\n') || value.contains('\r') {
        seq!['"'] + replace_char(value, '"', seq!['"', '"']) + seq!['"']
    } else {
        value
    }
}

/// A CSV field's text with each doubled quote read as one quote, from the start.
pub open spec fn csv_unescape(s: Seq<char>) -> Seq<char>
    decreases s.len(),
{
    if s.len() == 0 {
        seq![]
    } else if s.len() >= 2 && s[0] == '"' && s[1] == '"' {
        seq!['"'] + csv_unescape(s.skip(2))
    } else {
        seq![s[0]] + csv_unescape(s.skip(1))
    }
}

/// The value a CSV field holds: for a quoted field, the text between the
/// quotes with doubled quotes read as one; else the field as it is.
pub open spec fn csv_unquote(s: Seq<char>) -> Seq<char> {
    if s.len() >= 2 && s[0] == '"' && s.last() == '"' {
        csv_unescape(s.subrange(1, s.len() - 1))
    } else {
        s
    }
}

proof fn lemma_unescape_doubled(v: Seq<char>)
    ensures
        csv_unescape(replace_char(v, '"', seq!['"', '"'])) == v,
    decreases v.len(),
{
    if v.len() > 0 {
        let rest = v.drop_first();
        assert(v =~= seq![v[0]] + rest);
        lemma_replace_char_add(seq![v[0]], rest, '"', seq!['"', '"']);
        let one = seq![v[0]];
        assert(one.drop_last() =~= Seq::<char>::empty());
        assert(one.last() == v[0]);
        assert(replace_char(one.drop_last(), '"', seq!['"', '"']) =~= Seq::<char>::empty());
        let rr = replace_char(rest, '"', seq!['"', '"']);
        lemma_unescape_doubled(rest);
        if v[0] == '"' {
            assert(replace_char(one, '"', seq!['"', '"']) =~= seq!['"', '"']);
            let w = seq!['"', '"'] + rr;
            assert(w.skip(2) =~= rr);
        } else {
            assert(replace_char(one, '"', seq!['"', '"']) =~= one);
            let w = one + rr;
            assert(w.skip(1) =~= rr);
        }
    }
}

/// Reading a CSV field back gives the value it was written from.
pub proof fn lemma_csv_field_round_trip(value: Seq<char>)
    ensures
        csv_unquote(csv_field(value)) == value,
        csv_field(value) == value <==> !(value.contains(',') || value.contains('"') || value.contains('\n')
            || value.contains('\r')),
{
    if value.contains(',') || value.contains('"') || value.contains('\n') || value.contains('\r') {
        let r = replace_char(value, '"', seq!['"', '"']);
        let f = csv_field(value);
        assert(f.subrange(1, f.len() - 1) =~= r);
        lemma_unescape_doubled(value);
        assert(f != value) by {
            if f == value {
                assert(f.len() == r.len() + 2);
                crate::text::lemma_replace_len_ge(value, '"', seq!['"', '"']);
            }
        }
    } else {
        if value.len() > 0 {
            assert(value[0] != '"');
        }
    }
}

/// A value written as a CSV field.
pub fn csv_escape(value: &str) -> (r: String)
    ensures
        r@ == csv_field(value@),
{
    let cs = chars_of(value);
    if contains_char(cs.as_slice(), ',') || contains_char(cs.as_slice(), '"') || contains_char(
        cs.as_slice(),
        '\n',
    ) || contains_char(cs.as_slice(), '\r') {
        let quotes: [char; 2] = ['"', '"'];
        assert(quotes@ == seq!['"', '"']);
        let inner = replace_chars(cs.as_slice(), '"', quotes.as_slice());
        let mut out = String::new();
        push_char(&mut out, '"');
        push_chars(&mut out, inner.as_slice());
        push_char(&mut out, '"');
        assert(out@ =~= seq!['"'] + inner@ + seq!['"']);
        out
    } else {
        string_of(cs.as_slice())
    }
}

/// A note as the collection list shows it: trimmed, and cut to 32
/// characters followed by `…` when longer.
pub open spec fn short_note_of(note: Seq<char>) -> Seq<char> {
    let t = trim(note);
    if t.len() > 32 {
        t.take(32).push('…')
    } else {
        t
    }
}

/// A note as the collection list shows it.
pub fn short_note(note: &str) -> (r: String)
    ensures
        r@ == short_note_of(note@),
{
    let cs = chars_of(note);
    let t = trimmed(cs.as_slice());
    if t.len() > 32 {
        let head = crate::text::sub_vec(t.as_slice(), 0, 32);
        let mut out = string_of(head.as_slice());
        push_char(&mut out, '…');
        out
    } else {
        string_of(t.as_slice())
    }
}

/// `s` right-aligned in five columns (`{:>5}`).
pub open spec fn pad5(s: Seq<char>) -> Seq<char> {
    if s.len() < 5 {
        Seq::new((5 - s.len()) as nat, |i: int| ' ') + s
    } else {
        s
    }
}

fn push_pad5(out: &mut String, s: &str)
    ensures
        final(out)@ == old(out)@ + pad5(s@),
{
    let cs = chars_of(s);
    let mut k: usize = cs.len();
    let ghost pad = if cs.len() < 5 {
        Seq::new((5 - cs.len()) as nat, |i: int| ' ')
    } else {
        Seq::<char>::empty()
    };
    let ghost start = out@;
    while k < 5
        invariant
            cs.len() <= k <= 5 || (k == cs.len() && k >= 5),
            k >= cs.len(),
            out@ == start + Seq::new((k - cs.len()) as nat, |i: int| ' '),
        decreases 5 - k,
    {
        push_char(out, ' ');
        assert(Seq::new((k + 1 - cs.len()) as nat, |i: int| ' ') =~= Seq::new((k - cs.len()) as nat, |i: int| ' ').push(' '));
        k = k + 1;
    }
    push_chars(out, cs.as_slice());
    if cs.len() < 5 {
        assert(out@ =~= start + pad5(s@));
    } else {
        assert(Seq::new((k - cs.len()) as nat, |i: int| ' ') =~= Seq::<char>::empty());
        assert(out@ =~= start + pad5(s@));
    }
}

// ---------------------------------------------------------------------------
// Missing colours
// ---------------------------------------------------------------------------

/// `#RRGGBB` for a colour.
pub open spec fn hex_of(rgb: Seq<u8>) -> Seq<char> {
    seq!['#'] + hex2(rgb[0]) + hex2(rgb[1]) + hex2(rgb[2])
}

/// The rows of the missing-colours TSV export: `code<TAB>name<TAB>#RRGGBB`
/// for each colour not owned.
pub open spec fn missing_tsv_rows(cm: Seq<ColorModel>, inv: Seq<(Seq<char>, EntryModel)>) -> Seq<char>
    decreases cm.len(),
{
    if cm.len() == 0 {
        seq![]
    } else {
        let c = cm.last();
        missing_tsv_rows(cm.drop_last(), inv) + if !owned(entry_of(inv, c.code)) {
            c.code + seq!['\t'] + c.name + seq!['\t'] + hex_of(c.rgb) + seq!['\n']
        } else {
            Seq::<char>::empty()
        }
    }
}

/// The lines `DMC code - name` for each colour not owned.
pub open spec fn missing_dmc_lines(cm: Seq<ColorModel>, inv: Seq<(Seq<char>, EntryModel)>) -> Seq<char>
    decreases cm.len(),
{
    if cm.len() == 0 {
        seq![]
    } else {
        let c = cm.last();
        missing_dmc_lines(cm.drop_last(), inv) + if !owned(entry_of(inv, c.code)) {
            "DMC "@ + c.code + " - "@ + c.name + seq!['\n']
        } else {
            Seq::<char>::empty()
        }
    }
}

/// The text of the missing-colours plain-text export.
pub open spec fn missing_plain_text(cm: Seq<ColorModel>, inv: Seq<(Seq<char>, EntryModel)>) -> Seq<char> {
    let owned_n = count_matching(cm, inv, FilterMode::Owned);
    let missing_n = (cm.len() - owned_n) as nat;
    let head = "FlossKeeper Missing Colors Shopping List\n"@ + "=======================================\n\n"@
        + "Owned colors: "@ + decimal(owned_n) + seq!['\n'] + "Missing colors: "@ + decimal(
        missing_n,
    ) + seq!['\n'] + "Total DMC colors in app: "@ + decimal(cm.len()) + seq!['\n', '\n'];
    if missing_n == 0 {
        head + "You currently own every DMC color in the app list.\n"@
    } else {
        head + "Missing DMC Colors\n"@ + "------------------\n"@ + missing_dmc_lines(cm, inv)
    }
}

/// The rows of the missing-colours report: `code<TAB>name<TAB>hex text`.
pub open spec fn missing_report_rows(cm: Seq<ColorModel>, inv: Seq<(Seq<char>, EntryModel)>) -> Seq<char>
    decreases cm.len(),
{
    if cm.len() == 0 {
        seq![]
    } else {
        let c = cm.last();
        missing_report_rows(cm.drop_last(), inv) + if !owned(entry_of(inv, c.code)) {
            c.code + seq!['\t'] + c.name + seq!['\t'] + c.hex + seq!['\n']
        } else {
            Seq::<char>::empty()
        }
    }
}

/// The text of the missing-colours report file.
pub open spec fn missing_report_spec(cm: Seq<ColorModel>, inv: Seq<(Seq<char>, EntryModel)>) -> Seq<char> {
    "# FlossKeeper missing colours report\n"@ + "# Generated from your current collection\n"@
        + "DMC\tName\tHex\n"@ + missing_report_rows(cm, inv)
}

/// The rows of the shopping list: `DMC ` and the code in five columns, then the name.
pub open spec fn shopping_rows(cm: Seq<ColorModel>, inv: Seq<(Seq<char>, EntryModel)>) -> Seq<char>
    decreases cm.len(),
{
    if cm.len() == 0 {
        seq![]
    } else {
        let c = cm.last();
        shopping_rows(cm.drop_last(), inv) + if !owned(entry_of(inv, c.code)) {
            "DMC "@ + pad5(c.code) + "  - "@ + c.name + seq!['\n']
        } else {
            Seq::<char>::empty()
        }
    }
}

/// The text of the shopping list file.
pub open spec fn shopping_list_spec(cm: Seq<ColorModel>, inv: Seq<(Seq<char>, EntryModel)>) -> Seq<char> {
    "FlossKeeper Shopping List\n"@ + "========================\n"@ + seq!['\n'] + shopping_rows(cm, inv)
        + seq!['\n'] + "Total missing colours: "@ + decimal(count_matching(cm, inv, FilterMode::Missing))
        + seq!['\n']
}

/// The CSV row of a colour and its entry.
pub open spec fn csv_row(c: ColorModel, e: EntryModel) -> Seq<char> {
    let f1 = csv_field(c.code).push(',');
    let f2 = (f1 + csv_field(c.name)).push(',');
    let f3 = (f2 + decimal(e.bobbins as nat)).push(',');
    let f4 = (f3 + decimal(e.skeins as nat)).push(',');
    let f5 = (f4 + decimal((e.bobbins + e.skeins) as nat)).push(',');
    let f6 = (f5 + csv_field(e.notes)).push(',');
    (f6 + csv_field(c.hex)).push('\n')
}

fn push_csv_row(out: &mut String, color: &DmcColor, entry: &InventoryEntry)
    requires
        units_fit(entry@),
    ensures
        final(out)@ == old(out)@ + csv_row(color@, entry@),
{
    let total = entry.total_units();
    let mut row = csv_escape(color.code.as_str());
    push_char(&mut row, ',');
    let name = csv_escape(color.name.as_str());
    push_str(&mut row, name.as_str());
    push_char(&mut row, ',');
    push_decimal(&mut row, entry.bobbins as u64);
    push_char(&mut row, ',');
    push_decimal(&mut row, entry.skeins as u64);
    push_char(&mut row, ',');
    push_decimal(&mut row, total as u64);
    push_char(&mut row, ',');
    let notes = csv_escape(entry.notes.as_str());
    push_str(&mut row, notes.as_str());
    push_char(&mut row, ',');
    let hex = csv_escape(color.hex.as_str());
    push_str(&mut row, hex.as_str());
    push_char(&mut row, '\n');
    push_str(out, row.as_str());
}

/// The rows of the owned-colours CSV: one per owned colour, in catalogue order.
pub open spec fn csv_rows(cm: Seq<ColorModel>, inv: Seq<(Seq<char>, EntryModel)>) -> Seq<char>
    decreases cm.len(),
{
    if cm.len() == 0 {
        seq![]
    } else {
        let c = cm.last();
        let e = entry_of(inv, c.code);
        csv_rows(cm.drop_last(), inv) + if owned(e) {
            csv_row(c, e)
        } else {
            Seq::<char>::empty()
        }
    }
}

/// The text of the owned-colours CSV file.
pub open spec fn inventory_csv_spec(cm: Seq<ColorModel>, inv: Seq<(Seq<char>, EntryModel)>) -> Seq<char> {
    "DMC,Name,Bobbins,Skeins,Total,Notes,Hex\n"@ + csv_rows(cm, inv)
}

/// Every owned colour can add its bobbins and skeins.
pub open spec fn owned_totals_fit(cm: Seq<ColorModel>, inv: Seq<(Seq<char>, EntryModel)>) -> bool {
    forall|i: int|
        0 <= i < cm.len() && owned(entry_of(inv, #[trigger] cm[i].code)) ==> units_fit(
            entry_of(inv, cm[i].code),
        )
}

impl FlossKeeperApp {
    /// The number of owned colours, as the missing-colours tab counts them.
    pub fn missing_colors_owned_count(&self) -> (r: usize)
        ensures
            r == count_matching(models(self.colors@), self.inventory@, FilterMode::Owned),
    {
        self.owned_color_count()
    }

    /// The number of colours not owned, as the missing-colours tab counts them.
    pub fn missing_colors_count(&self) -> (r: usize)
        ensures
            r == self.colors.len() - count_matching(models(self.colors@), self.inventory@, FilterMode::Owned),
    {
        proof {
            lemma_count_matching_le(models(self.colors@), self.inventory@, FilterMode::Owned);
        }
        self.colors.len().saturating_sub(self.missing_colors_owned_count())
    }

    /// The missing-colours TSV export.
    pub fn missing_colors_tsv(&self) -> (r: String)
        ensures
            r@ == "Code\tName\tHex\n"@ + missing_tsv_rows(models(self.colors@), self.inventory@),
    {
        let mut out = String::new();
        push_str(&mut out, "Code\tName\tHex\n");
        let ghost head = out@;
        let ghost cm = models(self.colors@);
        let mut i: usize = 0;
        assert(cm.take(0) =~= Seq::<ColorModel>::empty());
        while i < self.colors.len()
            invariant
                i <= self.colors.len(),
                cm == models(self.colors@),
                head == "Code\tName\tHex\n"@,
                out@ == head + missing_tsv_rows(cm.take(i as int), self.inventory@),
            decreases self.colors.len() - i,
        {
            assert(cm.take(i + 1).drop_last() == cm.take(i as int));
            assert(cm.take(i + 1).last() == cm[i as int]);
            let color = &self.colors[i];
            let entry = self.entry_for(color.code.as_str());
            let ghost before = out@;
            if !is_owned(&entry) {
                push_str(&mut out, color.code.as_str());
                push_char(&mut out, '\t');
                push_str(&mut out, color.name.as_str());
                push_char(&mut out, '\t');
                push_char(&mut out, '#');
                push_hex2(&mut out, color.rgb[0]);
                push_hex2(&mut out, color.rgb[1]);
                push_hex2(&mut out, color.rgb[2]);
                push_char(&mut out, '\n');
                assert(out@ =~= before + (color.code@ + seq!['\t'] + color.name@ + seq!['\t'] + hex_of(color.rgb@) + seq!['\n']));
            } else {
                assert(out@ =~= before + Seq::<char>::empty());
            }
            i = i + 1;
        }
        assert(cm.take(self.colors.len() as int) == cm);
        out
    }

    /// The lines `DMC code - name` for each colour not owned.
    fn push_missing_dmc_lines(&self, out: &mut String)
        ensures
            final(out)@ == old(out)@ + missing_dmc_lines(models(self.colors@), self.inventory@),
    {
        let ghost start = out@;
        let ghost cm = models(self.colors@);
        let mut i: usize = 0;
        assert(cm.take(0) =~= Seq::<ColorModel>::empty());
        while i < self.colors.len()
            invariant
                i <= self.colors.len(),
                cm == models(self.colors@),
                out@ == start + missing_dmc_lines(cm.take(i as int), self.inventory@),
            decreases self.colors.len() - i,
        {
            assert(cm.take(i + 1).drop_last() == cm.take(i as int));
            assert(cm.take(i + 1).last() == cm[i as int]);
            let color = &self.colors[i];
            let entry = self.entry_for(color.code.as_str());
            let ghost before = out@;
            if !is_owned(&entry) {
                push_str(out, "DMC ");
                push_str(out, color.code.as_str());
                push_str(out, " - ");
                push_str(out, color.name.as_str());
                push_char(out, '\n');
                assert(out@ =~= before + ("DMC "@ + color.code@ + " - "@ + color.name@ + seq!['\n']));
            } else {
                assert(out@ =~= before + Seq::<char>::empty());
            }
            i = i + 1;
        }
        assert(cm.take(self.colors.len() as int) == cm);
    }

    /// The missing-colours plain-text export.
    pub fn missing_colors_plain_text(&self) -> (r: String)
        ensures
            r@ == missing_plain_text(models(self.colors@), self.inventory@),
    {
        let owned_count = self.missing_colors_owned_count();
        let missing_count = self.missing_colors_count();
        let total_colors = self.colors.len();
        let mut out = String::new();
        push_str(&mut out, "FlossKeeper Missing Colors Shopping List\n");
        push_str(&mut out, "=======================================\n\n");
        push_str(&mut out, "Owned colors: ");
        push_decimal(&mut out, owned_count as u64);
        push_char(&mut out, '\n');
        push_str(&mut out, "Missing colors: ");
        push_decimal(&mut out, missing_count as u64);
        push_char(&mut out, '\n');
        push_str(&mut out, "Total DMC colors in app: ");
        push_decimal(&mut out, total_colors as u64);
        push_char(&mut out, '\n');
        push_char(&mut out, '\n');
        let ghost head = out@;
        if missing_count == 0 {
            push_str(&mut out, "You currently own every DMC color in the app list.\n");
            return out;
        }
        push_str(&mut out, "Missing DMC Colors\n");
        push_str(&mut out, "------------------\n");
        self.push_missing_dmc_lines(&mut out);
        out
    }

    /// The missing-colours report file and the number of colours in it.
    pub fn missing_report_text(&self) -> (r: (String, usize))
        ensures
            r.0@ == missing_report_spec(models(self.colors@), self.inventory@),
            r.1 == count_matching(models(self.colors@), self.inventory@, FilterMode::Missing),
    {
        let mut out = String::new();
        push_str(&mut out, "# FlossKeeper missing colours report\n");
        push_str(&mut out, "# Generated from your current collection\n");
        push_str(&mut out, "DMC\tName\tHex\n");
        let ghost head = out@;
        let ghost cm = models(self.colors@);
        let mut count: usize = 0;
        let mut i: usize = 0;
        assert(cm.take(0) =~= Seq::<ColorModel>::empty());
        while i < self.colors.len()
            invariant
                i <= self.colors.len(),
                cm == models(self.colors@),
                out@ == head + missing_report_rows(cm.take(i as int), self.inventory@),
                head == "# FlossKeeper missing colours report\n"@ + "# Generated from your current collection\n"@ + "DMC\tName\tHex\n"@,
                count <= i,
                count == count_matching(cm.take(i as int), self.inventory@, FilterMode::Missing),
            decreases self.colors.len() - i,
        {
            assert(cm.take(i + 1).drop_last() == cm.take(i as int));
            assert(cm.take(i + 1).last() == cm[i as int]);
            let color = &self.colors[i];
            let entry = self.entry_for(color.code.as_str());
            let ghost before = out@;
            if !is_owned(&entry) {
                push_str(&mut out, color.code.as_str());
                push_char(&mut out, '\t');
                push_str(&mut out, color.name.as_str());
                push_char(&mut out, '\t');
                push_str(&mut out, color.hex.as_str());
                push_char(&mut out, '\n');
                assert(out@ =~= before + (color.code@ + seq!['\t'] + color.name@ + seq!['\t'] + color.hex@ + seq!['\n']));
                count = count + 1;
            } else {
                assert(out@ =~= before + Seq::<char>::empty());
            }
            i = i + 1;
        }
        assert(cm.take(self.colors.len() as int) == cm);
        assert(out@ =~= missing_report_spec(cm, self.inventory@));
        (out, count)
    }

    /// The shopping list file and the number of colours in it.
    pub fn shopping_list_text(&self) -> (r: (String, usize))
        ensures
            r.0@ == shopping_list_spec(models(self.colors@), self.inventory@),
            r.1 == count_matching(models(self.colors@), self.inventory@, FilterMode::Missing),
    {
        let mut out = String::new();
        push_str(&mut out, "FlossKeeper Shopping List\n");
        push_str(&mut out, "========================\n");
        push_char(&mut out, '\n');
        let ghost head = out@;
        let ghost cm = models(self.colors@);
        let mut count: usize = 0;
        let mut i: usize = 0;
        assert(cm.take(0) =~= Seq::<ColorModel>::empty());
        while i < self.colors.len()
            invariant
                i <= self.colors.len(),
                cm == models(self.colors@),
                out@ == head + shopping_rows(cm.take(i as int), self.inventory@),
                head == "FlossKeeper Shopping List\n"@ + "========================\n"@ + seq!['\n'],
                count <= i,
                count == count_matching(cm.take(i as int), self.inventory@, FilterMode::Missing),
            decreases self.colors.len() - i,
        {
            assert(cm.take(i + 1).drop_last() == cm.take(i as int));
            assert(cm.take(i + 1).last() == cm[i as int]);
            let color = &self.colors[i];
            let entry = self.entry_for(color.code.as_str());
            let ghost before = out@;
            if !is_owned(&entry) {
                push_str(&mut out, "DMC ");
                push_pad5(&mut out, color.code.as_str());
                push_str(&mut out, "  - ");
                push_str(&mut out, color.name.as_str());
                push_char(&mut out, '\n');
                assert(out@ =~= before + ("DMC "@ + pad5(color.code@) + "  - "@ + color.name@ + seq!['\n']));
                count = count + 1;
            } else {
                assert(out@ =~= before + Seq::<char>::empty());
            }
            i = i + 1;
        }
        assert(cm.take(self.colors.len() as int) == cm);
        push_char(&mut out, '\n');
        push_str(&mut out, "Total missing colours: ");
        push_decimal(&mut out, count as u64);
        push_char(&mut out, '\n');
        assert(out@ =~= shopping_list_spec(cm, self.inventory@));
        (out, count)
    }

    /// The owned-colours CSV file and the number of colours in it.
    pub fn inventory_csv_text(&self) -> (r: (String, usize))
        requires
            owned_totals_fit(models(self.colors@), self.inventory@),
        ensures
            r.0@ == inventory_csv_spec(models(self.colors@), self.inventory@),
            r.1 == count_matching(models(self.colors@), self.inventory@, FilterMode::Owned),
    {
        let mut out = String::new();
        push_str(&mut out, "DMC,Name,Bobbins,Skeins,Total,Notes,Hex\n");
        let ghost head = out@;
        let ghost cm = models(self.colors@);
        let mut count: usize = 0;
        let mut i: usize = 0;
        assert(cm.take(0) =~= Seq::<ColorModel>::empty());
        while i < self.colors.len()
            invariant
                i <= self.colors.len(),
                cm == models(self.colors@),
                owned_totals_fit(cm, self.inventory@),
                out@ == head + csv_rows(cm.take(i as int), self.inventory@),
                head == "DMC,Name,Bobbins,Skeins,Total,Notes,Hex\n"@,
                count <= i,
                count == count_matching(cm.take(i as int), self.inventory@, FilterMode::Owned),
            decreases self.colors.len() - i,
        {
            assert(cm.take(i + 1).drop_last() == cm.take(i as int));
            assert(cm.take(i + 1).last() == cm[i as int]);
            let color = &self.colors[i];
            let entry = self.entry_for(color.code.as_str());
            let ghost before = out@;
            if is_owned(&entry) {
                assert(units_fit(entry_of(self.inventory@, cm[i as int].code)));
                push_csv_row(&mut out, color, &entry);
                count = count + 1;
            } else {
                assert(out@ =~= before + Seq::<char>::empty());
            }
            i = i + 1;
        }
        assert(cm.take(self.colors.len() as int) == cm);
        (out, count)
    }

    /// Whether every owned colour's bobbins and skeins add up within a `u32`,
    /// so that the owned-colours CSV and the low-stock filter can total them.
    pub fn owned_units_fit(&self) -> (r: bool)
        ensures
            r == owned_totals_fit(models(self.colors@), self.inventory@),
            r == crate::app::colors_filter_safe(models(self.colors@), self.inventory@, FilterMode::LowStock),
    {
        let ghost cm = models(self.colors@);
        let mut i: usize = 0;
        while i < self.colors.len()
            invariant
                i <= self.colors.len(),
                cm == models(self.colors@),
                forall|j: int| 0 <= j < i ==> #[trigger] units_fit(entry_of(self.inventory@, cm[j].code)),
            decreases self.colors.len() - i,
        {
            let entry = self.entry_for(self.colors[i].code.as_str());
            if entry.bobbins as u64 + entry.skeins as u64 > 0xffff_ffff {
                assert(!units_fit(entry_of(self.inventory@, cm[i as int].code)));
                assert(owned(entry_of(self.inventory@, cm[i as int].code)));
                return false;
            }
            i = i + 1;
        }
        true
    }

    /// The text of the collection file (see [`collection_text_spec`]).
    pub fn collection_file_text(&self) -> (r: String)
        ensures
            r@ == collection_text_spec(models(self.colors@), self.inventory@),
    {
        collection_text(&self.colors, &self.inventory)
    }

    /// Replaces the inventory with what a collection file's text holds and
    /// marks the collection saved.
    pub fn load_collection(&mut self, contents: &str)
        ensures
            final(self).inventory@ == load_collection_spec(contents@),
            !final(self).dirty,
            final(self).colors == old(self).colors,
            crate::app::same_settings(*old(self), *final(self)),
    {
        load_collection_text(&mut self.inventory, contents);
        self.dirty = false;
    }
}

/// The status line after the collection file is read at start-up: whether a
/// saved collection was loaded, or why reading it failed.
pub open spec fn load_status_spec(r: Result<bool, Seq<char>>) -> Seq<char> {
    match r {
        Ok(true) => "Loaded saved collection."@,
        Ok(false) => "No saved collection yet. Add bobbins/skeins, then click Save."@,
        Err(e) => "Could not load collection: "@ + e,
    }
}

/// The status line after the collection file is read again on request.
pub open spec fn reload_status_spec(r: Result<bool, Seq<char>>) -> Seq<char> {
    match r {
        Ok(true) => "Reloaded collection from file."@,
        Ok(false) => "No collection file found yet."@,
        Err(e) => "Reload failed: "@ + e,
    }
}

/// A result whose error is a `String`, as plain values.
pub open spec fn result_view(r: Result<bool, String>) -> Result<bool, Seq<char>> {
    match r {
        Ok(b) => Ok(b),
        Err(e) => Err(e@),
    }
}

/// The status line after reading the collection file at start-up, given
/// whether a file was there to load (or the error reading it).
pub fn load_status_message(r: Result<bool, String>) -> (m: String)
    ensures
        m@ == load_status_spec(result_view(r)),
{
    let mut m = String::new();
    match r {
        Ok(true) => push_str(&mut m, "Loaded saved collection."),
        Ok(false) => push_str(&mut m, "No saved collection yet. Add bobbins/skeins, then click Save."),
        Err(e) => {
            push_str(&mut m, "Could not load collection: ");
            push_str(&mut m, e.as_str());
        },
    }
    m
}

/// The status line after reading the collection file again on request.
pub fn reload_status_message(r: Result<bool, String>) -> (m: String)
    ensures
        m@ == reload_status_spec(result_view(r)),
{
    let mut m = String::new();
    match r {
        Ok(true) => push_str(&mut m, "Reloaded collection from file."),
        Ok(false) => push_str(&mut m, "No collection file found yet."),
        Err(e) => {
            push_str(&mut m, "Reload failed: ");
            push_str(&mut m, e.as_str());
        },
    }
    m
}

impl FlossKeeperApp {
    /// The colours with no bobbin and no skein, in catalogue order (the rows
    /// of the missing-colours tab).
    pub fn missing_colors(&self) -> (r: Vec<DmcColor>)
        ensures
            models(r@) == crate::app::visible_spec(
                models(self.colors@),
                self.inventory@,
                Seq::empty(),
                FilterMode::Missing,
            ),
            r@.len() == self.colors.len() - count_matching(models(self.colors@), self.inventory@, FilterMode::Owned),
    {
        let ghost cm = models(self.colors@);
        let ghost inv = self.inventory@;
        let mut out: Vec<DmcColor> = Vec::new();
        let mut i: usize = 0;
        assert(cm.take(0) =~= Seq::<ColorModel>::empty());
        assert(models(out@) =~= Seq::<ColorModel>::empty());
        while i < self.colors.len()
            invariant
                i <= self.colors.len(),
                cm == models(self.colors@),
                inv == self.inventory@,
                models(out@) == crate::app::visible_spec(cm.take(i as int), inv, Seq::empty(), FilterMode::Missing),
            decreases self.colors.len() - i,
        {
            assert(cm.take(i + 1).drop_last() == cm.take(i as int));
            assert(cm.take(i + 1).last() == cm[i as int]);
            let color = &self.colors[i];
            let entry = self.entry_for(color.code.as_str());
            let ghost before = models(out@);
            if !is_owned(&entry) {
                out.push(color.copy());
                assert(models(out@) =~= before.push(color@));
            }
            i = i + 1;
        }
        assert(cm.take(self.colors.len() as int) == cm);
        proof {
            crate::app::lemma_visible_blank(cm, inv, FilterMode::Missing);
            crate::app::lemma_owned_missing_partition(cm, inv);
        }
        out
    }
}

} // verus!
