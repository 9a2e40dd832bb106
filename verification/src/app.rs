//! The state of the FlossKeeper collection window and what it computes from
//! it: entries per colour, the changes made with the + and - buttons, and the
//! summary counts.
use vstd::prelude::*;
use crate::text::{all_ws, chars_of, trim, trimmed, string_of, contains_sub, contains_chars, lowercase_of, to_lowercase};
use crate::catalog::{canonical, canonical_code, ColorModel, DmcColor, models, white_code, blanc_code};
use crate::inventory::{
    EntryModel, Inventory, InventoryEntry, empty_entry, entry_is_empty, owned, units_fit,
    adjusted, adjust_u32, is_owned, lookup, upsert, remove_key, sum_bobbins,
    sum_skeins, keys_distinct, lemma_lookup_upsert, lemma_lookup_remove, lemma_adjust_undo,
};

verus! {

/// Which colours the collection list shows.
#[derive(Clone, Copy, Debug, PartialEq, Eq, Structural)]
pub enum FilterMode {
    All,
    Owned,
    Missing,
    BobbinsOnly,
    SkeinsOnly,
    LowStock,
    WithNotes,
}

/// The label shown for a filter.
pub open spec fn label_of(mode: FilterMode) -> Seq<char> {
    match mode {
        FilterMode::All => "All"@,
        FilterMode::Owned => "Owned only"@,
        FilterMode::Missing => "Missing only"@,
        FilterMode::BobbinsOnly => "Bobbins only"@,
        FilterMode::SkeinsOnly => "Skeins only"@,
        FilterMode::LowStock => "Low stock"@,
        FilterMode::WithNotes => "With notes"@,
    }
}

impl FilterMode {
    /// The label shown for this filter.
    pub fn label(self) -> (r: &'static str)
        ensures
            r@ == label_of(self),
    {
        match self {
            FilterMode::All => "All",
            FilterMode::Owned => "Owned only",
            FilterMode::Missing => "Missing only",
            FilterMode::BobbinsOnly => "Bobbins only",
            FilterMode::SkeinsOnly => "Skeins only",
            FilterMode::LowStock => "Low stock",
            FilterMode::WithNotes => "With notes",
        }
    }
}

/// An entry passes a filter.
pub open spec fn entry_matches(mode: FilterMode, e: EntryModel) -> bool {
    match mode {
        FilterMode::All => true,
        FilterMode::Owned => owned(e),
        FilterMode::Missing => !owned(e),
        FilterMode::BobbinsOnly => e.bobbins > 0 && e.skeins == 0,
        FilterMode::SkeinsOnly => e.skeins > 0 && e.bobbins == 0,
        FilterMode::LowStock => owned(e) && e.bobbins + e.skeins <= 1,
        FilterMode::WithNotes => !all_ws(e.notes),
    }
}

/// Filtering by `mode` can add the bobbins and skeins of the entry without
/// overflow: only the low-stock filter adds them, and only for owned colours.
pub open spec fn filter_safe(mode: FilterMode, e: EntryModel) -> bool {
    mode == FilterMode::LowStock && owned(e) ==> units_fit(e)
}

/// Whether an entry passes a filter.
pub fn matches_filter(mode: FilterMode, entry: &InventoryEntry) -> (r: bool)
    requires
        filter_safe(mode, entry@),
    ensures
        r == entry_matches(mode, entry@),
{
    let owned_now = is_owned(entry);
    match mode {
        FilterMode::All => true,
        FilterMode::Owned => owned_now,
        FilterMode::Missing => !owned_now,
        FilterMode::BobbinsOnly => entry.bobbins > 0 && entry.skeins == 0,
        FilterMode::SkeinsOnly => entry.skeins > 0 && entry.bobbins == 0,
        FilterMode::LowStock => owned_now && entry.total_units() <= 1,
        FilterMode::WithNotes => !entry.is_empty_note(),
    }
}

/// The entry of a code: the one stored under its canonical form, or an empty one.
pub open spec fn entry_of(inv: Seq<(Seq<char>, EntryModel)>, code: Seq<char>) -> EntryModel {
    match lookup(inv, canonical(code)) {
        Some(e) => e,
        None => empty_entry(),
    }
}

/// The inventory after removing the entry of `key` if it is empty.
pub open spec fn cleaned(inv: Seq<(Seq<char>, EntryModel)>, key: Seq<char>) -> Seq<(Seq<char>, EntryModel)> {
    match lookup(inv, key) {
        Some(e) => if entry_is_empty(e) {
            remove_key(inv, key)
        } else {
            inv
        },
        None => inv,
    }
}

/// The inventory after storing `e` as the entry of `code` and removing it
/// again if it is empty.
pub open spec fn stored_cleaned(inv: Seq<(Seq<char>, EntryModel)>, code: Seq<char>, e: EntryModel) -> Seq<(Seq<char>, EntryModel)> {
    cleaned(upsert(inv, canonical(code), e), canonical(code))
}

/// The inventory after the bobbins of `code` are moved by `delta`.
pub open spec fn bobbins_adjusted(inv: Seq<(Seq<char>, EntryModel)>, code: Seq<char>, delta: i32) -> Seq<(Seq<char>, EntryModel)> {
    stored_cleaned(
        inv,
        code,
        EntryModel { bobbins: adjusted(entry_of(inv, code).bobbins, delta), ..entry_of(inv, code) },
    )
}

/// The inventory after the skeins of `code` are moved by `delta`.
pub open spec fn skeins_adjusted(inv: Seq<(Seq<char>, EntryModel)>, code: Seq<char>, delta: i32) -> Seq<(Seq<char>, EntryModel)> {
    stored_cleaned(
        inv,
        code,
        EntryModel { skeins: adjusted(entry_of(inv, code).skeins, delta), ..entry_of(inv, code) },
    )
}

proof fn lemma_lookup_stored_cleaned(inv: Seq<(Seq<char>, EntryModel)>, code: Seq<char>, e: EntryModel, k2: Seq<char>)
    requires
        keys_distinct(inv),
    ensures
        keys_distinct(stored_cleaned(inv, code, e)),
        lookup(stored_cleaned(inv, code, e), k2) == if k2 != canonical(code) {
            lookup(inv, k2)
        } else if entry_is_empty(e) {
            None
        } else {
            Some(e)
        },
{
    let k = canonical(code);
    let u = upsert(inv, k, e);
    lemma_lookup_upsert(inv, k, e, k);
    lemma_lookup_upsert(inv, k, e, k2);
    lemma_lookup_remove(u, k, k2);
}

/// Moving the bobbins of a colour by `delta` and back by `-delta` gives the
/// colour its entry back and leaves every other colour's entry as it was,
/// when the first move stays within `0..=u32::MAX` and the entry keeps its
/// note (it has none, or neither it nor the moved entry is empty and dropped).
pub proof fn lemma_adjust_bobbins_undo(inv: Seq<(Seq<char>, EntryModel)>, code: Seq<char>, delta: i32)
    requires
        keys_distinct(inv),
        delta > i32::MIN,
        0 <= entry_of(inv, code).bobbins + delta <= u32::MAX,
        entry_of(inv, code).notes.len() == 0 || (!entry_is_empty(entry_of(inv, code)) && !entry_is_empty(
            EntryModel { bobbins: adjusted(entry_of(inv, code).bobbins, delta), ..entry_of(inv, code) },
        )),
    ensures
        entry_of(bobbins_adjusted(bobbins_adjusted(inv, code, delta), code, (-delta) as i32), code)
            == entry_of(inv, code),
        forall|k: Seq<char>| k != canonical(code) ==> lookup(
            #[trigger] bobbins_adjusted(bobbins_adjusted(inv, code, delta), code, (-delta) as i32),
            k,
        ) == lookup(inv, k),
{
    let e0 = entry_of(inv, code);
    let a = EntryModel { bobbins: adjusted(e0.bobbins, delta), ..e0 };
    let inv1 = bobbins_adjusted(inv, code, delta);
    lemma_lookup_stored_cleaned(inv, code, a, canonical(code));
    let e1 = entry_of(inv1, code);
    lemma_adjust_undo(e0.bobbins, delta);
    let b = EntryModel { bobbins: adjusted(e1.bobbins, (-delta) as i32), ..e1 };
    lemma_lookup_stored_cleaned(inv1, code, b, canonical(code));
    if entry_is_empty(a) {
        assert(e0.notes =~= Seq::<char>::empty());
        assert(b == e0);
    } else {
        assert(b == e0);
    }
    if entry_is_empty(e0) {
        assert(e0.notes =~= Seq::<char>::empty());
    }
    assert forall|k: Seq<char>| k != canonical(code) implies lookup(
        #[trigger] bobbins_adjusted(bobbins_adjusted(inv, code, delta), code, (-delta) as i32),
        k,
    ) == lookup(inv, k) by {
        lemma_lookup_stored_cleaned(inv, code, a, k);
        lemma_lookup_stored_cleaned(inv1, code, b, k);
    }
}

/// Moving the skeins of a colour by `delta` and back by `-delta` gives the
/// colour its entry back and leaves every other colour's entry as it was,
/// when the first move stays within `0..=u32::MAX` and the entry keeps its
/// note (it has none, or neither it nor the moved entry is empty and dropped).
pub proof fn lemma_adjust_skeins_undo(inv: Seq<(Seq<char>, EntryModel)>, code: Seq<char>, delta: i32)
    requires
        keys_distinct(inv),
        delta > i32::MIN,
        0 <= entry_of(inv, code).skeins + delta <= u32::MAX,
        entry_of(inv, code).notes.len() == 0 || (!entry_is_empty(entry_of(inv, code)) && !entry_is_empty(
            EntryModel { skeins: adjusted(entry_of(inv, code).skeins, delta), ..entry_of(inv, code) },
        )),
    ensures
        entry_of(skeins_adjusted(skeins_adjusted(inv, code, delta), code, (-delta) as i32), code)
            == entry_of(inv, code),
        forall|k: Seq<char>| k != canonical(code) ==> lookup(
            #[trigger] skeins_adjusted(skeins_adjusted(inv, code, delta), code, (-delta) as i32),
            k,
        ) == lookup(inv, k),
{
    let e0 = entry_of(inv, code);
    let a = EntryModel { skeins: adjusted(e0.skeins, delta), ..e0 };
    let inv1 = skeins_adjusted(inv, code, delta);
    lemma_lookup_stored_cleaned(inv, code, a, canonical(code));
    let e1 = entry_of(inv1, code);
    lemma_adjust_undo(e0.skeins, delta);
    let b = EntryModel { skeins: adjusted(e1.skeins, (-delta) as i32), ..e1 };
    lemma_lookup_stored_cleaned(inv1, code, b, canonical(code));
    if entry_is_empty(a) {
        assert(e0.notes =~= Seq::<char>::empty());
    }
    assert(b == e0);
    if entry_is_empty(e0) {
        assert(e0.notes =~= Seq::<char>::empty());
    }
    assert forall|k: Seq<char>| k != canonical(code) implies lookup(
        #[trigger] skeins_adjusted(skeins_adjusted(inv, code, delta), code, (-delta) as i32),
        k,
    ) == lookup(inv, k) by {
        lemma_lookup_stored_cleaned(inv, code, a, k);
        lemma_lookup_stored_cleaned(inv1, code, b, k);
    }
}

/// The number of colours whose entry passes the filter.
pub open spec fn count_matching(cm: Seq<ColorModel>, inv: Seq<(Seq<char>, EntryModel)>, mode: FilterMode) -> nat
    decreases cm.len(),
{
    if cm.len() == 0 {
        0
    } else {
        count_matching(cm.drop_last(), inv, mode) + if entry_matches(mode, entry_of(inv, cm.last().code)) {
            1nat
        } else {
            0nat
        }
    }
}

/// The number of colours with both bobbins and skeins.
pub open spec fn count_both(cm: Seq<ColorModel>, inv: Seq<(Seq<char>, EntryModel)>) -> nat
    decreases cm.len(),
{
    if cm.len() == 0 {
        0
    } else {
        count_both(cm.drop_last(), inv) + if entry_of(inv, cm.last().code).bobbins > 0 && entry_of(
            inv,
            cm.last().code,
        ).skeins > 0 {
            1nat
        } else {
            0nat
        }
    }
}

/// Every colour is either owned or missing: the owned and the missing
/// counts add up to the number of colours.
pub proof fn lemma_owned_missing_partition(cm: Seq<ColorModel>, inv: Seq<(Seq<char>, EntryModel)>)
    ensures
        count_matching(cm, inv, FilterMode::Owned) + count_matching(cm, inv, FilterMode::Missing) == cm.len(),
    decreases cm.len(),
{
    if cm.len() > 0 {
        lemma_owned_missing_partition(cm.drop_last(), inv);
    }
}

/// An owned colour has bobbins only, skeins only, or both: those three
/// counts add up to the owned count.
pub proof fn lemma_owned_split(cm: Seq<ColorModel>, inv: Seq<(Seq<char>, EntryModel)>)
    ensures
        count_matching(cm, inv, FilterMode::BobbinsOnly) + count_matching(cm, inv, FilterMode::SkeinsOnly)
            + count_both(cm, inv) == count_matching(cm, inv, FilterMode::Owned),
    decreases cm.len(),
{
    if cm.len() > 0 {
        lemma_owned_split(cm.drop_last(), inv);
    }
}

/// Every colour can be filtered by `mode` without overflow.
pub open spec fn colors_filter_safe(cm: Seq<ColorModel>, inv: Seq<(Seq<char>, EntryModel)>, mode: FilterMode) -> bool {
    forall|i: int| 0 <= i < cm.len() ==> filter_safe(mode, entry_of(inv, #[trigger] cm[i].code))
}

pub proof fn lemma_count_matching_le(cm: Seq<ColorModel>, inv: Seq<(Seq<char>, EntryModel)>, mode: FilterMode)
    ensures
        count_matching(cm, inv, mode) <= cm.len(),
    decreases cm.len(),
{
    if cm.len() > 0 {
        lemma_count_matching_le(cm.drop_last(), inv, mode);
    }
}

proof fn lemma_sum_bobbins_prefix(s: Seq<(Seq<char>, EntryModel)>, i: int)
    requires
        0 <= i <= s.len(),
    ensures
        sum_bobbins(s.take(i)) <= sum_bobbins(s),
    decreases s.len() - i,
{
    if i < s.len() {
        lemma_sum_bobbins_prefix(s, i + 1);
        assert(s.take(i + 1).drop_last() == s.take(i));
    } else {
        assert(s.take(i) == s);
    }
}

proof fn lemma_sum_skeins_prefix(s: Seq<(Seq<char>, EntryModel)>, i: int)
    requires
        0 <= i <= s.len(),
    ensures
        sum_skeins(s.take(i)) <= sum_skeins(s),
    decreases s.len() - i,
{
    if i < s.len() {
        lemma_sum_skeins_prefix(s, i + 1);
        assert(s.take(i + 1).drop_last() == s.take(i));
    } else {
        assert(s.take(i) == s);
    }
}

/// The index of the first colour with exactly this code, or `-1`.
pub open spec fn first_code_index(cm: Seq<ColorModel>, code: Seq<char>) -> int
    decreases cm.len(),
{
    if cm.len() == 0 {
        -1
    } else if cm[0].code == code {
        0
    } else {
        let r = first_code_index(cm.drop_first(), code);
        if r < 0 {
            -1
        } else {
            r + 1
        }
    }
}

proof fn lemma_first_code_index(cm: Seq<ColorModel>, code: Seq<char>, i: int)
    requires
        0 <= i <= cm.len(),
        forall|j: int| 0 <= j < i ==> (#[trigger] cm[j]).code != code,
        i == cm.len() || cm[i].code == code,
    ensures
        first_code_index(cm, code) == if i == cm.len() {
            -1
        } else {
            i
        },
    decreases i,
{
    if cm.len() > 0 && i > 0 {
        let t = cm.drop_first();
        assert forall|j: int| 0 <= j < i - 1 implies (#[trigger] t[j]).code != code by {
            assert(t[j] == cm[j + 1]);
        }
        if i < cm.len() {
            assert(t[i - 1] == cm[i]);
        }
        lemma_first_code_index(t, code, i - 1);
        assert(cm[0] == cm[0]);
        assert(cm[0].code != code);
    }
}

proof fn lemma_first_code_range(cm: Seq<ColorModel>, code: Seq<char>)
    ensures
        -1 <= first_code_index(cm, code) < cm.len(),
    decreases cm.len(),
{
    if cm.len() > 0 {
        lemma_first_code_range(cm.drop_first(), code);
    }
}

/// The search text (already trimmed and in lower case) is empty, or occurs
/// in the lower-case code, name or trimmed note.
pub open spec fn matches_query(c: ColorModel, e: EntryModel, query: Seq<char>) -> bool {
    ||| query.len() == 0
    ||| contains_sub(lowercase_of(c.code), query)
    ||| contains_sub(lowercase_of(c.name), query)
    ||| contains_sub(lowercase_of(trim(e.notes)), query)
}

/// The colours that match the search text and pass the filter, in order.
pub open spec fn visible_spec(cm: Seq<ColorModel>, inv: Seq<(Seq<char>, EntryModel)>, query: Seq<char>, mode: FilterMode) -> Seq<ColorModel>
    decreases cm.len(),
{
    if cm.len() == 0 {
        seq![]
    } else {
        let c = cm.last();
        let e = entry_of(inv, c.code);
        let prev = visible_spec(cm.drop_last(), inv, query, mode);
        if matches_query(c, e, query) && entry_matches(mode, e) {
            prev.push(c)
        } else {
            prev
        }
    }
}

/// White and Blanc are one colour: the entry of `White` is the entry of `Blanc`.
pub proof fn lemma_white_is_blanc(inv: Seq<(Seq<char>, EntryModel)>)
    ensures
        entry_of(inv, white_code()) == entry_of(inv, blanc_code()),
        canonical(white_code()) == blanc_code(),
{
    let w = white_code();
    let b = blanc_code();
    assert(!crate::text::is_ws(w[0]) && !crate::text::is_ws(w.last()));
    assert(!crate::text::is_ws(b[0]) && !crate::text::is_ws(b.last()));
    crate::text::lemma_trim_fixed(w);
    crate::text::lemma_trim_fixed(b);
    assert(crate::text::eq_ignore_ascii_case(w, w));
    assert(!crate::text::eq_ignore_ascii_case(b, w)) by {
        assert(b[0] == 'B' && w[0] == 'W');
    }
}

/// With no search text and the `All` filter, the list shows every colour.
pub proof fn lemma_visible_all(cm: Seq<ColorModel>, inv: Seq<(Seq<char>, EntryModel)>)
    ensures
        visible_spec(cm, inv, Seq::empty(), FilterMode::All) == cm,
    decreases cm.len(),
{
    if cm.len() > 0 {
        lemma_visible_all(cm.drop_last(), inv);
        assert(cm.drop_last().push(cm.last()) == cm);
    }
}

/// With no search text, the list shows as many colours as the filter's count.
pub proof fn lemma_visible_blank(cm: Seq<ColorModel>, inv: Seq<(Seq<char>, EntryModel)>, mode: FilterMode)
    ensures
        visible_spec(cm, inv, Seq::empty(), mode).len() == count_matching(cm, inv, mode),
    decreases cm.len(),
{
    if cm.len() > 0 {
        lemma_visible_blank(cm.drop_last(), inv, mode);
    }
}

/// A search finds a colour by its code, its name or its note: every colour
/// that passes the filter and whose lower-case code, lower-case name or
/// trimmed lower-case note contains the search text is listed.
pub proof fn lemma_search_finds(
    cm: Seq<ColorModel>,
    inv: Seq<(Seq<char>, EntryModel)>,
    query: Seq<char>,
    mode: FilterMode,
    i: int,
)
    requires
        0 <= i < cm.len(),
        entry_matches(mode, entry_of(inv, cm[i].code)),
        contains_sub(lowercase_of(cm[i].code), query) || contains_sub(lowercase_of(cm[i].name), query)
            || contains_sub(lowercase_of(trim(entry_of(inv, cm[i].code).notes)), query),
    ensures
        visible_spec(cm, inv, query, mode).contains(cm[i]),
    decreases cm.len(),
{
    let v = visible_spec(cm, inv, query, mode);
    if i == cm.len() - 1 {
        assert(cm.last() == cm[i]);
        assert(v.last() == cm[i]);
        assert(v[v.len() - 1] == cm[i]);
    } else {
        let p = cm.drop_last();
        assert(p[i] == cm[i]);
        lemma_search_finds(p, inv, query, mode, i);
        let pv = visible_spec(p, inv, query, mode);
        let j = choose|j: int| 0 <= j < pv.len() && pv[j] == cm[i];
        assert(v[j] == pv[j]);
    }
}

/// A low-stock colour has exactly one unit: one bobbin and no skein, or one
/// skein and no bobbin; every such colour is low stock.
pub proof fn lemma_low_stock_is_one_unit(e: EntryModel)
    ensures
        entry_matches(FilterMode::LowStock, e) <==> (e.bobbins == 1 && e.skeins == 0) || (e.bobbins == 0
            && e.skeins == 1),
{
}

/// Every colour the list shows is one of the catalogue's colours, and it
/// passes the filter.
pub proof fn lemma_visible_passes(cm: Seq<ColorModel>, inv: Seq<(Seq<char>, EntryModel)>, query: Seq<char>, mode: FilterMode)
    ensures
        visible_spec(cm, inv, query, mode).len() <= cm.len(),
        forall|i: int|
            0 <= i < visible_spec(cm, inv, query, mode).len() ==> cm.contains(
                #[trigger] visible_spec(cm, inv, query, mode)[i],
            ) && entry_matches(mode, entry_of(inv, visible_spec(cm, inv, query, mode)[i].code)),
    decreases cm.len(),
{
    if cm.len() > 0 {
        let p = cm.drop_last();
        lemma_visible_passes(p, inv, query, mode);
        let v = visible_spec(cm, inv, query, mode);
        let pv = visible_spec(p, inv, query, mode);
        assert forall|i: int| 0 <= i < v.len() implies cm.contains(#[trigger] v[i]) && entry_matches(mode, entry_of(inv, v[i].code)) by {
            if i < pv.len() {
                assert(v[i] == pv[i]);
                let j = choose|j: int| 0 <= j < p.len() && p[j] == pv[i];
                assert(cm[j] == p[j]);
            } else {
                assert(v[i] == cm.last());
                assert(cm[cm.len() - 1] == cm.last());
            }
        }
    }
}

/// The state behind the collection window: the catalogue, what is owned,
/// the search text and filter, the selected colour, the status line, whether
/// there are unsaved changes, and the pattern planner's input.
pub struct FlossKeeperApp {
    pub colors: Vec<DmcColor>,
    pub inventory: Inventory,
    pub search: String,
    pub selected_code: Option<String>,
    pub filter_mode: FilterMode,
    pub status: String,
    pub save_path: String,
    pub dirty: bool,
    pub pattern_input: String,
}

/// `b` has the search text, selection, filter, status line, save path and
/// pattern input of `a`.
pub open spec fn same_settings(a: FlossKeeperApp, b: FlossKeeperApp) -> bool {
    &&& b.search == a.search
    &&& b.selected_code == a.selected_code
    &&& b.filter_mode == a.filter_mode
    &&& b.status == a.status
    &&& b.save_path == a.save_path
    &&& b.pattern_input == a.pattern_input
}

impl FlossKeeperApp {
    /// A window over the given catalogue, saving to `save_path`, with nothing
    /// owned, no search, the `All` filter, nothing selected and nothing unsaved.
    pub fn new(colors: Vec<DmcColor>, save_path: String) -> (r: FlossKeeperApp)
        ensures
            r.colors@ == colors@,
            r.save_path@ == save_path@,
            r.inventory@ == Seq::<(Seq<char>, EntryModel)>::empty(),
            r.search@ == Seq::<char>::empty(),
            r.selected_code is None,
            r.filter_mode == FilterMode::All,
            r.status@ == Seq::<char>::empty(),
            !r.dirty,
            r.pattern_input@ == Seq::<char>::empty(),
    {
        FlossKeeperApp {
            colors,
            inventory: Inventory::new(),
            search: String::new(),
            selected_code: None,
            filter_mode: FilterMode::All,
            status: String::new(),
            save_path,
            dirty: false,
            pattern_input: String::new(),
        }
    }

    /// The entry of a code (a copy; an empty entry when there is none).
    pub fn entry_for(&self, code: &str) -> (r: InventoryEntry)
        ensures
            r@ == entry_of(self.inventory@, code@),
    {
        let key = canonical_code(code);
        match self.inventory.get(&key) {
            Some(e) => e.copy(),
            None => InventoryEntry::default(),
        }
    }

    /// Stores `entry` as the entry of `code`, under its canonical form.
    pub fn store_entry(&mut self, code: &str, entry: InventoryEntry)
        ensures
            final(self).inventory@ == upsert(old(self).inventory@, canonical(code@), entry@),
            final(self).colors == old(self).colors,
            final(self).dirty == old(self).dirty,
            same_settings(*old(self), *final(self)),
    {
        let key = canonical_code(code);
        self.inventory.insert(key, entry);
    }

    /// Removes the entry of `code` when it is empty.
    pub fn cleanup_entry_if_empty(&mut self, code: &str)
        ensures
            final(self).inventory@ == cleaned(old(self).inventory@, canonical(code@)),
            final(self).colors == old(self).colors,
            final(self).dirty == old(self).dirty,
            same_settings(*old(self), *final(self)),
    {
        let key = canonical_code(code);
        let remove = match self.inventory.get(&key) {
            Some(e) => e.is_empty(),
            None => false,
        };
        if remove {
            self.inventory.remove(&key);
        }
    }

    /// Adds `delta` bobbins to the colour (stopping at 0 and at `u32::MAX`),
    /// drops the entry if it is now empty, and marks the collection unsaved.
    pub fn adjust_bobbins(&mut self, code: &str, delta: i32)
        ensures
            final(self).inventory@ == bobbins_adjusted(old(self).inventory@, code@, delta),
            final(self).colors == old(self).colors,
            final(self).dirty,
            same_settings(*old(self), *final(self)),
    {
        let mut entry = self.entry_for(code);
        entry.bobbins = adjust_u32(entry.bobbins, delta);
        self.store_entry(code, entry);
        self.cleanup_entry_if_empty(code);
        self.dirty = true;
    }

    /// Adds `delta` skeins to the colour (stopping at 0 and at `u32::MAX`),
    /// drops the entry if it is now empty, and marks the collection unsaved.
    pub fn adjust_skeins(&mut self, code: &str, delta: i32)
        ensures
            final(self).inventory@ == skeins_adjusted(old(self).inventory@, code@, delta),
            final(self).colors == old(self).colors,
            final(self).dirty,
            same_settings(*old(self), *final(self)),
    {
        let mut entry = self.entry_for(code);
        entry.skeins = adjust_u32(entry.skeins, delta);
        self.store_entry(code, entry);
        self.cleanup_entry_if_empty(code);
        self.dirty = true;
    }

    /// The number of colours whose entry passes the filter.
    fn count_where(&self, mode: FilterMode) -> (r: usize)
        requires
            colors_filter_safe(models(self.colors@), self.inventory@, mode),
        ensures
            r == count_matching(models(self.colors@), self.inventory@, mode),
    {
        let ghost cm = models(self.colors@);
        let mut n: usize = 0;
        let mut i: usize = 0;
        assert(cm.take(0) =~= Seq::<ColorModel>::empty());
        while i < self.colors.len()
            invariant
                i <= self.colors.len(),
                cm == models(self.colors@),
                colors_filter_safe(cm, self.inventory@, mode),
                n <= i,
                n == count_matching(cm.take(i as int), self.inventory@, mode),
            decreases self.colors.len() - i,
        {
            assert(cm.take(i + 1).drop_last() == cm.take(i as int));
            assert(cm.take(i + 1).last() == cm[i as int]);
            let entry = self.entry_for(self.colors[i].code.as_str());
            assert(filter_safe(mode, entry_of(self.inventory@, cm[i as int].code)));
            if matches_filter(mode, &entry) {
                n = n + 1;
            }
            i = i + 1;
        }
        assert(cm.take(self.colors.len() as int) == cm);
        n
    }

    /// The number of colours with at least one bobbin or skein.
    pub fn owned_color_count(&self) -> (r: usize)
        ensures
            r == count_matching(models(self.colors@), self.inventory@, FilterMode::Owned),
    {
        self.count_where(FilterMode::Owned)
    }

    /// The number of colours with no bobbin and no skein.
    pub fn missing_color_count(&self) -> (r: usize)
        ensures
            r == self.colors.len() - count_matching(models(self.colors@), self.inventory@, FilterMode::Owned),
    {
        proof {
            lemma_count_matching_le(models(self.colors@), self.inventory@, FilterMode::Owned);
        }
        self.colors.len().saturating_sub(self.owned_color_count())
    }

    /// The number of colours with bobbins and no skeins.
    pub fn bobbins_only_count(&self) -> (r: usize)
        ensures
            r == count_matching(models(self.colors@), self.inventory@, FilterMode::BobbinsOnly),
    {
        self.count_where(FilterMode::BobbinsOnly)
    }

    /// The number of colours with skeins and no bobbins.
    pub fn skeins_only_count(&self) -> (r: usize)
        ensures
            r == count_matching(models(self.colors@), self.inventory@, FilterMode::SkeinsOnly),
    {
        self.count_where(FilterMode::SkeinsOnly)
    }

    /// The number of colours with both bobbins and skeins.
    pub fn both_count(&self) -> (r: usize)
        ensures
            r == count_both(models(self.colors@), self.inventory@),
    {
        let ghost cm = models(self.colors@);
        let mut n: usize = 0;
        let mut i: usize = 0;
        assert(cm.take(0) =~= Seq::<ColorModel>::empty());
        while i < self.colors.len()
            invariant
                i <= self.colors.len(),
                cm == models(self.colors@),
                n <= i,
                n == count_both(cm.take(i as int), self.inventory@),
            decreases self.colors.len() - i,
        {
            assert(cm.take(i + 1).drop_last() == cm.take(i as int));
            assert(cm.take(i + 1).last() == cm[i as int]);
            let entry = self.entry_for(self.colors[i].code.as_str());
            if entry.bobbins > 0 && entry.skeins > 0 {
                n = n + 1;
            }
            i = i + 1;
        }
        assert(cm.take(self.colors.len() as int) == cm);
        n
    }

    /// The number of owned colours with one unit or less in all.
    pub fn low_stock_count(&self) -> (r: usize)
        requires
            colors_filter_safe(models(self.colors@), self.inventory@, FilterMode::LowStock),
        ensures
            r == count_matching(models(self.colors@), self.inventory@, FilterMode::LowStock),
    {
        self.count_where(FilterMode::LowStock)
    }

    /// The number of colours with a note that is not blank.
    pub fn notes_count(&self) -> (r: usize)
        ensures
            r == count_matching(models(self.colors@), self.inventory@, FilterMode::WithNotes),
    {
        self.count_where(FilterMode::WithNotes)
    }

    /// All bobbins in the inventory.
    pub fn total_bobbins(&self) -> (r: u32)
        requires
            sum_bobbins(self.inventory@) <= u32::MAX,
        ensures
            r == sum_bobbins(self.inventory@),
    {
        let ghost iv = self.inventory@;
        let mut total: u32 = 0;
        let mut i: usize = 0;
        assert(iv.take(0) =~= Seq::<(Seq<char>, EntryModel)>::empty());
        while i < self.inventory.len()
            invariant
                i <= iv.len(),
                iv == self.inventory@,
                sum_bobbins(iv) <= u32::MAX,
                total == sum_bobbins(iv.take(i as int)),
            decreases iv.len() - i,
        {
            let (_code, entry) = self.inventory.at(i);
            assert(iv.take(i + 1).drop_last() == iv.take(i as int));
            assert(iv.take(i + 1).last() == iv[i as int]);
            proof {
                lemma_sum_bobbins_prefix(iv, i + 1);
            }
            total = total + entry.bobbins;
            i = i + 1;
        }
        assert(iv.take(iv.len() as int) == iv);
        total
    }

    /// All skeins in the inventory.
    pub fn total_skeins(&self) -> (r: u32)
        requires
            sum_skeins(self.inventory@) <= u32::MAX,
        ensures
            r == sum_skeins(self.inventory@),
    {
        let ghost iv = self.inventory@;
        let mut total: u32 = 0;
        let mut i: usize = 0;
        assert(iv.take(0) =~= Seq::<(Seq<char>, EntryModel)>::empty());
        while i < self.inventory.len()
            invariant
                i <= iv.len(),
                iv == self.inventory@,
                sum_skeins(iv) <= u32::MAX,
                total == sum_skeins(iv.take(i as int)),
            decreases iv.len() - i,
        {
            let (_code, entry) = self.inventory.at(i);
            assert(iv.take(i + 1).drop_last() == iv.take(i as int));
            assert(iv.take(i + 1).last() == iv[i as int]);
            proof {
                lemma_sum_skeins_prefix(iv, i + 1);
            }
            total = total + entry.skeins;
            i = i + 1;
        }
        assert(iv.take(iv.len() as int) == iv);
        total
    }

    /// All bobbins and skeins in the inventory.
    pub fn total_units(&self) -> (r: u32)
        requires
            sum_bobbins(self.inventory@) + sum_skeins(self.inventory@) <= u32::MAX,
        ensures
            r == sum_bobbins(self.inventory@) + sum_skeins(self.inventory@),
    {
        self.total_bobbins() + self.total_skeins()
    }

    /// Whether the totals of bobbins and skeins fit in a `u32`, so that
    /// [`Self::total_units`] can be called.
    pub fn totals_fit(&self) -> (r: bool)
        ensures
            r == (sum_bobbins(self.inventory@) + sum_skeins(self.inventory@) <= u32::MAX),
    {
        let ghost iv = self.inventory@;
        let mut total: u64 = 0;
        let mut i: usize = 0;
        assert(iv.take(0) =~= Seq::<(Seq<char>, EntryModel)>::empty());
        while i < self.inventory.len()
            invariant
                i <= iv.len(),
                iv == self.inventory@,
                total <= u32::MAX,
                total == sum_bobbins(iv.take(i as int)) + sum_skeins(iv.take(i as int)),
            decreases iv.len() - i,
        {
            let (_code, entry) = self.inventory.at(i);
            assert(iv.take(i + 1).drop_last() == iv.take(i as int));
            assert(iv.take(i + 1).last() == iv[i as int]);
            total = total + entry.bobbins as u64 + entry.skeins as u64;
            if total > 0xffff_ffff {
                proof {
                    lemma_sum_bobbins_prefix(iv, i + 1);
                    lemma_sum_skeins_prefix(iv, i + 1);
                }
                return false;
            }
            i = i + 1;
        }
        assert(iv.take(iv.len() as int) == iv);
        true
    }

    /// The index of the selected colour in the catalogue, if a colour is
    /// selected and its code is in the catalogue (the first such colour).
    pub fn selected_index(&self) -> (r: Option<usize>)
        ensures
            r matches Some(i) ==> self.selected_code matches Some(code) && i == first_code_index(
                models(self.colors@),
                code@,
            ),
            r is None ==> (self.selected_code is None || first_code_index(
                models(self.colors@),
                self.selected_code->0@,
            ) < 0),
    {
        match &self.selected_code {
            None => None,
            Some(code) => {
                let ghost cm = models(self.colors@);
                let mut i: usize = 0;
                while i < self.colors.len()
                    invariant
                        i <= self.colors.len(),
                        cm == models(self.colors@),
                        self.selected_code is Some,
                        self.selected_code->0@ == code@,
                        forall|j: int| 0 <= j < i ==> (#[trigger] cm[j]).code != code@,
                    decreases self.colors.len() - i,
                {
                    assert(cm[i as int] == self.colors@[i as int]@);
                    if self.colors[i].code == *code {
                        proof {
                            lemma_first_code_index(cm, code@, i as int);
                            assert(self.selected_code->0@ == code@);
                        }
                        return Some(i);
                    }
                    i = i + 1;
                }
                proof {
                    lemma_first_code_index(cm, code@, i as int);
                }
                None
            },
        }
    }

    /// The selected colour, if a colour is selected and its code is in the
    /// catalogue.
    pub fn selected_color(&self) -> (r: Option<&DmcColor>)
        ensures
            r matches Some(c) ==> self.selected_code matches Some(code) && first_code_index(
                models(self.colors@),
                code@,
            ) >= 0 && c@ == models(self.colors@)[first_code_index(models(self.colors@), code@)],
            r is None ==> (self.selected_code is None || first_code_index(
                models(self.colors@),
                self.selected_code->0@,
            ) < 0),
    {
        match self.selected_index() {
            Some(i) => {
                proof {
                    lemma_first_code_range(models(self.colors@), self.selected_code->0@);
                }
                Some(&self.colors[i])
            },
            None => None,
        }
    }

    /// The colours that the collection list shows: those passing the filter
    /// whose code, name or note contains the search text (all in lower case,
    /// the search text and the note trimmed), in catalogue order.
    pub fn visible_colors(&self) -> (r: Vec<DmcColor>)
        requires
            colors_filter_safe(models(self.colors@), self.inventory@, self.filter_mode),
        ensures
            models(r@) == visible_spec(
                models(self.colors@),
                self.inventory@,
                lowercase_of(trim(self.search@)),
                self.filter_mode,
            ),
            trim(self.search@).len() == 0 ==> r@.len() == count_matching(
                models(self.colors@),
                self.inventory@,
                self.filter_mode,
            ),
            trim(self.search@).len() == 0 && self.filter_mode == FilterMode::All ==> models(r@) == models(
                self.colors@,
            ),
    {
        let search = chars_of(self.search.as_str());
        let t = trimmed(search.as_slice());
        let t_str = string_of(t.as_slice());
        let query_str = to_lowercase(t_str.as_str());
        let query = chars_of(query_str.as_str());
        let ghost q = query@;
        let ghost cm = models(self.colors@);
        let mut visible: Vec<DmcColor> = Vec::new();
        let mut i: usize = 0;
        assert(cm.take(0) =~= Seq::<ColorModel>::empty());
        assert(models(visible@) =~= Seq::<ColorModel>::empty());
        while i < self.colors.len()
            invariant
                i <= self.colors.len(),
                cm == models(self.colors@),
                q == lowercase_of(trim(self.search@)),
                query@ == q,
                colors_filter_safe(cm, self.inventory@, self.filter_mode),
                models(visible@) == visible_spec(cm.take(i as int), self.inventory@, q, self.filter_mode),
            decreases self.colors.len() - i,
        {
            assert(cm.take(i + 1).drop_last() == cm.take(i as int));
            assert(cm.take(i + 1).last() == cm[i as int]);
            let color = &self.colors[i];
            let entry = self.entry_for(color.code.as_str());
            let notes_chars = chars_of(entry.notes.as_str());
            let notes_t = trimmed(notes_chars.as_slice());
            let notes_s = string_of(notes_t.as_slice());
            let notes_l = to_lowercase(notes_s.as_str());
            let code_l = to_lowercase(color.code.as_str());
            let name_l = to_lowercase(color.name.as_str());
            let matches_query = query.len() == 0 || contains_chars(
                chars_of(code_l.as_str()).as_slice(),
                query.as_slice(),
            ) || contains_chars(chars_of(name_l.as_str()).as_slice(), query.as_slice())
                || contains_chars(chars_of(notes_l.as_str()).as_slice(), query.as_slice());
            assert(filter_safe(self.filter_mode, entry_of(self.inventory@, cm[i as int].code)));
            let matches = matches_filter(self.filter_mode, &entry);
            let ghost before = models(visible@);
            if matches_query && matches {
                visible.push(color.copy());
                assert(models(visible@) =~= before.push(color@));
            }
            i = i + 1;
        }
        assert(cm.take(self.colors.len() as int) == cm);
        proof {
            if trim(self.search@).len() == 0 {
                assert(q =~= Seq::<char>::empty());
                lemma_visible_blank(cm, self.inventory@, self.filter_mode);
                lemma_visible_all(cm, self.inventory@);
            }
        }
        visible
    }
}

} // verus!
