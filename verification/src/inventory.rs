//! What the user owns of each colour: counts of bobbins and skeins and a
//! note, kept per canonical colour code.
use vstd::prelude::*;
use crate::text::{all_ws, chars_of, trim_range, lemma_trim_empty_iff};

verus! {

/// An inventory entry as plain values.
pub struct EntryModel {
    pub bobbins: u32,
    pub skeins: u32,
    pub notes: Seq<char>,
}

/// How many bobbins and skeins of one colour are owned, and a note on it.
#[derive(Clone, Debug)]
pub struct InventoryEntry {
    pub bobbins: u32,
    pub skeins: u32,
    pub notes: String,
}

impl View for InventoryEntry {
    type V = EntryModel;

    open spec fn view(&self) -> EntryModel {
        EntryModel { bobbins: self.bobbins, skeins: self.skeins, notes: self.notes@ }
    }
}

/// The entry of a colour that nothing has been recorded for.
pub open spec fn empty_entry() -> EntryModel {
    EntryModel { bobbins: 0, skeins: 0, notes: Seq::empty() }
}

/// Nothing is recorded: no bobbins, no skeins, and a note of white space only.
pub open spec fn entry_is_empty(e: EntryModel) -> bool {
    e.bobbins == 0 && e.skeins == 0 && all_ws(e.notes)
}

/// At least one bobbin or skein is owned.
pub open spec fn owned(e: EntryModel) -> bool {
    e.bobbins > 0 || e.skeins > 0
}

/// The bobbins and skeins of an entry together fit in a `u32`.
pub open spec fn units_fit(e: EntryModel) -> bool {
    e.bobbins + e.skeins <= u32::MAX
}

impl Default for InventoryEntry {
    fn default() -> (r: Self)
        ensures
            r@ == empty_entry(),
    {
        InventoryEntry { bobbins: 0, skeins: 0, notes: String::new() }
    }
}

impl InventoryEntry {
    /// A copy of this entry.
    pub fn copy(&self) -> (r: InventoryEntry)
        ensures
            r@ == self@,
    {
        InventoryEntry { bobbins: self.bobbins, skeins: self.skeins, notes: self.notes.clone() }
    }

    /// Bobbins and skeins together.
    pub fn total_units(&self) -> (r: u32)
        requires
            units_fit(self@),
        ensures
            r == self.bobbins + self.skeins,
    {
        self.bobbins + self.skeins
    }

    /// The note is white space only.
    pub fn is_empty_note(&self) -> (r: bool)
        ensures
            r == all_ws(self.notes@),
    {
        let cs = chars_of(self.notes.as_str());
        let (a, b) = trim_range(cs.as_slice());
        proof {
            lemma_trim_empty_iff(cs@, a as int, b as int);
        }
        a == b
    }

    /// Nothing is recorded in this entry.
    pub fn is_empty(&self) -> (r: bool)
        ensures
            r == entry_is_empty(self@),
    {
        let cs = chars_of(self.notes.as_str());
        let (a, b) = trim_range(cs.as_slice());
        proof {
            lemma_trim_empty_iff(cs@, a as int, b as int);
        }
        self.bobbins == 0 && self.skeins == 0 && a == b
    }
}

/// At least one bobbin or skein of the entry is owned.
pub fn is_owned(entry: &InventoryEntry) -> (r: bool)
    ensures
        r == owned(entry@),
{
    entry.bobbins > 0 || entry.skeins > 0
}

/// `value` moved by `delta`, stopping at 0 and at `u32::MAX`.
pub open spec fn adjusted(value: u32, delta: i32) -> u32 {
    if delta < 0 {
        if value + delta < 0 {
            0
        } else {
            (value + delta) as u32
        }
    } else if value + delta > u32::MAX {
        u32::MAX
    } else {
        (value + delta) as u32
    }
}

/// `value` moved by `delta`, saturating at both ends.
pub fn adjust_u32(value: u32, delta: i32) -> (r: u32)
    ensures
        r == adjusted(value, delta),
{
    if delta < 0 {
        let down: u32 = if delta == i32::MIN {
            0x8000_0000
        } else {
            (-delta) as u32
        };
        value.saturating_sub(down)
    } else {
        value.saturating_add(delta as u32)
    }
}

/// Moving a count by `delta` and back by `-delta` gives it back, when the
/// first move stayed within `0..=u32::MAX`.
pub proof fn lemma_adjust_undo(value: u32, delta: i32)
    requires
        delta > i32::MIN,
        0 <= value + delta <= u32::MAX,
    ensures
        adjusted(adjusted(value, delta), (-delta) as i32) == value,
{
}

// ---------------------------------------------------------------------------
// The inventory: entries by colour code
// ---------------------------------------------------------------------------

/// The keys of the pairs are distinct.
pub open spec fn keys_distinct(s: Seq<(Seq<char>, EntryModel)>) -> bool {
    forall|i: int, j: int| 0 <= i < j < s.len() ==> (#[trigger] s[i]).0 != (#[trigger] s[j]).0
}

/// The index of the pair with key `k`, or `-1`.
pub open spec fn key_index(s: Seq<(Seq<char>, EntryModel)>, k: Seq<char>) -> int
    decreases s.len(),
{
    if s.len() == 0 {
        -1
    } else if s.last().0 == k {
        s.len() - 1
    } else {
        key_index(s.drop_last(), k)
    }
}

/// The entry stored under `k`.
pub open spec fn lookup(s: Seq<(Seq<char>, EntryModel)>, k: Seq<char>) -> Option<EntryModel> {
    let i = key_index(s, k);
    if i >= 0 {
        Some(s[i].1)
    } else {
        None
    }
}

pub proof fn lemma_key_index(s: Seq<(Seq<char>, EntryModel)>, k: Seq<char>)
    ensures
        -1 <= key_index(s, k) < s.len(),
        key_index(s, k) >= 0 ==> s[key_index(s, k)].0 == k,
        key_index(s, k) < 0 ==> forall|i: int| 0 <= i < s.len() ==> (#[trigger] s[i]).0 != k,
    decreases s.len(),
{
    if s.len() > 0 && s.last().0 != k {
        lemma_key_index(s.drop_last(), k);
        if key_index(s, k) < 0 {
            assert forall|i: int| 0 <= i < s.len() implies (#[trigger] s[i]).0 != k by {
                if i < s.len() - 1 {
                    assert(s[i] == s.drop_last()[i]);
                }
            }
        }
    }
}

pub proof fn lemma_key_index_at(s: Seq<(Seq<char>, EntryModel)>, k: Seq<char>, i: int)
    requires
        keys_distinct(s),
        0 <= i < s.len(),
        s[i].0 == k,
    ensures
        key_index(s, k) == i,
{
    lemma_key_index(s, k);
    if key_index(s, k) != i {
        let j = key_index(s, k);
        if j < i {
            assert(s[j].0 != s[i].0);
        } else {
            assert(s[i].0 != s[j].0);
        }
    }
}

/// `s` with `e` stored under `k`: in place of the entry there, or appended.
pub open spec fn upsert(s: Seq<(Seq<char>, EntryModel)>, k: Seq<char>, e: EntryModel) -> Seq<(Seq<char>, EntryModel)> {
    let i = key_index(s, k);
    if i >= 0 {
        s.update(i, (k, e))
    } else {
        s.push((k, e))
    }
}

/// `s` without the entry stored under `k`.
pub open spec fn remove_key(s: Seq<(Seq<char>, EntryModel)>, k: Seq<char>) -> Seq<(Seq<char>, EntryModel)> {
    let i = key_index(s, k);
    if i >= 0 {
        s.remove(i)
    } else {
        s
    }
}

/// With distinct keys, the entry under `k` is the one in the pair with key `k`.
pub proof fn lemma_lookup_at(s: Seq<(Seq<char>, EntryModel)>, k: Seq<char>)
    requires
        keys_distinct(s),
    ensures
        forall|i: int| 0 <= i < s.len() && (#[trigger] s[i]).0 == k ==> lookup(s, k) == Some(s[i].1),
        (forall|i: int| 0 <= i < s.len() ==> (#[trigger] s[i]).0 != k) ==> lookup(s, k) is None,
{
    lemma_key_index(s, k);
    assert forall|i: int| 0 <= i < s.len() && (#[trigger] s[i]).0 == k implies lookup(s, k) == Some(s[i].1) by {
        lemma_key_index_at(s, k, i);
    }
    if forall|i: int| 0 <= i < s.len() ==> (#[trigger] s[i]).0 != k {
        if key_index(s, k) >= 0 {
            assert(s[key_index(s, k)].0 == k);
        }
    }
}

/// Storing under `k` keeps the keys distinct, gives `e` under `k`, and
/// leaves every other key as it was.
pub proof fn lemma_lookup_upsert(s: Seq<(Seq<char>, EntryModel)>, k: Seq<char>, e: EntryModel, k2: Seq<char>)
    requires
        keys_distinct(s),
    ensures
        keys_distinct(upsert(s, k, e)),
        lookup(upsert(s, k, e), k2) == if k2 == k {
            Some(e)
        } else {
            lookup(s, k2)
        },
{
    lemma_key_index(s, k);
    let u = upsert(s, k, e);
    let i = key_index(s, k);
    assert forall|a: int, b: int| 0 <= a < b < u.len() implies (#[trigger] u[a]).0 != (#[trigger] u[b]).0 by {
        if i >= 0 {
            assert(u[a].0 == s[a].0 && u[b].0 == s[b].0);
        } else if b == s.len() {
            assert(u[a] == s[a]);
        } else {
            assert(u[a] == s[a] && u[b] == s[b]);
        }
    }
    lemma_lookup_at(u, k2);
    lemma_lookup_at(s, k2);
    if k2 == k {
        if i >= 0 {
            assert(u[i] == (k, e));
        } else {
            assert(u[s.len() as int] == (k, e));
        }
    } else {
        if exists|j: int| 0 <= j < s.len() && (#[trigger] s[j]).0 == k2 {
            let j = choose|j: int| 0 <= j < s.len() && (#[trigger] s[j]).0 == k2;
            assert(u[j] == s[j]);
        } else {
            assert forall|j: int| 0 <= j < u.len() implies (#[trigger] u[j]).0 != k2 by {
                if j < s.len() && !(i >= 0 && j == i) {
                    assert(u[j] == s[j]);
                }
            }
        }
    }
}

/// Removing the entry under `k` keeps the keys distinct, leaves nothing under
/// `k`, and leaves every other key as it was.
pub proof fn lemma_lookup_remove(s: Seq<(Seq<char>, EntryModel)>, k: Seq<char>, k2: Seq<char>)
    requires
        keys_distinct(s),
    ensures
        keys_distinct(remove_key(s, k)),
        lookup(remove_key(s, k), k2) == if k2 == k {
            None
        } else {
            lookup(s, k2)
        },
{
    lemma_key_index(s, k);
    let r = remove_key(s, k);
    let i = key_index(s, k);
    if i >= 0 {
        assert forall|a: int, b: int| 0 <= a < b < r.len() implies (#[trigger] r[a]).0 != (#[trigger] r[b]).0 by {
            let aa = if a < i { a } else { a + 1 };
            let bb = if b < i { b } else { b + 1 };
            assert(r[a] == s[aa] && r[b] == s[bb]);
        }
        lemma_lookup_at(r, k2);
        lemma_lookup_at(s, k2);
        if k2 == k {
            assert forall|j: int| 0 <= j < r.len() implies (#[trigger] r[j]).0 != k2 by {
                let jj = if j < i { j } else { j + 1 };
                assert(r[j] == s[jj]);
                assert(jj != i);
            }
        } else {
            if exists|j: int| 0 <= j < s.len() && (#[trigger] s[j]).0 == k2 {
                let j = choose|j: int| 0 <= j < s.len() && (#[trigger] s[j]).0 == k2;
                let jr = if j < i { j } else { j - 1 };
                assert(r[jr] == s[j]);
            } else {
                assert forall|j: int| 0 <= j < r.len() implies (#[trigger] r[j]).0 != k2 by {
                    let jj = if j < i { j } else { j + 1 };
                    assert(r[j] == s[jj]);
                }
            }
        }
    } else {
        lemma_lookup_at(s, k2);
        if k2 == k {
        }
    }
}

/// The sum of the bobbins of the entries.
pub open spec fn sum_bobbins(s: Seq<(Seq<char>, EntryModel)>) -> nat
    decreases s.len(),
{
    if s.len() == 0 {
        0
    } else {
        sum_bobbins(s.drop_last()) + s.last().1.bobbins as nat
    }
}

/// The sum of the skeins of the entries.
pub open spec fn sum_skeins(s: Seq<(Seq<char>, EntryModel)>) -> nat
    decreases s.len(),
{
    if s.len() == 0 {
        0
    } else {
        sum_skeins(s.drop_last()) + s.last().1.skeins as nat
    }
}

/// Entries by colour code, each code at most once, in the order they were
/// first stored.
pub struct Inventory {
    entries: Vec<(String, InventoryEntry)>,
}

impl View for Inventory {
    type V = Seq<(Seq<char>, EntryModel)>;

    closed spec fn view(&self) -> Seq<(Seq<char>, EntryModel)> {
        self.entries@.map_values(|p: (String, InventoryEntry)| (p.0@, p.1@))
    }
}

impl Inventory {
    #[verifier::type_invariant]
    closed spec fn wf(self) -> bool {
        keys_distinct(self@)
    }

    /// An empty inventory.
    pub fn new() -> (r: Inventory)
        ensures
            r@ == Seq::<(Seq<char>, EntryModel)>::empty(),
    {
        let r = Inventory { entries: Vec::new() };
        assert(r@ =~= Seq::<(Seq<char>, EntryModel)>::empty());
        r
    }

    /// The number of entries (no two of which share a code).
    pub fn len(&self) -> (r: usize)
        ensures
            r == self@.len(),
            keys_distinct(self@),
    {
        proof {
            use_type_invariant(self);
        }
        self.entries.len()
    }

    /// The code and entry at position `i`.
    pub fn at(&self, i: usize) -> (r: (&String, &InventoryEntry))
        requires
            i < self@.len(),
        ensures
            (r.0@, r.1@) == self@[i as int],
    {
        let p = &self.entries[i];
        (&p.0, &p.1)
    }

    /// The position of the entry stored under `key`, if there is one.
    pub fn position(&self, key: &String) -> (r: Option<usize>)
        ensures
            r matches Some(i) ==> i == key_index(self@, key@) && i < self@.len() && self@[i as int].0 == key@,
            r is None ==> key_index(self@, key@) == -1,
    {
        proof {
            use_type_invariant(self);
            lemma_key_index(self@, key@);
        }
        let mut i: usize = 0;
        while i < self.entries.len()
            invariant
                i <= self@.len(),
                self@.len() == self.entries.len(),
                keys_distinct(self@),
                forall|j: int| 0 <= j < i ==> (#[trigger] self@[j]).0 != key@,
            decreases self.entries.len() - i,
        {
            assert(self@[i as int].0 == self.entries@[i as int].0@);
            if self.entries[i].0 == *key {
                proof {
                    lemma_key_index_at(self@, key@, i as int);
                }
                return Some(i);
            }
            i = i + 1;
        }
        proof {
            if key_index(self@, key@) >= 0 {
                assert(self@[key_index(self@, key@)].0 == key@);
            }
        }
        None
    }

    /// The entry stored under `key`, if there is one.
    pub fn get(&self, key: &String) -> (r: Option<&InventoryEntry>)
        ensures
            r matches Some(e) ==> lookup(self@, key@) == Some(e@),
            r is None ==> lookup(self@, key@) is None,
    {
        match self.position(key) {
            Some(i) => {
                assert(self@[i as int].1 == self.entries@[i as int].1@);
                Some(&self.entries[i].1)
            },
            None => None,
        }
    }

    /// Stores `entry` under `key`: in place of the entry already stored
    /// there, or as a new last entry.
    pub fn insert(&mut self, key: String, entry: InventoryEntry)
        ensures
            key_index(old(self)@, key@) >= 0 ==> final(self)@ == old(self)@.update(
                key_index(old(self)@, key@),
                (key@, entry@),
            ),
            key_index(old(self)@, key@) < 0 ==> final(self)@ == old(self)@.push((key@, entry@)),
    {
        proof {
            use_type_invariant(&*self);
        }
        let ghost old_view = self@;
        let ghost pair = (key@, entry@);
        match self.position(&key) {
            Some(i) => {
                proof {
                    lemma_key_index(old_view, key@);
                }
                let mut entries: Vec<(String, InventoryEntry)> = Vec::new();
                std::mem::swap(&mut entries, &mut self.entries);
                entries.set(i, (key, entry));
                assert(entries@.map_values(|p: (String, InventoryEntry)| (p.0@, p.1@)) =~= old_view.update(i as int, pair));
                assert forall|a: int, b: int| 0 <= a < b < old_view.len() implies (#[trigger] old_view.update(i as int, pair)[a]).0 != (#[trigger] old_view.update(i as int, pair)[b]).0 by {
                    if a == i as int {
                        assert(old_view[a].0 == pair.0);
                    } else if b == i as int {
                        assert(old_view[b].0 == pair.0);
                    }
                }
                self.entries = entries;
            },
            None => {
                proof {
                    lemma_key_index(old_view, key@);
                }
                let mut entries: Vec<(String, InventoryEntry)> = Vec::new();
                std::mem::swap(&mut entries, &mut self.entries);
                entries.push((key, entry));
                assert(entries@.map_values(|p: (String, InventoryEntry)| (p.0@, p.1@)) =~= old_view.push(pair));
                assert forall|a: int, b: int| 0 <= a < b < old_view.len() + 1 implies (#[trigger] old_view.push(pair)[a]).0 != (#[trigger] old_view.push(pair)[b]).0 by {
                    if b == old_view.len() {
                        assert(old_view[a].0 != pair.0);
                    } else {
                        assert(old_view[a].0 != old_view[b].0);
                    }
                }
                self.entries = entries;
            },
        }
    }

    /// Removes the entry stored under `key`, if there is one.
    pub fn remove(&mut self, key: &String)
        ensures
            key_index(old(self)@, key@) >= 0 ==> final(self)@ == old(self)@.remove(
                key_index(old(self)@, key@),
            ),
            key_index(old(self)@, key@) < 0 ==> final(self)@ == old(self)@,
    {
        proof {
            use_type_invariant(&*self);
        }
        let ghost old_view = self@;
        match self.position(key) {
            Some(i) => {
                let mut entries: Vec<(String, InventoryEntry)> = Vec::new();
                std::mem::swap(&mut entries, &mut self.entries);
                entries.remove(i);
                assert(entries@.map_values(|p: (String, InventoryEntry)| (p.0@, p.1@)) =~= old_view.remove(i as int));
                assert forall|a: int, b: int| 0 <= a < b < old_view.len() - 1 implies (#[trigger] old_view.remove(i as int)[a]).0 != (#[trigger] old_view.remove(i as int)[b]).0 by {
                    let aa = if a < i { a } else { a + 1 };
                    let bb = if b < i { b } else { b + 1 };
                    assert(old_view.remove(i as int)[a] == old_view[aa]);
                    assert(old_view.remove(i as int)[b] == old_view[bb]);
                    assert(old_view[aa].0 != old_view[bb].0);
                }
                self.entries = entries;
            },
            None => {},
        }
    }

    /// Removes every entry.
    pub fn clear(&mut self)
        ensures
            final(self)@ == Seq::<(Seq<char>, EntryModel)>::empty(),
    {
        self.entries = Vec::new();
        assert(self@ =~= Seq::<(Seq<char>, EntryModel)>::empty());
    }

}

} // verus!
