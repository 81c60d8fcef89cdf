use crate::ident::{generate_identifier, no_valid_identifiers, valid_identifier};
use crate::text::str_eq;
use vstd::prelude::*;

verus! {

/// What an entry is, as values: its name, its category and the identifier
/// that names its backing script.
pub ghost struct EntryView {
    pub name: Seq<char>,
    pub category: Seq<char>,
    pub filehash: Seq<char>,
}

/// One stored snippet.
pub struct MapEntry {
    pub name: String,
    pub category: String,
    pub filehash: String,
}

impl View for MapEntry {
    type V = EntryView;

    open spec fn view(&self) -> EntryView {
        EntryView { name: self.name@, category: self.category@, filehash: self.filehash@ }
    }
}

impl MapEntry {
    /// A field-for-field copy.
    pub fn copied(&self) -> (r: MapEntry)
        ensures
            r@ == self@,
    {
        MapEntry {
            name: self.name.clone(),
            category: self.category.clone(),
            filehash: self.filehash.clone(),
        }
    }
}

/// Errors reported by the store and the front ends.
#[derive(PartialEq, Eq, Structural, Debug, Clone, Copy)]
pub enum StoreError {
    NotFound,
    DuplicateName,
    IdentifierSpaceExhausted,
    InvalidSelection,
    Malformed,
    IdentifierCollision,
}

/// The category an entry gets: the one given, or `default` when none is.
pub open spec fn default_category(c: Seq<char>) -> Seq<char> {
    if c.len() == 0 {
        seq!['d', 'e', 'f', 'a', 'u', 'l', 't']
    } else {
        c
    }
}

/// The category set: every category that some entry has.
pub open spec fn has_category(s: Seq<EntryView>, c: Seq<char>) -> bool {
    exists|i: int| 0 <= i < s.len() && (#[trigger] s[i]).category == c
}

fn category_or_default(c: &str) -> (r: String)
    ensures
        r@ == default_category(c@),
{
    if c.unicode_len() == 0 {
        let r = String::from_str("default");
        proof {
            reveal_strlit("default");
        }
        assert(r@ =~= default_category(c@));
        r
    } else {
        String::from_str(c)
    }
}

/// Names and identifiers are pairwise distinct; names and categories are
/// not empty.
pub open spec fn store_wf(s: Seq<EntryView>) -> bool {
    &&& forall|i: int, j: int|
        0 <= i < s.len() && 0 <= j < s.len() && i != j ==> #[trigger] s[i].name != #[trigger] s[j].name
    &&& forall|i: int, j: int|
        0 <= i < s.len() && 0 <= j < s.len() && i != j ==> #[trigger] s[i].filehash
            != #[trigger] s[j].filehash
    &&& forall|i: int| 0 <= i < s.len() ==> entry_fields_present(#[trigger] s[i])
}

/// Name, category and identifier are all non-empty.
pub open spec fn entry_fields_present(e: EntryView) -> bool {
    e.name.len() > 0 && e.category.len() > 0 && e.filehash.len() > 0
}

pub open spec fn has_name(s: Seq<EntryView>, name: Seq<char>) -> bool {
    exists|i: int| 0 <= i < s.len() && (#[trigger] s[i]).name == name
}

/// The entry called `name`, if any.
pub open spec fn lookup(s: Seq<EntryView>, name: Seq<char>) -> Option<EntryView> {
    if has_name(s, name) {
        Some(s[choose|i: int| 0 <= i < s.len() && (#[trigger] s[i]).name == name])
    } else {
        None
    }
}

/// In a valid store, after an entry is added with category `cat`, looking up
/// its name finds it, with category `cat` (or `default` for an empty `cat`).
pub proof fn lemma_add_then_find(s: Seq<EntryView>, e: EntryView, cat: Seq<char>)
    requires
        store_wf(s.push(e)),
        e.category == default_category(cat),
    ensures
        lookup(s.push(e), e.name) == Some(e),
        lookup(s.push(e), e.name) matches Some(f) && f.category == default_category(cat),
{
    let t = s.push(e);
    assert(t[s.len() as int] == e);
    assert(has_name(t, e.name));
    let i = choose|i: int| 0 <= i < t.len() && (#[trigger] t[i]).name == e.name;
    if i != s.len() {
        assert(t[i].name != t[s.len() as int].name);
    }
}

/// In a valid store, once the entry at position `i` is removed, looking up
/// its name finds nothing.
pub proof fn lemma_remove_then_find(s: Seq<EntryView>, i: int)
    requires
        store_wf(s),
        0 <= i < s.len(),
    ensures
        lookup(s.remove(i), s[i].name) is None,
{
    let t = s.remove(i);
    if has_name(t, s[i].name) {
        let k = choose|k: int| 0 <= k < t.len() && (#[trigger] t[k]).name == s[i].name;
        let k2 = if k < i { k } else { k + 1 };
        assert(t[k] == s[k2]);
    }
}

/// The entries of category `c`, in store order.
pub open spec fn in_category(s: Seq<EntryView>, c: Seq<char>) -> Seq<EntryView>
    decreases s.len(),
{
    if s.len() == 0 {
        Seq::empty()
    } else {
        let rest = in_category(s.drop_last(), c);
        if s.last().category == c {
            rest.push(s.last())
        } else {
            rest
        }
    }
}

pub open spec fn has_filehash(s: Seq<EntryView>, id: Seq<char>) -> bool {
    exists|i: int| 0 <= i < s.len() && (#[trigger] s[i]).filehash == id
}

pub open spec fn entries_view(v: Seq<MapEntry>) -> Seq<EntryView> {
    v.map_values(|e: MapEntry| e@)
}

/// The ordered collection of entries.
pub struct Store {
    entries: Vec<MapEntry>,
}

impl View for Store {
    type V = Seq<EntryView>;

    closed spec fn view(&self) -> Seq<EntryView> {
        entries_view(self.entries@)
    }
}

impl Store {
    pub open spec fn wf(&self) -> bool {
        store_wf(self@)
    }

    /// An empty store.
    pub fn new() -> (r: Store)
        ensures
            r@ == Seq::<EntryView>::empty(),
            r.wf(),
    {
        let r = Store { entries: Vec::new() };
        assert(r@ =~= Seq::<EntryView>::empty());
        r
    }

    /// A store holding `entries` in order, if they meet the store's invariant.
    pub fn from_entries(entries: Vec<MapEntry>) -> (r: Result<Store, StoreError>)
        ensures
            store_wf(entries_view(entries@)) <==> r is Ok,
            r matches Ok(st) ==> st@ == entries_view(entries@),
            r matches Err(e) ==> e == StoreError::Malformed,
    {
        let ghost s = entries_view(entries@);
        let n = entries.len();
        let mut i: usize = 0;
        while i < n
            invariant
                n == entries@.len(),
                s == entries_view(entries@),
                i <= n,
                store_wf(s.take(i as int)),
            decreases n - i,
        {
            let e = &entries[i];
            proof {
                assert(s[i as int] == e@);
            }
            if e.name.as_str().unicode_len() == 0 || e.category.as_str().unicode_len() == 0
                || e.filehash.as_str().unicode_len() == 0 {
                assert(!store_wf(s)) by {
                    assert(!entry_fields_present(s[i as int]));
                }
                return Err(StoreError::Malformed);
            }
            let mut j: usize = 0;
            while j < i
                invariant
                    n == entries@.len(),
                    s == entries_view(entries@),
                    i < n,
                    j <= i,
                    e@ == s[i as int],
                    forall|k: int| 0 <= k < j ==> s[k].name != s[i as int].name && s[k].filehash != s[i as int].filehash,
                decreases i - j,
            {
                let f = &entries[j];
                proof {
                    assert(s[j as int] == f@);
                }
                if str_eq(f.name.as_str(), e.name.as_str()) || str_eq(f.filehash.as_str(), e.filehash.as_str()) {
                    assert(!store_wf(s)) by {
                        assert(s[j as int].name == s[i as int].name || s[j as int].filehash == s[i as int].filehash);
                    }
                    return Err(StoreError::Malformed);
                }
                j += 1;
            }
            proof {
                let t = s.take(i as int);
                let t1 = s.take(i + 1);
                assert forall|a: int, b: int| 0 <= a < t1.len() && 0 <= b < t1.len() && a != b implies
                    #[trigger] t1[a].name != #[trigger] t1[b].name && t1[a].filehash != t1[b].filehash by {
                    if a < i && b < i {
                        assert(t1[a] == t[a] && t1[b] == t[b]);
                    }
                }
                assert forall|a: int| 0 <= a < t1.len() implies entry_fields_present(#[trigger] t1[a]) by {
                    if a < i {
                        assert(t1[a] == t[a]);
                    }
                }
            }
            i += 1;
        }
        assert(s.take(n as int) =~= s);
        Ok(Store { entries })
    }

    /// The number of entries.
    pub fn len(&self) -> (r: usize)
        ensures
            r == self@.len(),
    {
        self.entries.len()
    }

    /// The entry at a position, in store order.
    pub fn get(&self, i: usize) -> (r: &MapEntry)
        requires
            i < self@.len(),
        ensures
            r@ == self@[i as int],
    {
        &self.entries[i]
    }

    /// The position of the entry called `name`, if there is one.
    pub fn position(&self, name: &str) -> (r: Option<usize>)
        ensures
            r is None <==> !has_name(self@, name@),
            r matches Some(i) ==> i < self@.len() && self@[i as int].name == name@,
            r matches Some(i) ==> forall|k: int| 0 <= k < i ==> self@[k].name != name@,
    {
        let mut i: usize = 0;
        while i < self.entries.len()
            invariant
                i <= self@.len(),
                self@.len() == self.entries@.len(),
                forall|k: int| 0 <= k < i ==> self@[k].name != name@,
            decreases self.entries.len() - i,
        {
            proof {
                assert(self@[i as int] == self.entries@[i as int]@);
            }
            if str_eq(self.entries[i].name.as_str(), name) {
                return Some(i);
            }
            i += 1;
        }
        None
    }

    /// Whether an entry is called `name`.
    pub fn check_entry_exists(&self, name: &str) -> (r: bool)
        ensures
            r == has_name(self@, name@),
    {
        self.position(name).is_some()
    }

    /// The entry called `name`, if there is one.
    pub fn get_entry_by_name(&self, name: &str) -> (r: Option<&MapEntry>)
        ensures
            r is None <==> !has_name(self@, name@),
            r is None <==> lookup(self@, name@) is None,
            r matches Some(e) ==> e@.name == name@ && self@.contains(e@),
            r matches Some(e) ==> (self.wf() ==> lookup(self@, name@) == Some(e@)),
    {
        match self.position(name) {
            Some(i) => {
                proof {
                    assert(self@[i as int] == self.entries@[i as int]@);
                    if self.wf() {
                        let k = choose|k: int| 0 <= k < self@.len() && (#[trigger] self@[k]).name == name@;
                        if k != i {
                            assert(self@[k].name != self@[i as int].name);
                        }
                    }
                }
                Some(&self.entries[i])
            },
            None => None,
        }
    }

    /// Whether some entry already uses the identifier `id`.
    pub fn check_sequence_exists(&self, id: &str) -> (r: bool)
        ensures
            r == has_filehash(self@, id@),
    {
        let mut i: usize = 0;
        while i < self.entries.len()
            invariant
                i <= self@.len(),
                self@.len() == self.entries@.len(),
                forall|k: int| 0 <= k < i ==> self@[k].filehash != id@,
            decreases self.entries.len() - i,
        {
            proof {
                assert(self@[i as int] == self.entries@[i as int]@);
            }
            if str_eq(self.entries[i].filehash.as_str(), id) {
                return true;
            }
            i += 1;
        }
        false
    }

    /// Appends an entry under a given identifier.
    pub fn add_entry(&mut self, name: &str, category: &str, id: &str) -> (r: Result<MapEntry, StoreError>)
        requires
            old(self).wf(),
            name@.len() > 0,
            valid_identifier(id@),
        ensures
            final(self).wf(),
            has_name(old(self)@, name@) ==> r == Err::<MapEntry, StoreError>(StoreError::DuplicateName),
            !has_name(old(self)@, name@) && has_filehash(old(self)@, id@) ==> r == Err::<
                MapEntry,
                StoreError,
            >(StoreError::IdentifierCollision),
            !has_name(old(self)@, name@) && !has_filehash(old(self)@, id@) ==> r is Ok,
            r is Err ==> final(self)@ == old(self)@,
            r matches Ok(e) ==> e@ == (EntryView {
                name: name@,
                category: default_category(category@),
                filehash: id@,
            }) && final(self)@ == old(self)@.push(e@),
    {
        if self.check_entry_exists(name) {
            return Err(StoreError::DuplicateName);
        }
        if self.check_sequence_exists(id) {
            return Err(StoreError::IdentifierCollision);
        }
        let e = MapEntry {
            name: String::from_str(name),
            category: category_or_default(category),
            filehash: String::from_str(id),
        };
        let r = e.copied();
        let ghost before = self@;
        self.entries.push(e);
        proof {
            assert(self@ =~= before.push(r@));
            assert forall|i: int| 0 <= i < before.len() implies #[trigger] self@[i] == before[i] by {}
            assert(self@[before.len() as int] == r@);
            if category@.len() == 0 {
                assert(r@.category.len() == 7);
            }
        }
        Ok(r)
    }

    /// Adds an entry called `name` under a freshly allocated identifier.
    pub fn add(&mut self, name: &str, category: &str) -> (r: Result<MapEntry, StoreError>)
        requires
            old(self).wf(),
            name@.len() > 0,
        ensures
            final(self).wf(),
            has_name(old(self)@, name@) <==> r == Err::<MapEntry, StoreError>(StoreError::DuplicateName),
            r matches Err(e) ==> e == StoreError::DuplicateName || e
                == StoreError::IdentifierSpaceExhausted,
            !has_name(old(self)@, name@) && no_valid_identifiers(old(self)@) ==> r is Ok,
            r is Err ==> final(self)@ == old(self)@,
            r matches Ok(e) ==> e@.name == name@ && e@.category == default_category(category@)
                && valid_identifier(e@.filehash) && !has_filehash(old(self)@, e@.filehash)
                && final(self)@ == old(self)@.push(e@),
    {
        if self.check_entry_exists(name) {
            return Err(StoreError::DuplicateName);
        }
        match generate_identifier(self) {
            Ok(id) => self.add_entry(name, category, id.as_str()),
            Err(e) => Err(e),
        }
    }

    /// Removes the entry called `name` and hands it back.
    pub fn remove(&mut self, name: &str) -> (r: Result<MapEntry, StoreError>)
        requires
            old(self).wf(),
        ensures
            final(self).wf(),
            !has_name(old(self)@, name@) <==> r == Err::<MapEntry, StoreError>(StoreError::NotFound),
            r matches Err(e) ==> e == StoreError::NotFound && final(self)@ == old(self)@,
            r matches Ok(e) ==> e@.name == name@ && exists|i: int|
                0 <= i < old(self)@.len() && old(self)@[i] == e@ && final(self)@ == old(self)@.remove(i),
            !has_name(final(self)@, name@),
    {
        match self.position(name) {
            None => Err(StoreError::NotFound),
            Some(i) => {
                let ghost before = self@;
                let e = self.entries.remove(i);
                proof {
                    assert(self@ =~= before.remove(i as int));
                    assert(before[i as int] == e@);
                    assert forall|k: int| 0 <= k < self@.len() implies #[trigger] self@[k] == if k < i {
                        before[k]
                    } else {
                        before[k + 1]
                    } by {}
                    assert forall|a: int, b: int|
                        0 <= a < self@.len() && 0 <= b < self@.len() && a != b implies #[trigger] self@[a].name
                        != #[trigger] self@[b].name && self@[a].filehash != self@[b].filehash by {
                        let a2 = if a < i { a } else { a + 1 };
                        let b2 = if b < i { b } else { b + 1 };
                        assert(self@[a] == before[a2]);
                        assert(self@[b] == before[b2]);
                    }
                    assert forall|k: int| 0 <= k < self@.len() implies (#[trigger] self@[k]).name != name@ by {
                        let k2 = if k < i { k } else { k + 1 };
                        assert(self@[k] == before[k2]);
                    }
                }
                Ok(e)
            },
        }
    }

    /// Moves the entry called `name` to another category.
    pub fn set_category(&mut self, name: &str, category: &str) -> (r: Result<(), StoreError>)
        requires
            old(self).wf(),
        ensures
            final(self).wf(),
            !has_name(old(self)@, name@) <==> r is Err,
            r matches Err(e) ==> e == StoreError::NotFound && final(self)@ == old(self)@,
            r is Ok ==> exists|i: int|
                0 <= i < old(self)@.len() && old(self)@[i].name == name@ && final(self)@ == old(self)@.update(
                    i,
                    EntryView { category: default_category(category@), ..old(self)@[i] },
                ),
    {
        match self.position(name) {
            None => Err(StoreError::NotFound),
            Some(i) => {
                let ghost before = self@;
                let old_e = &self.entries[i];
                let e = MapEntry {
                    name: old_e.name.clone(),
                    category: category_or_default(category),
                    filehash: old_e.filehash.clone(),
                };
                proof {
                    assert(before[i as int] == self.entries@[i as int]@);
                }
                self.entries.set(i, e);
                proof {
                    let want = EntryView { category: default_category(category@), ..before[i as int] };
                    assert(self@ =~= before.update(i as int, want));
                    if category@.len() == 0 {
                        assert(want.category.len() == 7);
                    }
                }
                Ok(())
            },
        }
    }

    /// The distinct categories, each once.
    pub fn get_categories(&self) -> (r: Vec<String>)
        ensures
            forall|a: int, b: int| 0 <= a < b < r@.len() ==> r@[a]@ != r@[b]@,
            forall|c: Seq<char>| has_category(self@, c) <==> exists|k: int| 0 <= k < r@.len() && #[trigger] r@[k]@ == c,
    {
        let mut out: Vec<String> = Vec::new();
        let n = self.entries.len();
        let mut i: usize = 0;
        while i < n
            invariant
                n == self@.len(),
                n == self.entries@.len(),
                i <= n,
                forall|a: int, b: int| 0 <= a < b < out@.len() ==> out@[a]@ != out@[b]@,
                forall|c: Seq<char>| has_category(self@.take(i as int), c) <==> exists|k: int| 0 <= k < out@.len() && #[trigger] out@[k]@ == c,
            decreases n - i,
        {
            let cat = &self.entries[i].category;
            proof {
                assert(self@[i as int] == self.entries@[i as int]@);
            }
            let mut seen = false;
            let mut j: usize = 0;
            while j < out.len()
                invariant
                    j <= out@.len(),
                    !seen ==> forall|k: int| 0 <= k < j ==> out@[k]@ != cat@,
                    seen ==> exists|k: int| 0 <= k < out@.len() && #[trigger] out@[k]@ == cat@,
                decreases out.len() - j,
            {
                if str_eq(out[j].as_str(), cat.as_str()) {
                    seen = true;
                }
                j += 1;
            }
            let ghost before = out@;
            if !seen {
                out.push(cat.clone());
                proof {
                    assert forall|k: int| 0 <= k < before.len() implies #[trigger] out@[k] == before[k] by {}
                }
            }
            proof {
                let t = self@.take(i as int);
                let t1 = self@.take(i + 1);
                assert forall|c: Seq<char>| has_category(t1, c) <==> exists|k: int| 0 <= k < out@.len() && #[trigger] out@[k]@ == c by {
                    if has_category(t1, c) {
                        let w = choose|w: int| 0 <= w < t1.len() && (#[trigger] t1[w]).category == c;
                        if w < i {
                            assert(t[w] == t1[w]);
                            assert(has_category(t, c));
                            let k = choose|k: int| 0 <= k < before.len() && #[trigger] before[k]@ == c;
                            assert(out@[k] == before[k]);
                        } else if !seen {
                            assert(out@[before.len() as int]@ == c);
                        }
                    }
                    if exists|k: int| 0 <= k < out@.len() && #[trigger] out@[k]@ == c {
                        let k = choose|k: int| 0 <= k < out@.len() && #[trigger] out@[k]@ == c;
                        if k < before.len() {
                            assert(out@[k] == before[k]);
                            assert(has_category(t, c));
                            let w = choose|w: int| 0 <= w < t.len() && (#[trigger] t[w]).category == c;
                            assert(t1[w] == t[w]);
                        } else {
                            assert(t1[i as int].category == c);
                        }
                    }
                }
            }
            i += 1;
        }
        assert(self@.take(n as int) =~= self@);
        out
    }

    /// Copies of the entries of category `category`, in store order.
    pub fn entries_in_category(&self, category: &str) -> (r: Vec<MapEntry>)
        ensures
            entries_view(r@) == in_category(self@, category@),
    {
        let mut out: Vec<MapEntry> = Vec::new();
        let n = self.entries.len();
        let mut i: usize = 0;
        while i < n
            invariant
                n == self@.len(),
                n == self.entries@.len(),
                i <= n,
                entries_view(out@) == in_category(self@.take(i as int), category@),
            decreases n - i,
        {
            let e = &self.entries[i];
            proof {
                assert(self@[i as int] == e@);
                assert(self@.take(i + 1).drop_last() =~= self@.take(i as int));
                assert(self@.take(i + 1).last() == e@);
            }
            if str_eq(e.category.as_str(), category) {
                let ghost before = entries_view(out@);
                out.push(e.copied());
                assert(entries_view(out@) =~= before.push(e@));
            }
            i += 1;
        }
        assert(self@.take(n as int) =~= self@);
        out
    }

    /// The rows of a listing, grouped by category: one group for
    /// `category`, or, when it is empty, one group for every category.
    pub fn listing(&self, category: &str) -> (r: Vec<(String, Vec<MapEntry>)>)
        ensures
            forall|k: int| 0 <= k < r@.len() ==> entries_view((#[trigger] r@[k]).1@) == in_category(self@, r@[k].0@),
            category@.len() > 0 ==> r@.len() == 1 && r@[0].0@ == category@,
            category@.len() == 0 ==> forall|a: int, b: int| 0 <= a < b < r@.len() ==> r@[a].0@ != r@[b].0@,
            category@.len() == 0 ==> forall|c: Seq<char>| has_category(self@, c) <==> exists|k: int| 0 <= k < r@.len() && #[trigger] r@[k].0@ == c,
    {
        let mut out: Vec<(String, Vec<MapEntry>)> = Vec::new();
        if category.unicode_len() > 0 {
            let rows = self.entries_in_category(category);
            out.push((String::from_str(category), rows));
            return out;
        }
        let cats = self.get_categories();
        let mut i: usize = 0;
        while i < cats.len()
            invariant
                i <= cats@.len(),
                out@.len() == i,
                forall|k: int| 0 <= k < i ==> (#[trigger] out@[k]).0@ == cats@[k]@,
                forall|k: int| 0 <= k < i ==> entries_view((#[trigger] out@[k]).1@) == in_category(self@, out@[k].0@),
            decreases cats.len() - i,
        {
            let rows = self.entries_in_category(cats[i].as_str());
            out.push((cats[i].clone(), rows));
            i += 1;
        }
        proof {
            assert forall|c: Seq<char>| has_category(self@, c) <==> exists|k: int| 0 <= k < out@.len() && #[trigger] out@[k].0@ == c by {
                if has_category(self@, c) {
                    let k = choose|k: int| 0 <= k < cats@.len() && #[trigger] cats@[k]@ == c;
                    assert(out@[k].0@ == c);
                }
                if exists|k: int| 0 <= k < out@.len() && #[trigger] out@[k].0@ == c {
                    let k = choose|k: int| 0 <= k < out@.len() && #[trigger] out@[k].0@ == c;
                    assert(cats@[k]@ == c);
                }
            }
        }
        out
    }
}

} // verus!
