use vstd::prelude::*;
use crate::text::{lemma_trim_idempotent, trim, trimmed};

verus! {

/// A named set of display settings.
///
/// The store never looks inside the settings: `S` is whatever the caller
/// keeps its slider positions in.
pub struct Profile<S> {
    pub name: String,
    pub settings: S,
}

/// Everything the program remembers between runs: the last slider
/// positions, the switches of the settings page and the saved profiles.
pub struct Store<S> {
    pub last: S,
    pub auto_apply: bool,
    pub hotkey: String,
    pub tray_on_close: bool,
    pub profiles: Vec<Profile<S>>,
}

/// A profile list seen as (name, settings) pairs.
pub open spec fn entries_of<S>(profiles: Seq<Profile<S>>) -> Seq<(Seq<char>, S)> {
    profiles.map_values(|p: Profile<S>| (p.name@, p.settings))
}

/// `k` is the first position in `e` whose name is `name`.
pub open spec fn first_named<S>(e: Seq<(Seq<char>, S)>, name: Seq<char>, k: int) -> bool {
    &&& 0 <= k < e.len()
    &&& e[k].0 == name
    &&& forall|j: int| 0 <= j < k ==> e[j].0 != name
}

/// Whether some entry of `e` is called `name`.
pub open spec fn has_name<S>(e: Seq<(Seq<char>, S)>, name: Seq<char>) -> bool {
    exists|k: int| 0 <= k < e.len() && e[k].0 == name
}

/// Saving `settings` under `name`: the first profile of that name is
/// overwritten in place; with no such profile a new one goes at the end.
pub open spec fn upserted<S>(e: Seq<(Seq<char>, S)>, name: Seq<char>, settings: S) -> Seq<(Seq<char>, S)> {
    if exists|k: int| first_named(e, name, k) {
        e.update(choose|k: int| first_named(e, name, k), (name, settings))
    } else {
        e.push((name, settings))
    }
}

/// Importing `incoming` into `e`, in order: every profile whose trimmed name
/// is not blank is saved under that trimmed name.
pub open spec fn merged<S>(e: Seq<(Seq<char>, S)>, incoming: Seq<(Seq<char>, S)>) -> Seq<(Seq<char>, S)>
    decreases incoming.len(),
{
    if incoming.len() == 0 {
        e
    } else {
        let before = merged(e, incoming.drop_last());
        let name = trimmed(incoming.last().0);
        if name.len() > 0 {
            upserted(before, name, incoming.last().1)
        } else {
            before
        }
    }
}

/// How many of `incoming` have a name that is not blank once trimmed.
pub open spec fn named_count<S>(incoming: Seq<(Seq<char>, S)>) -> nat
    decreases incoming.len(),
{
    if incoming.len() == 0 {
        0
    } else {
        named_count(incoming.drop_last()) + if trimmed(incoming.last().0).len() > 0 { 1nat } else { 0nat }
    }
}

/// No two entries share a name.
pub open spec fn names_unique<S>(e: Seq<(Seq<char>, S)>) -> bool {
    forall|i: int, j: int| 0 <= i < e.len() && 0 <= j < e.len() && i != j ==> e[i].0 != e[j].0
}

/// Every name is already trimmed and not blank, as the store saves them.
pub open spec fn names_clean<S>(e: Seq<(Seq<char>, S)>) -> bool {
    forall|i: int| 0 <= i < e.len() ==> #[trigger] trimmed(e[i].0) == e[i].0 && e[i].0.len() > 0
}

proof fn lemma_first_named_unique<S>(e: Seq<(Seq<char>, S)>, name: Seq<char>, k1: int, k2: int)
    requires
        first_named(e, name, k1),
        first_named(e, name, k2),
    ensures
        k1 == k2,
{
}

/// Saving twice under one name leaves only the second save: a repeated save
/// overwrites and never piles up a duplicate.
pub proof fn lemma_save_twice_keeps_last<S>(e: Seq<(Seq<char>, S)>, name: Seq<char>, first: S, second: S)
    ensures
        upserted(upserted(e, name, first), name, second) == upserted(e, name, second),
{
    let e1 = upserted(e, name, first);
    if exists|k: int| first_named(e, name, k) {
        let k = choose|k: int| first_named(e, name, k);
        assert(first_named(e1, name, k));
        let k1 = choose|c: int| first_named(e1, name, c);
        lemma_first_named_unique(e1, name, k, k1);
        assert(upserted(e1, name, second) =~= upserted(e, name, second));
    } else {
        let n = e.len() as int;
        assert forall|j: int| 0 <= j < n implies e1[j].0 != name by {
            if e1[j].0 == name {
                assert(e1[j] == e[j]);
                lemma_has_name_first(e, name, j);
            }
        }
        assert(first_named(e1, name, n));
        let k1 = choose|c: int| first_named(e1, name, c);
        lemma_first_named_unique(e1, name, n, k1);
        assert(upserted(e1, name, second) =~= upserted(e, name, second));
    }
}

proof fn lemma_has_name_first<S>(e: Seq<(Seq<char>, S)>, name: Seq<char>, j: int)
    requires
        0 <= j < e.len(),
        e[j].0 == name,
    ensures
        exists|k: int| first_named(e, name, k),
    decreases j,
{
    if exists|x: int| 0 <= x < j && e[x].0 == name {
        let x = choose|x: int| 0 <= x < j && e[x].0 == name;
        lemma_has_name_first(e, name, x);
    } else {
        assert(first_named(e, name, j));
    }
}

/// After a save, the store holds the saved settings under that name, and it
/// grew by one exactly when the name was new.
pub proof fn lemma_save_then_find<S>(e: Seq<(Seq<char>, S)>, name: Seq<char>, settings: S)
    ensures
        exists|k: int| 0 <= k < upserted(e, name, settings).len() && upserted(e, name, settings)[k] == (name, settings),
        upserted(e, name, settings).len() == if has_name(e, name) { e.len() } else { e.len() + 1 },
{
    if has_name(e, name) {
        let j = choose|j: int| 0 <= j < e.len() && e[j].0 == name;
        lemma_has_name_first(e, name, j);
        let k = choose|k: int| first_named(e, name, k);
        assert(upserted(e, name, settings)[k] == (name, settings));
    } else {
        if exists|k: int| first_named(e, name, k) {
            let k = choose|k: int| first_named(e, name, k);
            assert(e[k].0 == name);
        }
        assert(upserted(e, name, settings)[e.len() as int] == (name, settings));
    }
}

/// Saving keeps profile names unique, and keeps them trimmed and non-blank
/// when the saved name is.
pub proof fn lemma_save_keeps_names_unique<S>(e: Seq<(Seq<char>, S)>, name: Seq<char>, settings: S)
    requires
        names_unique(e),
    ensures
        names_unique(upserted(e, name, settings)),
        names_clean(e) && trimmed(name) == name && name.len() > 0 ==> names_clean(upserted(e, name, settings)),
{
    let u = upserted(e, name, settings);
    if exists|k: int| first_named(e, name, k) {
        let k = choose|k: int| first_named(e, name, k);
        assert forall|i: int, j: int| 0 <= i < u.len() && 0 <= j < u.len() && i != j implies u[i].0 != u[j].0 by {
            assert(u[i].0 == e[i].0);
            assert(u[j].0 == e[j].0);
        }
    } else {
        assert forall|i: int, j: int| 0 <= i < u.len() && 0 <= j < u.len() && i != j implies u[i].0 != u[j].0 by {
            if i < e.len() && j < e.len() {
            } else if i < e.len() {
                if e[i].0 == name {
                    lemma_has_name_first(e, name, i);
                }
            } else {
                if e[j].0 == name {
                    lemma_has_name_first(e, name, j);
                }
            }
        }
    }
}

/// Importing keeps profile names unique, and keeps every name trimmed and
/// non-blank when the store's names already were.
pub proof fn lemma_import_keeps_names_unique<S>(e: Seq<(Seq<char>, S)>, incoming: Seq<(Seq<char>, S)>)
    requires
        names_unique(e),
    ensures
        names_unique(merged(e, incoming)),
        names_clean(e) ==> names_clean(merged(e, incoming)),
    decreases incoming.len(),
{
    if incoming.len() > 0 {
        lemma_import_keeps_names_unique(e, incoming.drop_last());
        let name = trimmed(incoming.last().0);
        if name.len() > 0 {
            lemma_trim_idempotent(incoming.last().0);
            lemma_save_keeps_names_unique(merged(e, incoming.drop_last()), name, incoming.last().1);
        }
    }
}

/// Saving under `name` leaves every entry of another name where it was, and
/// afterwards a name is present exactly when it was before or is `name`.
pub proof fn lemma_upsert_keeps_others<S>(e: Seq<(Seq<char>, S)>, name: Seq<char>, settings: S)
    ensures
        upserted(e, name, settings).len() >= e.len(),
        forall|k: int| 0 <= k < e.len() && e[k].0 != name ==> #[trigger] upserted(e, name, settings)[k] == e[k],
        forall|m: Seq<char>| #[trigger] has_name(upserted(e, name, settings), m) <==> (has_name(e, m) || m == name),
{
    lemma_save_then_find(e, name, settings);
    let u = upserted(e, name, settings);
    if exists|k: int| first_named(e, name, k) {
        let c = choose|k: int| first_named(e, name, k);
        assert(u == e.update(c, (name, settings)));
        assert forall|m: Seq<char>| #[trigger] has_name(u, m) <==> (has_name(e, m) || m == name) by {
            if has_name(u, m) {
                let k = choose|k: int| 0 <= k < u.len() && u[k].0 == m;
                if k != c {
                    assert(e[k].0 == m);
                }
            }
            if has_name(e, m) {
                let k = choose|k: int| 0 <= k < e.len() && e[k].0 == m;
                if k != c {
                    assert(u[k].0 == m);
                } else {
                    assert(u[c].0 == m);
                }
            }
            if m == name {
                assert(u[c].0 == m);
            }
        }
    } else {
        assert(u == e.push((name, settings)));
        assert forall|m: Seq<char>| #[trigger] has_name(u, m) <==> (has_name(e, m) || m == name) by {
            if has_name(u, m) {
                let k = choose|k: int| 0 <= k < u.len() && u[k].0 == m;
                if k < e.len() {
                    assert(e[k].0 == m);
                }
            }
            if has_name(e, m) {
                let k = choose|k: int| 0 <= k < e.len() && e[k].0 == m;
                assert(u[k].0 == m);
            }
            if m == name {
                assert(u[e.len() as int].0 == m);
            }
        }
    }
}

/// The incoming profiles whose trimmed name is not blank.
pub open spec fn named<S>(incoming: Seq<(Seq<char>, S)>) -> Seq<(Seq<char>, S)> {
    incoming.filter(|p: (Seq<char>, S)| trimmed(p.0).len() > 0)
}

/// The count an import reports is the number of incoming profiles whose
/// trimmed name is not blank, overwrites included: only blank names are
/// left out.
pub proof fn lemma_import_counts_every_named<S>(incoming: Seq<(Seq<char>, S)>)
    ensures
        named_count(incoming) == named(incoming).len(),
        named_count(incoming) <= incoming.len(),
        (forall|i: int| 0 <= i < incoming.len() ==> trimmed(#[trigger] incoming[i].0).len() > 0)
            ==> named_count(incoming) == incoming.len(),
    decreases incoming.len(),
{
    reveal(Seq::filter);
    if incoming.len() > 0 {
        let d = incoming.drop_last();
        lemma_import_counts_every_named(d);
        assert(incoming[incoming.len() - 1] == incoming.last());
        assert(forall|i: int| 0 <= i < d.len() ==> d[i] == incoming[i]);
    }
}

/// The trimmed, non-blank names among `incoming` that `e` does not have yet.
pub open spec fn new_names<S>(e: Seq<(Seq<char>, S)>, incoming: Seq<(Seq<char>, S)>) -> Set<Seq<char>> {
    Set::new(|m: Seq<char>| m.len() > 0 && !has_name(e, m)
        && exists|i: int| 0 <= i < incoming.len() && trimmed(incoming[i].0) == m)
}

/// Importing `incoming` into any store takes in every profile whose trimmed
/// name is not blank: afterwards that name is present with the settings of
/// the last incoming profile of that name. Entries whose name no incoming
/// profile carries stay where they were, and a name is present afterwards
/// exactly when it was before or came in.
pub proof fn lemma_import_takes_in_every_named<S>(e: Seq<(Seq<char>, S)>, incoming: Seq<(Seq<char>, S)>)
    ensures
        merged(e, incoming).len() >= e.len(),
        forall|i: int| 0 <= i < incoming.len() && trimmed(incoming[i].0).len() > 0
            && (forall|j: int| i < j < incoming.len() ==> trimmed(incoming[j].0) != trimmed(incoming[i].0))
            ==> exists|k: int| 0 <= k < merged(e, incoming).len()
                && merged(e, incoming)[k] == (trimmed(incoming[i].0), #[trigger] incoming[i].1),
        forall|k: int| 0 <= k < e.len()
            && (forall|i: int| 0 <= i < incoming.len() && trimmed(incoming[i].0).len() > 0
                ==> trimmed(incoming[i].0) != e[k].0)
            ==> #[trigger] merged(e, incoming)[k] == e[k],
        forall|m: Seq<char>| #[trigger] has_name(merged(e, incoming), m) <==> (has_name(e, m)
            || (m.len() > 0 && exists|i: int| 0 <= i < incoming.len() && trimmed(incoming[i].0) == m)),
    decreases incoming.len(),
{
    if incoming.len() > 0 {
        let d = incoming.drop_last();
        let last = incoming.last();
        let n = trimmed(last.0);
        let before = merged(e, d);
        let after = merged(e, incoming);
        lemma_import_takes_in_every_named(e, d);
        assert(incoming[incoming.len() - 1] == last);
        assert forall|i: int| 0 <= i < d.len() implies d[i] == #[trigger] incoming[i] by {}
        if n.len() > 0 {
            lemma_upsert_keeps_others(before, n, last.1);
            lemma_save_then_find(before, n, last.1);
        }
        assert forall|i: int| 0 <= i < incoming.len() && trimmed(incoming[i].0).len() > 0
            && (forall|j: int| i < j < incoming.len() ==> trimmed(incoming[j].0) != trimmed(incoming[i].0))
            implies exists|k: int| 0 <= k < after.len() && after[k] == (trimmed(incoming[i].0), #[trigger] incoming[i].1) by {
            if i == incoming.len() - 1 {
                let k = choose|k: int| 0 <= k < after.len() && after[k] == (n, last.1);
                assert(after[k] == (trimmed(incoming[i].0), incoming[i].1));
            } else {
                assert(incoming[i] == d[i]);
                assert(forall|j: int| i < j < d.len() ==> d[j] == incoming[j]);
                assert(trimmed(d[i].0).len() > 0);
                assert(forall|j: int| i < j < d.len() ==> trimmed(d[j].0) != trimmed(d[i].0));
                let k = choose|k: int| 0 <= k < before.len() && before[k] == (trimmed(d[i].0), #[trigger] d[i].1);
                if n.len() > 0 {
                    assert(trimmed(incoming[incoming.len() - 1].0) != trimmed(incoming[i].0));
                    assert(after[k] == before[k]);
                }
                assert(after[k] == (trimmed(incoming[i].0), incoming[i].1));
            }
        }
        assert forall|k: int| 0 <= k < e.len()
            && (forall|i: int| 0 <= i < incoming.len() && trimmed(incoming[i].0).len() > 0
                ==> trimmed(incoming[i].0) != e[k].0)
            implies #[trigger] after[k] == e[k] by {
            assert(forall|i: int| 0 <= i < d.len() && trimmed(d[i].0).len() > 0 ==> trimmed(d[i].0) != e[k].0);
            assert(before[k] == e[k]);
            if n.len() > 0 {
                assert(trimmed(incoming[incoming.len() - 1].0) != e[k].0);
            }
        }
        assert forall|m: Seq<char>| #[trigger] has_name(after, m) <==> (has_name(e, m)
            || (m.len() > 0 && exists|i: int| 0 <= i < incoming.len() && trimmed(incoming[i].0) == m)) by {
            if m.len() > 0 && exists|i: int| 0 <= i < incoming.len() && trimmed(incoming[i].0) == m {
                let i = choose|i: int| 0 <= i < incoming.len() && trimmed(incoming[i].0) == m;
                if i < d.len() {
                    assert(trimmed(d[i].0) == m);
                }
            }
            if m.len() > 0 && exists|i: int| 0 <= i < d.len() && trimmed(d[i].0) == m {
                let i = choose|i: int| 0 <= i < d.len() && trimmed(d[i].0) == m;
                assert(trimmed(incoming[i].0) == m);
            }
        }
    }
}

/// Importing grows the store by exactly the number of distinct new names
/// that came in: an incoming name already saved overwrites, a new one is
/// added once however often it comes.
pub proof fn lemma_import_grows_by_new_names<S>(e: Seq<(Seq<char>, S)>, incoming: Seq<(Seq<char>, S)>)
    ensures
        new_names(e, incoming).finite(),
        merged(e, incoming).len() == e.len() + new_names(e, incoming).len(),
    decreases incoming.len(),
{
    if incoming.len() == 0 {
        assert(new_names(e, incoming) =~= Set::<Seq<char>>::empty());
    } else {
        let d = incoming.drop_last();
        let last = incoming.last();
        let n = trimmed(last.0);
        let before = merged(e, d);
        lemma_import_grows_by_new_names(e, d);
        lemma_import_takes_in_every_named(e, d);
        assert(incoming[incoming.len() - 1] == last);
        assert forall|i: int| 0 <= i < d.len() implies d[i] == #[trigger] incoming[i] by {}
        let prev = new_names(e, d);
        let now = new_names(e, incoming);
        if n.len() > 0 && !has_name(e, n) {
            assert forall|m: Seq<char>| #[trigger] now.contains(m) <==> prev.insert(n).contains(m) by {
                if now.contains(m) {
                    let i = choose|i: int| 0 <= i < incoming.len() && trimmed(incoming[i].0) == m;
                    if i < d.len() {
                        assert(trimmed(d[i].0) == m);
                    }
                }
                if prev.contains(m) {
                    let i = choose|i: int| 0 <= i < d.len() && trimmed(d[i].0) == m;
                    assert(trimmed(incoming[i].0) == m);
                }
                if m == n {
                    assert(trimmed(incoming[incoming.len() - 1].0) == m);
                }
            }
            assert(now =~= prev.insert(n));
            lemma_save_then_find(before, n, last.1);
            assert(has_name(before, n) <==> prev.contains(n));
        } else {
            assert forall|m: Seq<char>| #[trigger] now.contains(m) <==> prev.contains(m) by {
                if now.contains(m) {
                    let i = choose|i: int| 0 <= i < incoming.len() && trimmed(incoming[i].0) == m;
                    if i < d.len() {
                        assert(trimmed(d[i].0) == m);
                    }
                }
                if prev.contains(m) {
                    let i = choose|i: int| 0 <= i < d.len() && trimmed(d[i].0) == m;
                    assert(trimmed(incoming[i].0) == m);
                }
            }
            assert(now =~= prev);
            if n.len() > 0 {
                lemma_save_then_find(before, n, last.1);
                assert(has_name(before, n));
            }
        }
    }
}

/// Exporting a store's profiles and importing them into an empty store gives
/// back every profile, in order, and reports them all as imported.
pub proof fn lemma_export_then_import_restores<S>(e: Seq<(Seq<char>, S)>)
    requires
        names_unique(e),
        names_clean(e),
    ensures
        merged(Seq::empty(), e) == e,
        named_count(e) == e.len(),
    decreases e.len(),
{
    if e.len() > 0 {
        let d = e.drop_last();
        assert(names_unique(d));
        assert(names_clean(d));
        lemma_export_then_import_restores(d);
        let last = e.last();
        assert(trimmed(e[e.len() - 1].0) == e[e.len() - 1].0);
        assert(trimmed(last.0) == last.0);
        if exists|k: int| first_named(d, last.0, k) {
            let k = choose|k: int| first_named(d, last.0, k);
            assert(e[k].0 == e[e.len() - 1].0);
        }
        assert(merged(Seq::empty(), e) =~= d.push(last));
        assert(d.push(last) =~= e);
    }
}

impl<S> Store<S> {
    /// The saved profiles as (name, settings) pairs.
    pub open spec fn entries(&self) -> Seq<(Seq<char>, S)> {
        entries_of(self.profiles@)
    }

    /// A store with nothing saved yet: the effect applies automatically,
    /// F9 toggles it, closing the window sends it to the tray.
    pub fn new(last: S) -> (store: Self)
        ensures
            store.last == last,
            store.auto_apply,
            store.hotkey@ == "F9"@,
            store.tray_on_close,
            store.profiles@.len() == 0,
    {
        Store { last, auto_apply: true, hotkey: "F9".to_owned(), tray_on_close: true, profiles: Vec::new() }
    }

    /// The profile names, in order.
    pub fn names(&self) -> (names: Vec<String>)
        ensures
            names@.len() == self.profiles@.len(),
            forall|i: int| 0 <= i < names@.len() ==> #[trigger] names@[i]@ == self.profiles@[i].name@,
    {
        let mut names: Vec<String> = Vec::new();
        let mut i: usize = 0;
        while i < self.profiles.len()
            invariant
                0 <= i <= self.profiles@.len(),
                names@.len() == i,
                forall|j: int| 0 <= j < i ==> #[trigger] names@[j]@ == self.profiles@[j].name@,
            decreases self.profiles@.len() - i,
        {
            names.push(self.profiles[i].name.clone());
            i = i + 1;
        }
        names
    }

    /// Position of the first profile called `name`, if any.
    fn position(&self, name: &String) -> (r: Option<usize>)
        ensures
            match r {
                Some(k) => first_named(self.entries(), name@, k as int),
                None => !has_name(self.entries(), name@),
            },
    {
        let mut i: usize = 0;
        while i < self.profiles.len()
            invariant
                0 <= i <= self.profiles@.len(),
                forall|j: int| 0 <= j < i ==> #[trigger] self.entries()[j].0 != name@,
            decreases self.profiles@.len() - i,
        {
            if self.profiles[i].name == *name {
                return Some(i);
            }
            i = i + 1;
        }
        None
    }

    /// Saves `settings` under `name` with surrounding whitespace removed.
    /// A blank name is refused; an existing name is overwritten, so repeated
    /// saves do not pile up duplicates.
    pub fn upsert(&mut self, name: &str, settings: S) -> (saved: bool)
        ensures
            saved == (trimmed(name@).len() > 0),
            saved ==> final(self).entries() == upserted(old(self).entries(), trimmed(name@), settings),
            !saved ==> final(self).profiles@ == old(self).profiles@,
            final(self).last == old(self).last,
            final(self).auto_apply == old(self).auto_apply,
            final(self).hotkey == old(self).hotkey,
            final(self).tray_on_close == old(self).tray_on_close,
    {
        let name = trim(name);
        if name.as_str().is_empty() {
            return false;
        }
        let ghost e = self.entries();
        match self.position(&name) {
            Some(k) => {
                proof {
                    let c = choose|c: int| first_named(e, name@, c);
                    lemma_first_named_unique(e, name@, k as int, c);
                }
                self.profiles.set(k, Profile { name, settings });
                assert(self.entries() =~= upserted(e, name@, settings));
            }
            None => {
                self.profiles.push(Profile { name, settings });
                assert(self.entries() =~= upserted(e, name@, settings));
            }
        }
        true
    }

    /// Deletes the profile at `index`; an index past the end changes nothing.
    pub fn remove(&mut self, index: usize) -> (removed: bool)
        ensures
            removed == (index < old(self).profiles@.len()),
            removed ==> final(self).profiles@ == old(self).profiles@.remove(index as int),
            !removed ==> final(self).profiles@ == old(self).profiles@,
            final(self).last == old(self).last,
            final(self).auto_apply == old(self).auto_apply,
            final(self).hotkey == old(self).hotkey,
            final(self).tray_on_close == old(self).tray_on_close,
    {
        if index >= self.profiles.len() {
            return false;
        }
        self.profiles.remove(index);
        true
    }
}

impl<S: Copy> Store<S> {
    /// Imports `incoming` in order, merging by name: each profile whose
    /// trimmed name is not blank is saved as `upsert` would save it, the
    /// others are skipped. Returns how many were taken in.
    pub fn merge(&mut self, incoming: &Vec<Profile<S>>) -> (added: usize)
        ensures
            added == named_count(entries_of(incoming@)),
            added == named(entries_of(incoming@)).len(),
            final(self).entries() == merged(old(self).entries(), entries_of(incoming@)),
            final(self).entries().len() == old(self).entries().len()
                + new_names(old(self).entries(), entries_of(incoming@)).len(),
            forall|i: int| 0 <= i < incoming@.len() && trimmed(incoming@[i].name@).len() > 0
                && (forall|j: int| i < j < incoming@.len() ==> trimmed(incoming@[j].name@) != trimmed(incoming@[i].name@))
                ==> exists|k: int| 0 <= k < final(self).entries().len()
                    && final(self).entries()[k] == (trimmed(incoming@[i].name@), #[trigger] incoming@[i].settings),
            final(self).last == old(self).last,
            final(self).auto_apply == old(self).auto_apply,
            final(self).hotkey == old(self).hotkey,
            final(self).tray_on_close == old(self).tray_on_close,
    {
        let ghost start = self.entries();
        let ghost inc = entries_of(incoming@);
        let mut added: usize = 0;
        let mut i: usize = 0;
        while i < incoming.len()
            invariant
                0 <= i <= incoming@.len(),
                inc == entries_of(incoming@),
                added == named_count(inc.take(i as int)),
                added <= i,
                self.entries() == merged(start, inc.take(i as int)),
                self.last == old(self).last,
                self.auto_apply == old(self).auto_apply,
                self.hotkey == old(self).hotkey,
                self.tray_on_close == old(self).tray_on_close,
            decreases incoming@.len() - i,
        {
            proof {
                assert(inc.take(i + 1).drop_last() =~= inc.take(i as int));
                assert(inc.take(i + 1).last() == inc[i as int]);
            }
            let saved = self.upsert(incoming[i].name.as_str(), incoming[i].settings);
            if saved {
                added = added + 1;
            }
            i = i + 1;
        }
        assert(inc.take(incoming@.len() as int) =~= inc);
        proof {
            lemma_import_counts_every_named(inc);
            lemma_import_grows_by_new_names(start, inc);
            lemma_import_takes_in_every_named(start, inc);
            assert forall|i: int| 0 <= i < incoming@.len() implies #[trigger] inc[i] == (incoming@[i].name@, incoming@[i].settings) by {}
            let fin = self.entries();
            assert forall|i: int| 0 <= i < incoming@.len() && trimmed(incoming@[i].name@).len() > 0
                && (forall|j: int| i < j < incoming@.len() ==> trimmed(incoming@[j].name@) != trimmed(incoming@[i].name@))
                implies exists|k: int| 0 <= k < fin.len()
                    && fin[k] == (trimmed(incoming@[i].name@), #[trigger] incoming@[i].settings) by {
                assert(inc[i] == (incoming@[i].name@, incoming@[i].settings));
                assert(forall|j: int| i < j < inc.len() ==> inc[j] == (incoming@[j].name@, incoming@[j].settings));
                assert(forall|j: int| i < j < inc.len() ==> trimmed(inc[j].0) != trimmed(inc[i].0));
                let k = choose|k: int| 0 <= k < fin.len() && fin[k] == (trimmed(inc[i].0), #[trigger] inc[i].1);
                assert(fin[k] == (trimmed(incoming@[i].name@), incoming@[i].settings));
            }
        }
        added
    }
}

} // verus!
