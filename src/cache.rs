//! The bookkeeping of a single-flight resolution cache: for each identifier,
//! whether a resolution is under way or has produced a package. The caller
//! runs the resolutions and hands their outcomes back; the table decides, for
//! each request, whether to reuse a package, wait for the resolution under way,
//! or start one.
use vstd::prelude::*;

use crate::identifier::{IdentifierView, WebcIdentifier};
use crate::package::{ResolvedPackage, ResolverError};

verus! {

/// What the table knows of one identifier.
pub enum Slot {
    /// A resolution has started and has not finished.
    InFlight,
    /// A resolution has produced this package.
    Ready(ResolvedPackage),
}

/// What a request for an identifier should do.
#[derive(Debug, Clone, Copy, PartialEq, Eq, Structural)]
pub enum Lookup {
    /// Reuse the package in the table.
    Hit,
    /// Wait for the resolution under way and take its outcome.
    Wait,
    /// Resolve the identifier, then hand the outcome to `complete`.
    Fetch,
}

pub type CacheView = Map<IdentifierView, Slot>;

/// What a request does to the table, and what the requester should do.
pub open spec fn begin_step(m: CacheView, k: IdentifierView) -> (CacheView, Lookup) {
    if !m.contains_key(k) {
        (m.insert(k, Slot::InFlight), Lookup::Fetch)
    } else if m[k] is InFlight {
        (m, Lookup::Wait)
    } else {
        (m, Lookup::Hit)
    }
}

/// What the outcome of a resolution does to the table: a package is kept, a
/// failure forgets the identifier so that the next request tries again.
pub open spec fn complete_step(
    m: CacheView,
    k: IdentifierView,
    outcome: Option<ResolvedPackage>,
) -> CacheView {
    match outcome {
        Some(p) => m.insert(k, Slot::Ready(p)),
        None => m.remove(k),
    }
}

struct CacheEntry {
    key: WebcIdentifier,
    slot: Slot,
}

/// The table of a single-flight cache. It never drops a package it holds.
pub struct CacheTable {
    entries: Vec<CacheEntry>,
}

spec fn holds_key(entries: Seq<CacheEntry>, k: IdentifierView) -> bool {
    exists|i: int| 0 <= i < entries.len() && (#[trigger] entries[i]).key@ == k
}

spec fn index_of(entries: Seq<CacheEntry>, k: IdentifierView) -> int {
    choose|i: int| 0 <= i < entries.len() && (#[trigger] entries[i]).key@ == k
}

spec fn keys_distinct(entries: Seq<CacheEntry>) -> bool {
    forall|i: int, j: int|
        0 <= i < entries.len() && 0 <= j < entries.len() && i != j ==> (#[trigger] entries[i]).key@
            != (#[trigger] entries[j]).key@
}

spec fn entries_view(entries: Seq<CacheEntry>) -> CacheView {
    Map::new(|k: IdentifierView| holds_key(entries, k), |k: IdentifierView| entries[index_of(entries, k)].slot)
}

proof fn lemma_entry_in_view(entries: Seq<CacheEntry>, i: int)
    requires
        keys_distinct(entries),
        0 <= i < entries.len(),
    ensures
        entries_view(entries).contains_key(entries[i].key@),
        entries_view(entries)[entries[i].key@] == entries[i].slot,
{
    let k = entries[i].key@;
    assert(holds_key(entries, k));
    let j = index_of(entries, k);
    assert(entries[j].key@ == k);
}

proof fn lemma_push_entry(before: Seq<CacheEntry>, e: CacheEntry)
    requires
        keys_distinct(before),
        !holds_key(before, e.key@),
    ensures
        keys_distinct(before.push(e)),
        entries_view(before.push(e)) == entries_view(before).insert(e.key@, e.slot),
{
    let after = before.push(e);
    let k = e.key@;
    assert forall|j: int| 0 <= j < before.len() implies (#[trigger] after[j]) == before[j] by {}
    assert forall|a: int, b: int|
        0 <= a < after.len() && 0 <= b < after.len() && a != b implies (#[trigger] after[a]).key@
            != (#[trigger] after[b]).key@ by {
        if a < before.len() && b < before.len() {
            assert(after[a] == before[a] && after[b] == before[b]);
        } else if a < before.len() {
            assert(after[a] == before[a]);
        } else {
            assert(after[b] == before[b]);
        }
    }
    let expected = entries_view(before).insert(k, e.slot);
    assert forall|x: IdentifierView| #[trigger] expected.contains_key(x) implies entries_view(
        after,
    ).contains_key(x) && entries_view(after)[x] == expected[x] by {
        if x == k {
            lemma_entry_in_view(after, before.len() as int);
        } else {
            let j = index_of(before, x);
            lemma_entry_in_view(before, j);
            lemma_entry_in_view(after, j);
        }
    }
    assert forall|x: IdentifierView| #[trigger] entries_view(after).contains_key(x) implies expected.contains_key(x) by {
        let j = index_of(after, x);
        if j < before.len() {
            assert(after[j] == before[j]);
        }
    }
    assert(entries_view(after) =~= expected);
}

proof fn lemma_replace_entry(before: Seq<CacheEntry>, i: int, e: CacheEntry)
    requires
        keys_distinct(before),
        0 <= i < before.len(),
        before[i].key@ == e.key@,
    ensures
        keys_distinct(before.update(i, e)),
        entries_view(before.update(i, e)) == entries_view(before).insert(e.key@, e.slot),
{
    let after = before.update(i, e);
    let k = e.key@;
    assert forall|a: int, b: int|
        0 <= a < after.len() && 0 <= b < after.len() && a != b implies (#[trigger] after[a]).key@
            != (#[trigger] after[b]).key@ by {
        assert(after[a].key@ == before[a].key@);
        assert(after[b].key@ == before[b].key@);
    }
    let expected = entries_view(before).insert(k, e.slot);
    assert forall|x: IdentifierView| #[trigger] expected.contains_key(x) implies entries_view(
        after,
    ).contains_key(x) && entries_view(after)[x] == expected[x] by {
        if x == k {
            lemma_entry_in_view(after, i);
        } else {
            let j = index_of(before, x);
            lemma_entry_in_view(before, j);
            lemma_entry_in_view(after, j);
        }
    }
    assert forall|x: IdentifierView| #[trigger] entries_view(after).contains_key(x) implies expected.contains_key(x) by {
        let j = index_of(after, x);
        assert(after[j].key@ == before[j].key@);
    }
    assert(entries_view(after) =~= expected);
}

proof fn lemma_remove_entry(before: Seq<CacheEntry>, i: int)
    requires
        keys_distinct(before),
        0 <= i < before.len(),
    ensures
        keys_distinct(before.remove(i)),
        entries_view(before.remove(i)) == entries_view(before).remove(before[i].key@),
{
    let after = before.remove(i);
    let k = before[i].key@;
    assert forall|j: int| 0 <= j < after.len() implies (#[trigger] after[j]) == before[if j < i {
        j
    } else {
        j + 1
    }] by {}
    assert forall|a: int, b: int|
        0 <= a < after.len() && 0 <= b < after.len() && a != b implies (#[trigger] after[a]).key@
            != (#[trigger] after[b]).key@ by {
        let a0 = if a < i { a } else { a + 1 };
        let b0 = if b < i { b } else { b + 1 };
        assert(after[a] == before[a0]);
        assert(after[b] == before[b0]);
    }
    let expected = entries_view(before).remove(k);
    assert forall|x: IdentifierView| #[trigger] expected.contains_key(x) implies entries_view(
        after,
    ).contains_key(x) && entries_view(after)[x] == expected[x] by {
        let j = index_of(before, x);
        lemma_entry_in_view(before, j);
        assert(j != i);
        let j1 = if j < i { j } else { j - 1 };
        assert(after[j1] == before[j]);
        lemma_entry_in_view(after, j1);
    }
    assert forall|x: IdentifierView| #[trigger] entries_view(after).contains_key(x) implies expected.contains_key(x) by {
        let j = index_of(after, x);
        let j0 = if j < i { j } else { j + 1 };
        assert(after[j] == before[j0]);
        assert(before[j0].key@ == x);
        assert(j0 != i);
        assert(x != k);
    }
    assert(entries_view(after) =~= expected);
}

impl View for CacheTable {
    type V = CacheView;

    closed spec fn view(&self) -> CacheView {
        entries_view(self.entries@)
    }
}

impl CacheTable {
    pub closed spec fn is_well_formed(&self) -> bool {
        keys_distinct(self.entries@)
    }

    /// An empty table.
    pub fn new() -> (r: CacheTable)
        ensures
            r.is_well_formed(),
            r@ == Map::<IdentifierView, Slot>::empty(),
    {
        let r = CacheTable { entries: Vec::new() };
        assert(r@ =~= Map::<IdentifierView, Slot>::empty());
        r
    }

    /// Where `key` stands in the table.
    fn find(&self, key: &WebcIdentifier) -> (r: Option<usize>)
        requires
            self.is_well_formed(),
        ensures
            match r {
                Some(i) => i < self.entries@.len() && self.entries@[i as int].key@ == key@,
                None => !self@.contains_key(key@),
            },
    {
        let mut i: usize = 0;
        while i < self.entries.len()
            invariant
                i <= self.entries@.len(),
                forall|j: int| 0 <= j < i ==> (#[trigger] self.entries@[j]).key@ != key@,
            decreases self.entries@.len() - i,
        {
            if self.entries[i].key == *key {
                return Some(i);
            }
            i = i + 1;
        }
        None
    }

    /// The package that the table holds for `key`, if it holds one.
    pub fn lookup(&self, key: &WebcIdentifier) -> (r: Option<&ResolvedPackage>)
        requires
            self.is_well_formed(),
        ensures
            (r is Some) == (self@.contains_key(key@) && self@[key@] is Ready),
            r matches Some(p) ==> self@[key@] == Slot::Ready(*p),
    {
        match self.find(key) {
            Some(i) => {
                proof {
                    lemma_entry_in_view(self.entries@, i as int);
                }
                match &self.entries[i].slot {
                    Slot::Ready(p) => Some(p),
                    Slot::InFlight => None,
                }
            },
            None => None,
        }
    }

    /// A request for `key`: a package in the table is a hit, a resolution
    /// under way is waited for, and otherwise the requester starts one, which
    /// the table records, so that no other request starts a second.
    pub fn begin(&mut self, key: WebcIdentifier) -> (r: Lookup)
        requires
            old(self).is_well_formed(),
        ensures
            final(self).is_well_formed(),
            (final(self)@, r) == begin_step(old(self)@, key@),
    {
        match self.find(&key) {
            Some(i) => {
                proof {
                    lemma_entry_in_view(self.entries@, i as int);
                }
                match &self.entries[i].slot {
                    Slot::Ready(_) => Lookup::Hit,
                    Slot::InFlight => Lookup::Wait,
                }
            },
            None => {
                let entry = CacheEntry { key, slot: Slot::InFlight };
                let ghost before = self.entries@;
                let ghost e = entry;
                self.entries.push(entry);
                proof {
                    lemma_push_entry(before, e);
                }
                Lookup::Fetch
            },
        }
    }

    /// Records the outcome of the resolution of `key`: a package is kept for
    /// later requests; a failure is not, and the next request starts anew.
    pub fn complete(&mut self, key: WebcIdentifier, outcome: Result<ResolvedPackage, ResolverError>)
        requires
            old(self).is_well_formed(),
        ensures
            final(self).is_well_formed(),
            final(self)@ == complete_step(old(self)@, key@, outcome.ok()),
    {
        let ghost before = self.entries@;
        let ghost k = key@;
        let found = self.find(&key);
        match outcome {
            Ok(package) => {
                let entry = CacheEntry { key, slot: Slot::Ready(package) };
                let ghost e = entry;
                match found {
                    Some(i) => {
                        self.entries.set(i, entry);
                        proof {
                            lemma_replace_entry(before, i as int, e);
                        }
                    },
                    None => {
                        self.entries.push(entry);
                        proof {
                            lemma_push_entry(before, e);
                        }
                    },
                }
            },
            Err(_) => {
                match found {
                    Some(i) => {
                        self.entries.remove(i);
                        proof {
                            lemma_remove_entry(before, i as int);
                        }
                    },
                    None => {
                        assert(entries_view(before) =~= entries_view(before).remove(k));
                    },
                }
            },
        }
    }
}

/// The table after `n` requests for `k` in a row, and how many of them were
/// told to start a resolution.
pub open spec fn repeated_begins(m: CacheView, k: IdentifierView, n: nat) -> (CacheView, nat)
    decreases n,
{
    if n == 0 {
        (m, 0)
    } else {
        let (m1, c) = repeated_begins(m, k, (n - 1) as nat);
        let (m2, r) = begin_step(m1, k);
        (m2, if r == Lookup::Fetch { c + 1 } else { c })
    }
}

/// Single flight: of any number of requests for an identifier that the table
/// does not hold, made before the resolution finishes, exactly one starts a
/// resolution; the others wait for it.
pub proof fn single_flight(m: CacheView, k: IdentifierView, n: nat)
    requires
        !m.contains_key(k),
        n >= 1,
    ensures
        repeated_begins(m, k, n).1 == 1,
        repeated_begins(m, k, n).0 == m.insert(k, Slot::InFlight),
    decreases n,
{
    let m1 = m.insert(k, Slot::InFlight);
    if n == 1 {
        assert(repeated_begins(m, k, 0) == (m, 0nat));
        assert(begin_step(m, k) == (m1, Lookup::Fetch));
    } else {
        single_flight(m, k, (n - 1) as nat);
        assert(m1.contains_key(k) && m1[k] is InFlight);
        assert(begin_step(m1, k) == (m1, Lookup::Wait));
    }
}

/// After a resolution that produced a package, a request for the same
/// identifier is a hit on that package and starts nothing.
pub proof fn success_is_cached(m: CacheView, k: IdentifierView, p: ResolvedPackage)
    ensures
        begin_step(complete_step(m, k, Some(p)), k) == (complete_step(m, k, Some(p)), Lookup::Hit),
        complete_step(m, k, Some(p))[k] == Slot::Ready(p),
{
}

/// After a failed resolution, the next request for the same identifier starts
/// a new one: failures are not kept.
pub proof fn failure_is_not_cached(m: CacheView, k: IdentifierView)
    ensures
        begin_step(complete_step(m, k, None), k).1 == Lookup::Fetch,
{
}

/// A package in the table stays there, unchanged, whatever is requested next:
/// every later hit on its identifier yields the same package.
pub proof fn requests_keep_packages(m: CacheView, k: IdentifierView, other: IdentifierView)
    requires
        m.contains_key(k),
        m[k] is Ready,
    ensures
        begin_step(m, other).0.contains_key(k),
        begin_step(m, other).0[k] == m[k],
{
}

} // verus!
