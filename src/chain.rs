//! The chain of packages whose resolution is under way, one inside the other,
//! while a resolver follows dependencies. Entering a package that is already
//! on the chain is a dependency cycle, reported as an error, so that a
//! resolution never recurses without end.
use vstd::prelude::*;
use vstd::set_lib::lemma_len_subset;
use vstd::string::*;

use crate::identifier::{identifier_text, IdentifierView, WebcIdentifier};
use crate::package::ResolverError;

verus! {

/// The identifiers of a chain, each followed by ` -> `.
pub open spec fn chain_text(path: Seq<IdentifierView>) -> Seq<char>
    decreases path.len(),
{
    if path.len() == 0 {
        Seq::empty()
    } else {
        chain_text(path.drop_last()) + identifier_text(path.last()) + seq![' ', '-', '>', ' ']
    }
}

/// Where `id` stands on a chain that holds it.
pub open spec fn position_of(path: Seq<IdentifierView>, id: IdentifierView) -> int {
    choose|i: int| 0 <= i < path.len() && path[i] == id
}

pub open spec fn cycle_prefix() -> Seq<char> {
    seq!['d', 'e', 'p', 'e', 'n', 'd', 'e', 'n', 'c', 'y', ' ', 'c', 'y', 'c', 'l', 'e', ':', ' ']
}

/// The message of a cycle: the chain from the first visit of `id` back to `id`.
pub open spec fn cycle_message(path: Seq<IdentifierView>, id: IdentifierView) -> Seq<char> {
    cycle_prefix() + chain_text(path.subrange(position_of(path, id), path.len() as int))
        + identifier_text(id)
}

/// The packages being resolved, outermost first.
pub struct ResolutionChain {
    path: Vec<WebcIdentifier>,
}

impl View for ResolutionChain {
    type V = Seq<IdentifierView>;

    closed spec fn view(&self) -> Seq<IdentifierView> {
        self.path@.map_values(|id: WebcIdentifier| id@)
    }
}

impl ResolutionChain {
    /// A chain never holds an identifier twice.
    pub open spec fn is_well_formed(&self) -> bool {
        self@.no_duplicates()
    }

    /// A chain with nothing under way.
    pub fn new() -> (r: ResolutionChain)
        ensures
            r@ == Seq::<IdentifierView>::empty(),
            r.is_well_formed(),
    {
        let r = ResolutionChain { path: Vec::new() };
        assert(r@ =~= Seq::<IdentifierView>::empty());
        r
    }

    /// How many resolutions are under way.
    pub fn depth(&self) -> (r: usize)
        ensures
            r == self@.len(),
    {
        self.path.len()
    }

    /// Starts the resolution of `id` inside those on the chain. Where `id` is
    /// already on the chain, that is a dependency cycle: the chain is left as
    /// it was and the error names the cycle.
    pub fn enter(&mut self, id: WebcIdentifier) -> (r: Result<(), ResolverError>)
        requires
            old(self).is_well_formed(),
        ensures
            final(self).is_well_formed(),
            (r is Err) == old(self)@.contains(id@),
            r is Ok ==> final(self)@ == old(self)@.push(id@),
            r is Err ==> final(self)@ == old(self)@,
            r matches Err(e) ==> e matches ResolverError::Other(m) && m@ == cycle_message(
                old(self)@,
                id@,
            ),
    {
        let ghost v = self@;
        let mut i: usize = 0;
        while i < self.path.len()
            invariant
                i <= self.path@.len(),
                v == self@,
                v.no_duplicates(),
                forall|j: int| 0 <= j < i ==> (#[trigger] v[j]) != id@,
            decreases self.path@.len() - i,
        {
            if self.path[i] == id {
                return Err(ResolverError::Other(self.cycle_from(i, &id)));
            }
            i = i + 1;
        }
        proof {
            assert(!v.contains(id@));
        }
        self.path.push(id);
        proof {
            assert(self@ =~= v.push(id@));
        }
        Ok(())
    }

    fn cycle_from(&self, start: usize, id: &WebcIdentifier) -> (r: String)
        requires
            self.is_well_formed(),
            start < self@.len(),
            self@[start as int] == id@,
        ensures
            r@ == cycle_message(self@, id@),
    {
        let ghost v = self@;
        proof {
            assert(v.contains(id@));
            let p = position_of(v, id@);
            assert(v[p] == id@);
            assert(p == start);
        }
        let mut r = String::from_str("dependency cycle: ");
        proof {
            reveal_strlit("dependency cycle: ");
            assert(r@ =~= cycle_prefix() + chain_text(v.subrange(start as int, start as int)));
        }
        let mut j: usize = start;
        while j < self.path.len()
            invariant
                start <= j <= self.path@.len(),
                v == self@,
                r@ == cycle_prefix() + chain_text(v.subrange(start as int, j as int)),
            decreases self.path@.len() - j,
        {
            let shown = self.path[j].to_string();
            r.append(shown.as_str());
            r.append(" -> ");
            proof {
                reveal_strlit(" -> ");
                let s = v.subrange(start as int, j as int + 1);
                assert(s.drop_last() =~= v.subrange(start as int, j as int));
                assert(s.last() == v[j as int]);
                assert(r@ =~= cycle_prefix() + chain_text(s));
            }
            j = j + 1;
        }
        let shown = id.to_string();
        r.append(shown.as_str());
        proof {
            assert(r@ =~= cycle_message(v, id@));
        }
        r
    }

    /// Ends the innermost resolution under way.
    pub fn leave(&mut self)
        requires
            old(self).is_well_formed(),
            old(self)@.len() > 0,
        ensures
            final(self).is_well_formed(),
            final(self)@ == old(self)@.drop_last(),
    {
        let ghost v = self@;
        self.path.pop();
        proof {
            assert(self@ =~= v.drop_last());
        }
    }
}

/// Nesting is bounded: where every identifier that a resolution can reach is
/// in a finite set, a chain never grows longer than that set, so resolving
/// dependencies through a chain ends even where they form a cycle.
pub proof fn chain_depth_is_bounded(path: Seq<IdentifierView>, reachable: Set<IdentifierView>)
    requires
        path.no_duplicates(),
        reachable.finite(),
        forall|i: int| 0 <= i < path.len() ==> reachable.contains(#[trigger] path[i]),
    ensures
        path.len() <= reachable.len(),
{
    path.unique_seq_to_set();
    assert forall|x: IdentifierView| path.to_set().contains(x) implies reachable.contains(x) by {
        let i = choose|i: int| 0 <= i < path.len() && path[i] == x;
    }
    lemma_len_subset(path.to_set(), reachable);
}

} // verus!
