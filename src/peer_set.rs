//! A set of peers, kept in an `ahash::AHashSet`.
use vstd::prelude::*;
use crate::ids::PeerId;
use ahash::AHashSet;

verus! {

#[verifier::external_type_specification]
#[verifier::external_body]
#[verifier::reject_recursive_types(T)]
#[verifier::reject_recursive_types(S)]
pub struct ExAHashSet<T, S>(AHashSet<T, S>);

#[verifier::external_type_specification]
#[verifier::external_body]
pub struct ExRandomState(ahash::RandomState);

/// The peers that a set holds, each by the bytes of its identity.
pub uninterp spec fn peers_in(s: AHashSet<PeerId>) -> Set<Seq<u8>>;

/// Relies on `AHashSet::new`: a set with no peers.
#[verifier::external_body]
fn hash_set_new() -> (r: AHashSet<PeerId>)
    ensures
        peers_in(r) == Set::<Seq<u8>>::empty(),
{
    AHashSet::new()
}

/// Relies on `HashSet::insert` (through `AHashSet`'s `DerefMut`): adds the
/// peer, and tells whether it was absent.
#[verifier::external_body]
fn hash_set_insert(s: &mut AHashSet<PeerId>, p: PeerId) -> (r: bool)
    ensures
        peers_in(*final(s)) == peers_in(*old(s)).insert(p@),
        r == !peers_in(*old(s)).contains(p@),
{
    s.insert(p)
}

/// Relies on `HashSet::remove` (through `AHashSet`'s `DerefMut`): takes the
/// peer out, and tells whether it was there.
#[verifier::external_body]
fn hash_set_remove(s: &mut AHashSet<PeerId>, p: &PeerId) -> (r: bool)
    ensures
        peers_in(*final(s)) == peers_in(*old(s)).remove(p@),
        r == peers_in(*old(s)).contains(p@),
{
    s.remove(p)
}

/// Relies on `HashSet::contains` (through `AHashSet`'s `Deref`).
#[verifier::external_body]
fn hash_set_contains(s: &AHashSet<PeerId>, p: &PeerId) -> (r: bool)
    ensures
        r == peers_in(*s).contains(p@),
{
    s.contains(p)
}

/// Relies on `HashSet::len` (through `AHashSet`'s `Deref`): the number of
/// peers, each counted once.
#[verifier::external_body]
fn hash_set_len(s: &AHashSet<PeerId>) -> (r: usize)
    ensures
        r == peers_in(*s).len(),
{
    s.len()
}

/// Relies on `HashSet::iter` (through `AHashSet`'s `Deref`): every peer once,
/// in an order that the set's random hasher decides.
#[verifier::external_body]
fn hash_set_items(s: &AHashSet<PeerId>) -> (r: Vec<PeerId>)
    ensures
        forall|i: int| 0 <= i < r@.len() ==> peers_in(*s).contains(#[trigger] r@[i]@),
        forall|v: Seq<u8>| peers_in(*s).contains(v) ==> exists|i: int| 0 <= i < r@.len() && #[trigger] r@[i]@ == v,
        forall|i: int, j: int| 0 <= i < j < r@.len() ==> #[trigger] r@[i]@ != #[trigger] r@[j]@,
{
    s.iter().map(|p| p.copy()).collect()
}

/// The list holds each peer of the set once, and nothing else.
pub open spec fn lists_set(v: Seq<PeerId>, s: Set<Seq<u8>>) -> bool {
    &&& forall|i: int| 0 <= i < v.len() ==> s.contains(#[trigger] v[i]@)
    &&& forall|x: Seq<u8>| s.contains(x) ==> exists|i: int| 0 <= i < v.len() && #[trigger] v[i]@ == x
    &&& forall|i: int, j: int| 0 <= i < j < v.len() ==> #[trigger] v[i]@ != #[trigger] v[j]@
}

/// A finite set of peers.
pub struct PeerSet {
    inner: AHashSet<PeerId>,
}

impl View for PeerSet {
    type V = Set<Seq<u8>>;

    closed spec fn view(&self) -> Set<Seq<u8>> {
        peers_in(self.inner)
    }
}

impl PeerSet {
    pub closed spec fn wf(&self) -> bool {
        self@.finite()
    }

    pub fn new() -> (r: PeerSet)
        ensures
            r.wf(),
            r@ == Set::<Seq<u8>>::empty(),
    {
        PeerSet { inner: hash_set_new() }
    }

    /// A set of the given peers.
    pub fn from_peers(peers: &Vec<PeerId>) -> (r: PeerSet)
        ensures
            r.wf(),
            forall|v: Seq<u8>| r@.contains(v) <==> exists|i: int| 0 <= i < peers@.len() && #[trigger] peers@[i]@ == v,
    {
        let mut r = PeerSet::new();
        let mut i: usize = 0;
        while i < peers.len()
            invariant
                0 <= i <= peers@.len(),
                r.wf(),
                forall|v: Seq<u8>| r@.contains(v) <==> exists|k: int| 0 <= k < i && #[trigger] peers@[k]@ == v,
            decreases peers@.len() - i,
        {
            r.insert(peers[i].copy());
            proof {
                assert forall|v: Seq<u8>| r@.contains(v) <==> exists|k: int| 0 <= k < i + 1 && #[trigger] peers@[k]@ == v by {
                    if v == peers@[i as int]@ {
                    } else if r@.contains(v) {
                    }
                }
            }
            i = i + 1;
        }
        r
    }

    pub fn insert(&mut self, p: PeerId) -> (r: bool)
        requires
            old(self).wf(),
        ensures
            final(self).wf(),
            final(self)@ == old(self)@.insert(p@),
            r == !old(self)@.contains(p@),
    {
        hash_set_insert(&mut self.inner, p)
    }

    pub fn remove(&mut self, p: &PeerId) -> (r: bool)
        requires
            old(self).wf(),
        ensures
            final(self).wf(),
            final(self)@ == old(self)@.remove(p@),
            r == old(self)@.contains(p@),
    {
        hash_set_remove(&mut self.inner, p)
    }

    pub fn contains(&self, p: &PeerId) -> (r: bool)
        ensures
            r == self@.contains(p@),
    {
        hash_set_contains(&self.inner, p)
    }

    pub fn len(&self) -> (r: usize)
        ensures
            r == self@.len(),
    {
        hash_set_len(&self.inner)
    }

    pub fn is_empty(&self) -> (r: bool)
        requires
            self.wf(),
        ensures
            r == (self@ == Set::<Seq<u8>>::empty()),
    {
        proof {
            if self@.len() == 0 {
                self@.lemma_len0_is_empty();
            }
        }
        hash_set_len(&self.inner) == 0
    }

    /// The peers, each once, in no particular order.
    pub fn to_vec(&self) -> (r: Vec<PeerId>)
        ensures
            lists_set(r@, self@),
    {
        hash_set_items(&self.inner)
    }

    /// Adds every peer of the other set.
    pub fn extend(&mut self, other: &PeerSet)
        requires
            old(self).wf(),
            other.wf(),
        ensures
            final(self).wf(),
            final(self)@ == old(self)@.union(other@),
    {
        let items = other.to_vec();
        let mut i: usize = 0;
        while i < items.len()
            invariant
                0 <= i <= items@.len(),
                self.wf(),
                forall|v: Seq<u8>| self@.contains(v) <==> (old(self)@.contains(v) || exists|k: int| 0 <= k < i && #[trigger] items@[k]@ == v),
                forall|k: int| 0 <= k < items@.len() ==> other@.contains(#[trigger] items@[k]@),
                forall|v: Seq<u8>| other@.contains(v) ==> exists|k: int| 0 <= k < items@.len() && #[trigger] items@[k]@ == v,
            decreases items@.len() - i,
        {
            self.insert(items[i].copy());
            proof {
                assert forall|v: Seq<u8>| self@.contains(v) <==> (old(self)@.contains(v) || exists|k: int| 0 <= k < i + 1 && #[trigger] items@[k]@ == v) by {
                    if v == items@[i as int]@ {
                    } else if self@.contains(v) {
                    }
                }
            }
            i = i + 1;
        }
        assert(self@ =~= old(self)@.union(other@));
    }

    /// A second set with the same peers.
    pub fn copy(&self) -> (r: PeerSet)
        ensures
            r.wf(),
            r@ == self@,
    {
        let items = self.to_vec();
        let r = PeerSet::from_peers(&items);
        assert(r@ =~= self@);
        r
    }
}

} // verus!
