//! The Bitswap message: a wantlist, block payloads and block presences.
use vstd::prelude::*;
use crate::ids::{Block, Cid, Priority};

verus! {

/// What a wantlist entry asks of its receiver.
#[derive(Clone, Copy, Debug, PartialEq, Eq, Structural)]
pub enum WantType {
    /// Send the block.
    Block,
    /// Tell whether you have the block.
    Have,
    /// Forget an earlier want of the block.
    Cancel,
}

/// A wantlist entry as a value: identifier, kind and priority.
pub type EntryView = (Seq<u8>, WantType, u32);

pub struct Entry {
    pub cid: Cid,
    pub want_type: WantType,
    pub priority: Priority,
}

impl View for Entry {
    type V = EntryView;

    open spec fn view(&self) -> EntryView {
        (self.cid@, self.want_type, self.priority)
    }
}

impl Entry {
    pub fn copy(&self) -> (r: Entry)
        ensures
            r@ == self@,
    {
        Entry { cid: self.cid.copy(), want_type: self.want_type, priority: self.priority }
    }
}

pub open spec fn entries_view(v: Seq<Entry>) -> Seq<EntryView> {
    v.map_values(|e: Entry| e@)
}

/// No identifier appears in two entries.
pub open spec fn unique_cids(s: Seq<EntryView>) -> bool {
    forall|i: int, j: int| 0 <= i < s.len() && 0 <= j < s.len() && i != j ==> #[trigger] s[i].0 != #[trigger] s[j].0
}

/// Which entries a selection keeps.
#[derive(Clone, Copy, Debug, PartialEq, Eq, Structural)]
pub enum Pick {
    /// Those for other blocks.
    OtherCids,
    /// All but the want-block and want-have entries of the block.
    NoWantsOf,
    /// All but the want-have entry of the block.
    NoWantHaveOf,
    /// Those of the given kind, whatever the block.
    OfType(WantType),
}

pub open spec fn picks(p: Pick, cid: Seq<u8>, e: EntryView) -> bool {
    match p {
        Pick::OtherCids => e.0 != cid,
        Pick::NoWantsOf => !(e.0 == cid && e.1 != WantType::Cancel),
        Pick::NoWantHaveOf => !(e.0 == cid && e.1 == WantType::Have),
        Pick::OfType(t) => e.1 == t,
    }
}

pub open spec fn pick_fn(p: Pick, cid: Seq<u8>) -> spec_fn(EntryView) -> bool {
    |e: EntryView| picks(p, cid, e)
}

/// The entries of a message, at most one for each block.
pub struct Wantlist {
    entries: Vec<Entry>,
}

impl View for Wantlist {
    type V = Seq<EntryView>;

    closed spec fn view(&self) -> Seq<EntryView> {
        entries_view(self.entries@)
    }
}

impl Wantlist {
    pub open spec fn wf(&self) -> bool {
        unique_cids(self@)
    }

    pub fn new() -> (r: Wantlist)
        ensures
            r.wf(),
            r@ == Seq::<EntryView>::empty(),
    {
        let r = Wantlist { entries: Vec::new() };
        assert(r@ =~= Seq::<EntryView>::empty());
        r
    }

    pub fn len(&self) -> (r: usize)
        ensures
            r == self@.len(),
    {
        self.entries.len()
    }

    pub fn is_empty(&self) -> (r: bool)
        ensures
            r == (self@.len() == 0),
    {
        self.entries.len() == 0
    }

    /// Copies of the entries that `p` keeps, in their order.
    pub fn select(&self, cid: &Cid, p: Pick) -> (r: Vec<Entry>)
        ensures
            entries_view(r@) == self@.filter(pick_fn(p, cid@)),
            self.wf() ==> unique_cids(entries_view(r@)),
    {
        let ghost f = pick_fn(p, cid@);
        let mut kept: Vec<Entry> = Vec::new();
        let mut i: usize = 0;
        while i < self.entries.len()
            invariant
                0 <= i <= self@.len(),
                self@.len() == self.entries@.len(),
                f == pick_fn(p, cid@),
                entries_view(kept@) == self@.subrange(0, i as int).filter(f),
                self.wf() ==> unique_cids(entries_view(kept@)),
            decreases self@.len() - i,
        {
            let e = &self.entries[i];
            assert(e@ == self@[i as int]);
            let keep = match p {
                Pick::OtherCids => !e.cid.same(cid),
                Pick::NoWantsOf => !(e.cid.same(cid) && e.want_type != WantType::Cancel),
                Pick::NoWantHaveOf => !(e.cid.same(cid) && e.want_type == WantType::Have),
                Pick::OfType(t) => e.want_type == t,
            };
            let ghost before = entries_view(kept@);
            proof {
                assert(self@.subrange(0, i as int + 1) =~= self@.subrange(0, i as int).push(self@[i as int]));
                self@.subrange(0, i as int).lemma_filter_push(self@[i as int], f);
            }
            if keep {
                let c = e.copy();
                kept.push(c);
                proof {
                    assert(entries_view(kept@) =~= before.push(self@[i as int]));
                    assert forall|k: int| 0 <= k < before.len() && self.wf() implies #[trigger] before[k].0 != self@[i as int].0 by {
                        assert(before.contains(before[k]));
                        self@.subrange(0, i as int).lemma_filter_contains_rev(f, before[k]);
                        let j = choose|j: int| 0 <= j < i && self@.subrange(0, i as int)[j] == before[k];
                        assert(self@[j] == before[k]);
                    }
                }
            }
            i = i + 1;
        }
        assert(self@.subrange(0, self@.len() as int) =~= self@);
        kept
    }

    /// Keeps the entries that `p` keeps.
    pub fn retain(&mut self, cid: &Cid, p: Pick)
        requires
            old(self).wf(),
        ensures
            final(self).wf(),
            final(self)@ == old(self)@.filter(pick_fn(p, cid@)),
    {
        let kept = self.select(cid, p);
        self.entries = kept;
    }

    /// Sets the entry of the block, in place of any earlier one.
    pub fn set_entry(&mut self, cid: &Cid, want_type: WantType, priority: Priority)
        requires
            old(self).wf(),
        ensures
            final(self).wf(),
            final(self)@ == old(self)@.filter(pick_fn(Pick::OtherCids, cid@)).push((cid@, want_type, priority)),
    {
        self.retain(cid, Pick::OtherCids);
        let ghost mid = self@;
        self.entries.push(Entry { cid: cid.copy(), want_type, priority });
        proof {
            assert(self@ =~= mid.push((cid@, want_type, priority)));
            assert forall|k: int| 0 <= k < mid.len() implies #[trigger] mid[k].0 != cid@ by {
                old(self)@.lemma_filter_pred(pick_fn(Pick::OtherCids, cid@), k);
            }
        }
    }

    /// Records a want-block entry.
    pub fn want_block(&mut self, cid: &Cid, priority: Priority)
        requires
            old(self).wf(),
        ensures
            final(self).wf(),
            final(self)@ == old(self)@.filter(pick_fn(Pick::OtherCids, cid@)).push((cid@, WantType::Block, priority)),
    {
        self.set_entry(cid, WantType::Block, priority)
    }

    /// Records a want-have entry.
    pub fn want_have_block(&mut self, cid: &Cid, priority: Priority)
        requires
            old(self).wf(),
        ensures
            final(self).wf(),
            final(self)@ == old(self)@.filter(pick_fn(Pick::OtherCids, cid@)).push((cid@, WantType::Have, priority)),
    {
        self.set_entry(cid, WantType::Have, priority)
    }

    /// Records a cancel entry; it supersedes any want of the block.
    pub fn cancel_block(&mut self, cid: &Cid)
        requires
            old(self).wf(),
        ensures
            final(self).wf(),
            final(self)@ == old(self)@.filter(pick_fn(Pick::OtherCids, cid@)).push((cid@, WantType::Cancel, 0u32)),
    {
        self.set_entry(cid, WantType::Cancel, 0)
    }

    /// Drops the want-block and want-have entries of the block.
    pub fn remove_block(&mut self, cid: &Cid)
        requires
            old(self).wf(),
        ensures
            final(self).wf(),
            final(self)@ == old(self)@.filter(pick_fn(Pick::NoWantsOf, cid@)),
    {
        self.retain(cid, Pick::NoWantsOf)
    }

    /// Drops the want-have entry of the block.
    pub fn remove_want_have_block(&mut self, cid: &Cid)
        requires
            old(self).wf(),
        ensures
            final(self).wf(),
            final(self)@ == old(self)@.filter(pick_fn(Pick::NoWantHaveOf, cid@)),
    {
        self.retain(cid, Pick::NoWantHaveOf)
    }

    /// The entries of one kind, in order.
    pub fn of_type(&self, want_type: WantType) -> (r: Vec<Entry>)
        ensures
            entries_view(r@) == self@.filter(pick_fn(Pick::OfType(want_type), Seq::<u8>::empty())),
    {
        let none = Cid::from_bytes(Vec::new());
        proof {
            assert(none@ =~= Seq::<u8>::empty());
        }
        self.select(&none, Pick::OfType(want_type))
    }
}

/// The identifier and priority of each entry.
fn pairs(entries: &Vec<Entry>) -> (r: Vec<(Cid, Priority)>)
    ensures
        r@.len() == entries@.len(),
        forall|i: int| 0 <= i < r@.len() ==> (#[trigger] r@[i]).0@ == entries@[i].cid@ && r@[i].1 == entries@[i].priority,
{
    let mut r: Vec<(Cid, Priority)> = Vec::new();
    let mut i: usize = 0;
    while i < entries.len()
        invariant
            0 <= i <= entries@.len(),
            r@.len() == i,
            forall|k: int| 0 <= k < i ==> (#[trigger] r@[k]).0@ == entries@[k].cid@ && r@[k].1 == entries@[k].priority,
        decreases entries@.len() - i,
    {
        r.push((entries[i].cid.copy(), entries[i].priority));
        i = i + 1;
    }
    r
}

impl Wantlist {
    /// The want-block entries, as identifier and priority, in order.
    pub fn blocks(&self) -> (r: Vec<(Cid, Priority)>)
        ensures
            r@.len() == self@.filter(pick_fn(Pick::OfType(WantType::Block), Seq::<u8>::empty())).len(),
            forall|i: int| 0 <= i < r@.len() ==> ((#[trigger] r@[i]).0@, WantType::Block, r@[i].1)
                == self@.filter(pick_fn(Pick::OfType(WantType::Block), Seq::<u8>::empty()))[i],
    {
        let es = self.of_type(WantType::Block);
        proof {
            assert forall|i: int| 0 <= i < es@.len() implies (#[trigger] es@[i])@.1 == WantType::Block by {
                assert(entries_view(es@)[i] == es@[i]@);
                self@.lemma_filter_pred(pick_fn(Pick::OfType(WantType::Block), Seq::<u8>::empty()), i);
            }
        }
        pairs(&es)
    }

    /// The want-have entries, as identifier and priority, in order.
    pub fn want_have_blocks(&self) -> (r: Vec<(Cid, Priority)>)
        ensures
            r@.len() == self@.filter(pick_fn(Pick::OfType(WantType::Have), Seq::<u8>::empty())).len(),
            forall|i: int| 0 <= i < r@.len() ==> ((#[trigger] r@[i]).0@, WantType::Have, r@[i].1)
                == self@.filter(pick_fn(Pick::OfType(WantType::Have), Seq::<u8>::empty()))[i],
    {
        let es = self.of_type(WantType::Have);
        proof {
            assert forall|i: int| 0 <= i < es@.len() implies (#[trigger] es@[i])@.1 == WantType::Have by {
                assert(entries_view(es@)[i] == es@[i]@);
                self@.lemma_filter_pred(pick_fn(Pick::OfType(WantType::Have), Seq::<u8>::empty()), i);
            }
        }
        pairs(&es)
    }

    /// The identifiers of the cancel entries, in order.
    pub fn cancels(&self) -> (r: Vec<Cid>)
        ensures
            r@.len() == self@.filter(pick_fn(Pick::OfType(WantType::Cancel), Seq::<u8>::empty())).len(),
            forall|i: int| 0 <= i < r@.len() ==> (#[trigger] r@[i])@
                == self@.filter(pick_fn(Pick::OfType(WantType::Cancel), Seq::<u8>::empty()))[i].0,
    {
        let es = self.of_type(WantType::Cancel);
        let mut r: Vec<Cid> = Vec::new();
        let mut i: usize = 0;
        while i < es.len()
            invariant
                0 <= i <= es@.len(),
                r@.len() == i,
                entries_view(es@) == self@.filter(pick_fn(Pick::OfType(WantType::Cancel), Seq::<u8>::empty())),
                forall|k: int| 0 <= k < i ==> (#[trigger] r@[k])@ == es@[k].cid@,
            decreases es@.len() - i,
        {
            r.push(es[i].cid.copy());
            i = i + 1;
        }
        assert forall|k: int| 0 <= k < r@.len() implies (#[trigger] r@[k])@
            == self@.filter(pick_fn(Pick::OfType(WantType::Cancel), Seq::<u8>::empty()))[k].0 by {
            assert(entries_view(es@)[k] == es@[k]@);
        }
        r
    }
}

/// Whether a peer has a block.
#[derive(Clone, Copy, Debug, PartialEq, Eq, Structural)]
pub enum PresenceType {
    Have,
    DontHave,
}

pub struct BlockPresence {
    pub cid: Cid,
    pub presence_type: PresenceType,
}

impl View for BlockPresence {
    type V = (Seq<u8>, PresenceType);

    open spec fn view(&self) -> (Seq<u8>, PresenceType) {
        (self.cid@, self.presence_type)
    }
}

impl BlockPresence {
    /// An announcement that the sender has the block.
    pub fn have(cid: Cid) -> (r: BlockPresence)
        ensures
            r@ == (cid@, PresenceType::Have),
    {
        BlockPresence { cid, presence_type: PresenceType::Have }
    }

    pub fn dont_have(cid: Cid) -> (r: BlockPresence)
        ensures
            r@ == (cid@, PresenceType::DontHave),
    {
        BlockPresence { cid, presence_type: PresenceType::DontHave }
    }

    pub fn is_have(&self) -> (r: bool)
        ensures
            r == (self.presence_type == PresenceType::Have),
    {
        self.presence_type == PresenceType::Have
    }

    pub fn copy(&self) -> (r: BlockPresence)
        ensures
            r@ == self@,
    {
        BlockPresence { cid: self.cid.copy(), presence_type: self.presence_type }
    }
}

pub open spec fn blocks_view(v: Seq<Block>) -> Seq<(Seq<u8>, Seq<u8>)> {
    v.map_values(|b: Block| b@)
}

pub open spec fn presences_view(v: Seq<BlockPresence>) -> Seq<(Seq<u8>, PresenceType)> {
    v.map_values(|b: BlockPresence| b@)
}

/// A message as a value: wantlist entries, block payloads, presences.
pub type MessageView = (Seq<EntryView>, Seq<(Seq<u8>, Seq<u8>)>, Seq<(Seq<u8>, PresenceType)>);

pub open spec fn empty_message() -> MessageView {
    (Seq::empty(), Seq::empty(), Seq::empty())
}

pub open spec fn message_is_empty(m: MessageView) -> bool {
    m.0.len() == 0 && m.1.len() == 0 && m.2.len() == 0
}

/// The message with the presence added, unless it is there already.
pub open spec fn with_presence(m: MessageView, p: (Seq<u8>, PresenceType)) -> MessageView {
    if m.2.contains(p) {
        m
    } else {
        (m.0, m.1, m.2.push(p))
    }
}

/// A Bitswap message.
pub struct BitswapMessage {
    wantlist: Wantlist,
    blocks: Vec<Block>,
    presences: Vec<BlockPresence>,
}

impl View for BitswapMessage {
    type V = MessageView;

    closed spec fn view(&self) -> MessageView {
        (self.wantlist@, blocks_view(self.blocks@), presences_view(self.presences@))
    }
}

impl BitswapMessage {
    /// Each block has at most one wantlist entry, and each presence
    /// appears once.
    pub open spec fn wf(&self) -> bool {
        &&& unique_cids(self@.0)
        &&& self@.2.no_duplicates()
    }

    pub fn new() -> (r: BitswapMessage)
        ensures
            r.wf(),
            r@ == empty_message(),
    {
        let r = BitswapMessage { wantlist: Wantlist::new(), blocks: Vec::new(), presences: Vec::new() };
        assert(r@.1 =~= Seq::<(Seq<u8>, Seq<u8>)>::empty());
        assert(r@.2 =~= Seq::<(Seq<u8>, PresenceType)>::empty());
        r
    }

    pub fn is_empty(&self) -> (r: bool)
        ensures
            r == message_is_empty(self@),
    {
        self.wantlist.is_empty() && self.blocks.len() == 0 && self.presences.len() == 0
    }

    pub fn wantlist(&self) -> (r: &Wantlist)
        ensures
            r@ == self@.0,
            self.wf() ==> r.wf(),
    {
        &self.wantlist
    }

    pub fn wantlist_mut(&mut self) -> (r: &mut Wantlist)
        ensures
            r@ == old(self)@.0,
            old(self).wf() ==> r.wf(),
            final(self)@ == (final(r)@, old(self)@.1, old(self)@.2),
    {
        &mut self.wantlist
    }

    pub fn blocks(&self) -> (r: &Vec<Block>)
        ensures
            blocks_view(r@) == self@.1,
    {
        &self.blocks
    }

    pub fn block_presences(&self) -> (r: &Vec<BlockPresence>)
        ensures
            presences_view(r@) == self@.2,
    {
        &self.presences
    }

    /// Appends a block payload.
    pub fn add_block(&mut self, block: Block)
        requires
            old(self).wf(),
        ensures
            final(self).wf(),
            final(self)@ == (old(self)@.0, old(self)@.1.push(block@), old(self)@.2),
    {
        let ghost b = block@;
        self.blocks.push(block);
        assert(blocks_view(self.blocks@) =~= old(self)@.1.push(b));
    }

    /// Adds a presence announcement, unless it is there already.
    pub fn add_block_presence(&mut self, bp: BlockPresence)
        requires
            old(self).wf(),
        ensures
            final(self).wf(),
            final(self)@ == with_presence(old(self)@, bp@),
    {
        let mut i: usize = 0;
        while i < self.presences.len()
            invariant
                0 <= i <= self.presences@.len(),
                self.wf(),
                self@ == old(self)@,
                forall|k: int| 0 <= k < i ==> #[trigger] self@.2[k] != bp@,
            decreases self.presences@.len() - i,
        {
            let q = &self.presences[i];
            assert(q@ == self@.2[i as int]);
            if q.cid.same(&bp.cid) && q.presence_type == bp.presence_type {
                assert(self@.2.contains(bp@));
                return;
            }
            i = i + 1;
        }
        let ghost p = bp@;
        self.presences.push(bp);
        assert(presences_view(self.presences@) =~= old(self)@.2.push(p));
    }

    /// Takes the message out, leaving an empty one.
    pub fn take(&mut self) -> (r: BitswapMessage)
        requires
            old(self).wf(),
        ensures
            r.wf(),
            final(self).wf(),
            r@ == old(self)@,
            final(self)@ == empty_message(),
    {
        let mut m = BitswapMessage::new();
        std::mem::swap(self, &mut m);
        m
    }
}

} // verus!
