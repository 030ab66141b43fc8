//! Per-channel cache of stream-index lookups with single-flight coalescing.
//!
//! A channel's slot holds either a resolved index or a fetch in flight.
//! The first caller for a channel is told to perform the one upstream
//! fetch; every caller that arrives while that fetch is in flight joins it
//! as a numbered waiter instead of starting a second one. When the fetcher
//! reports the outcome, the one result is handed back together with every
//! waiter, so all coalesced callers receive the same result. A successful
//! fetch is cached; a failed fetch leaves no trace, so the next caller
//! gets a fresh attempt (errors never poison the cache).

use vstd::prelude::*;
use crate::types::{IndexError, StreamIndex, VariantInfoView};

verus! {

/// Model of one cache slot: a resolved variant listing, or an in-flight
/// fetch with the tickets of the callers that joined it.
pub ghost enum CacheEntryView {
    Resolved(Seq<VariantInfoView>),
    InFlight(Seq<u64>),
}

enum CacheEntry {
    Resolved(StreamIndex),
    InFlight(Vec<u64>),
}

impl CacheEntry {
    spec fn model(&self) -> CacheEntryView {
        match self {
            CacheEntry::Resolved(index) => CacheEntryView::Resolved(index@),
            CacheEntry::InFlight(waiters) => CacheEntryView::InFlight(waiters@),
        }
    }

    spec fn wf(&self) -> bool {
        match self {
            CacheEntry::Resolved(_) => true,
            CacheEntry::InFlight(waiters) => forall|k: int|
                0 <= k < waiters@.len() ==> waiters@[k] == k as u64,
        }
    }
}

struct CacheSlot {
    channel: String,
    entry: CacheEntry,
}

spec fn has_channel(slots: Seq<CacheSlot>, c: Seq<char>) -> bool {
    exists|i: int| 0 <= i < slots.len() && slots[i].channel@ == c
}

spec fn channel_at(slots: Seq<CacheSlot>, c: Seq<char>) -> int {
    choose|i: int| 0 <= i < slots.len() && slots[i].channel@ == c
}

spec fn slots_model(slots: Seq<CacheSlot>) -> Map<Seq<char>, CacheEntryView> {
    Map::new(
        |c: Seq<char>| has_channel(slots, c),
        |c: Seq<char>| slots[channel_at(slots, c)].entry.model(),
    )
}

spec fn distinct_channels(slots: Seq<CacheSlot>) -> bool {
    forall|i: int, j: int| 0 <= i < j < slots.len() ==> slots[i].channel@ != slots[j].channel@
}

proof fn lemma_model_at(slots: Seq<CacheSlot>, i: int)
    requires
        distinct_channels(slots),
        0 <= i < slots.len(),
    ensures
        slots_model(slots).dom().contains(slots[i].channel@),
        slots_model(slots)[slots[i].channel@] == slots[i].entry.model(),
        channel_at(slots, slots[i].channel@) == i,
{
    assert(has_channel(slots, slots[i].channel@));
    let j = channel_at(slots, slots[i].channel@);
    assert(0 <= j < slots.len() && slots[j].channel@ == slots[i].channel@);
    assert(j == i);
}

proof fn lemma_model_absent(slots: Seq<CacheSlot>, c: Seq<char>)
    requires
        forall|i: int| 0 <= i < slots.len() ==> slots[i].channel@ != c,
    ensures
        !slots_model(slots).dom().contains(c),
{
}

/// The per-channel cache of index lookups. Its model is a map from
/// channel name to what the channel's slot holds.
pub struct IndexCache {
    slots: Vec<CacheSlot>,
}

/// What `get` tells its caller: a cached index can be answered from
/// directly; a joined caller waits for the in-flight fetch, identified by
/// its ticket; the first caller for a channel must perform the one
/// upstream fetch and report it through `complete`.
pub enum GetOutcome {
    Cached(StreamIndex),
    Joined(u64),
    MustFetch,
}

impl View for IndexCache {
    type V = Map<Seq<char>, CacheEntryView>;

    closed spec fn view(&self) -> Map<Seq<char>, CacheEntryView> {
        slots_model(self.slots@)
    }
}

impl IndexCache {
    /// The cache is well formed: one slot per channel, and the waiters of
    /// an in-flight fetch are ticketed in arrival order.
    pub closed spec fn wf(&self) -> bool {
        &&& distinct_channels(self.slots@)
        &&& forall|i: int| 0 <= i < self.slots@.len() ==> (#[trigger] self.slots@[i].entry).wf()
    }

    /// An empty cache: no channel has a slot.
    pub fn new() -> (c: Self)
        ensures
            c.wf(),
            c@ == Map::<Seq<char>, CacheEntryView>::empty(),
    {
        let c = IndexCache { slots: Vec::new() };
        proof {
            assert(c@ =~= Map::<Seq<char>, CacheEntryView>::empty());
        }
        c
    }

    fn find_slot(&self, channel: &String) -> (r: Option<usize>)
        ensures
            match r {
                Some(i) => i < self.slots@.len() && self.slots@[i as int].channel@ == channel@,
                None => forall|i: int|
                    0 <= i < self.slots@.len() ==> self.slots@[i].channel@ != channel@,
            },
    {
        let mut i: usize = 0;
        while i < self.slots.len()
            invariant
                i <= self.slots@.len(),
                forall|j: int| 0 <= j < i ==> self.slots@[j].channel@ != channel@,
            decreases self.slots@.len() - i,
        {
            if self.slots[i].channel == *channel {
                return Some(i);
            }
            i = i + 1;
        }
        None
    }

    /// One lookup step for `channel`, the single-flight decision made
    /// atomically with the registration it implies. A resolved slot
    /// answers from the cache and changes nothing. An in-flight slot
    /// enrols the caller as one more waiter of that same fetch — never a
    /// second upstream call — and hands back a ticket fresh among that
    /// flight's waiters. Only when the channel has no slot at all is the
    /// caller told to fetch, and the slot is marked in flight for those
    /// that follow.
    pub fn get(&mut self, channel: &String) -> (r: GetOutcome)
        requires
            old(self).wf(),
        ensures
            final(self).wf(),
            match r {
                GetOutcome::Cached(index) => {
                    &&& old(self)@.contains_key(channel@)
                    &&& (old(self)@[channel@] matches CacheEntryView::Resolved(vs) && index@ == vs)
                    &&& final(self)@ == old(self)@
                },
                GetOutcome::Joined(t) => {
                    &&& old(self)@.contains_key(channel@)
                    &&& old(self)@[channel@] is InFlight
                    &&& (old(self)@[channel@] matches CacheEntryView::InFlight(ws) ==> {
                        &&& t as nat == ws.len()
                        &&& !ws.contains(t)
                        &&& final(self)@ == old(self)@.insert(
                            channel@,
                            CacheEntryView::InFlight(ws.push(t)),
                        )
                    })
                },
                GetOutcome::MustFetch => {
                    &&& !old(self)@.contains_key(channel@)
                    &&& final(self)@ == old(self)@.insert(
                        channel@,
                        CacheEntryView::InFlight(Seq::empty()),
                    )
                },
            },
    {
        match self.find_slot(channel) {
            None => {
                proof {
                    lemma_model_absent(self.slots@, channel@);
                }
                let slot = CacheSlot {
                    channel: channel.clone(),
                    entry: CacheEntry::InFlight(Vec::new()),
                };
                proof {
                    lemma_model_push(self.slots@, slot);
                }
                self.slots.push(slot);
                GetOutcome::MustFetch
            },
            Some(i) => {
                proof {
                    lemma_model_at(self.slots@, i as int);
                }
                let slot = self.slots.remove(i);
                let CacheSlot { channel: ch, entry } = slot;
                match entry {
                    CacheEntry::Resolved(index) => {
                        let out = index.clone();
                        let back = CacheSlot { channel: ch, entry: CacheEntry::Resolved(index) };
                        self.slots.insert(i, back);
                        proof {
                            assert(self.slots@ =~= old(self).slots@);
                        }
                        GetOutcome::Cached(out)
                    },
                    CacheEntry::InFlight(mut waiters) => {
                        let t = waiters.len() as u64;
                        proof {
                            let ws = waiters@;
                            assert(old(self).slots@[i as int].entry.wf());
                            assert(forall|k: int| 0 <= k < ws.len() ==> ws[k] == k as u64);
                            assert(!ws.contains(t)) by {
                                assert(forall|k: int| 0 <= k < ws.len() ==> #[trigger] ws[k] != t);
                            }
                        }
                        waiters.push(t);
                        let back = CacheSlot { channel: ch, entry: CacheEntry::InFlight(waiters) };
                        proof {
                            lemma_model_update(
                                old(self).slots@,
                                i as int,
                                CacheSlot {
                                    channel: ch,
                                    entry: CacheEntry::InFlight(waiters),
                                },
                            );
                        }
                        self.slots.insert(i, back);
                        proof {
                            assert(self.slots@ =~= old(self).slots@.update(
                                i as int,
                                CacheSlot { channel: ch, entry: CacheEntry::InFlight(waiters) },
                            ));
                        }
                        GetOutcome::Joined(t)
                    },
                }
            },
        }
    }

    /// The fetcher reports the one outcome of a channel's in-flight
    /// fetch. Every waiter that joined the flight is returned, so the
    /// caller can deliver this same result to each of them. A successful
    /// index is cached for later lookups; a failure removes the slot
    /// outright, so the next caller starts a fresh attempt rather than
    /// reading a poisoned entry.
    pub fn complete(&mut self, channel: &String, result: &Result<StreamIndex, IndexError>) -> (waiters: Vec<u64>)
        requires
            old(self).wf(),
            old(self)@.contains_key(channel@),
            old(self)@[channel@] is InFlight,
        ensures
            final(self).wf(),
            (old(self)@[channel@] matches CacheEntryView::InFlight(ws) ==> waiters@ == ws),
            match result {
                Ok(index) => final(self)@ == old(self)@.insert(
                    channel@,
                    CacheEntryView::Resolved(index@),
                ),
                Err(_) => final(self)@ == old(self)@.remove(channel@),
            },
    {
        match self.find_slot(channel) {
            None => {
                proof {
                    lemma_model_absent(self.slots@, channel@);
                    assert(false);
                }
                Vec::new()
            },
            Some(i) => {
                proof {
                    lemma_model_at(self.slots@, i as int);
                }
                let slot = self.slots.remove(i);
                let CacheSlot { channel: ch, entry } = slot;
                match entry {
                    CacheEntry::Resolved(_) => {
                        proof {
                            assert(false);
                        }
                        Vec::new()
                    },
                    CacheEntry::InFlight(waiters) => {
                        proof {
                            lemma_model_remove(old(self).slots@, i as int);
                            assert(self.slots@ =~= old(self).slots@.remove(i as int));
                        }
                        match result {
                            Ok(index) => {
                                let back = CacheSlot {
                                    channel: ch,
                                    entry: CacheEntry::Resolved(index.clone()),
                                };
                                proof {
                                    lemma_model_push(self.slots@, back);
                                }
                                self.slots.push(back);
                                proof {
                                    assert(final(self)@ =~= old(self)@.insert(
                                        channel@,
                                        CacheEntryView::Resolved(index@),
                                    ));
                                }
                                waiters
                            },
                            Err(_) => {
                                waiters
                            },
                        }
                    },
                }
            },
        }
    }
}

proof fn lemma_model_push(slots: Seq<CacheSlot>, s: CacheSlot)
    requires
        distinct_channels(slots),
        !has_channel(slots, s.channel@),
    ensures
        distinct_channels(slots.push(s)),
        slots_model(slots.push(s)) == slots_model(slots).insert(s.channel@, s.entry.model()),
{
    let s2 = slots.push(s);
    assert forall|i: int, j: int| 0 <= i < j < s2.len() implies s2[i].channel@ != s2[j].channel@ by {
        if j == slots.len() {
            assert(s2[j] == s);
            assert(has_channel(slots, slots[i].channel@));
        }
    }
    assert forall|c: Seq<char>| true implies #[trigger] has_channel(s2, c) == (has_channel(slots, c)
        || c == s.channel@) by {
        if has_channel(slots, c) {
            let i = channel_at(slots, c);
            assert(s2[i].channel@ == c);
        }
        if c == s.channel@ {
            assert(s2[slots.len() as int].channel@ == c);
        }
        if has_channel(s2, c) {
            let i = choose|i: int| 0 <= i < s2.len() && s2[i].channel@ == c;
            if i < slots.len() {
                assert(slots[i].channel@ == c);
            }
        }
    }
    assert forall|c: Seq<char>| has_channel(s2, c) implies slots_model(s2)[c] == slots_model(
        slots,
    ).insert(s.channel@, s.entry.model())[c] by {
        if c == s.channel@ {
            lemma_model_at(s2, slots.len() as int);
        } else {
            let i = channel_at(slots, c);
            assert(0 <= i < slots.len() && slots[i].channel@ == c);
            lemma_model_at(slots, i);
            lemma_model_at(s2, i);
        }
    }
    assert(slots_model(s2) =~= slots_model(slots).insert(s.channel@, s.entry.model()));
}

proof fn lemma_model_update(slots: Seq<CacheSlot>, i: int, s: CacheSlot)
    requires
        distinct_channels(slots),
        0 <= i < slots.len(),
        s.channel@ == slots[i].channel@,
    ensures
        distinct_channels(slots.update(i, s)),
        slots_model(slots.update(i, s)) == slots_model(slots).insert(s.channel@, s.entry.model()),
{
    let s2 = slots.update(i, s);
    assert forall|k: int| 0 <= k < s2.len() implies s2[k].channel@ == slots[k].channel@ by {}
    assert forall|c: Seq<char>| true implies #[trigger] has_channel(s2, c) == has_channel(slots, c) by {
        if has_channel(slots, c) {
            let k = channel_at(slots, c);
            assert(s2[k].channel@ == c);
        }
        if has_channel(s2, c) {
            let k = choose|k: int| 0 <= k < s2.len() && s2[k].channel@ == c;
            assert(slots[k].channel@ == c);
        }
    }
    assert forall|c: Seq<char>| has_channel(s2, c) implies slots_model(s2)[c] == slots_model(
        slots,
    ).insert(s.channel@, s.entry.model())[c] by {
        if c == s.channel@ {
            lemma_model_at(s2, i);
        } else {
            let k = channel_at(slots, c);
            assert(0 <= k < slots.len() && slots[k].channel@ == c);
            assert(k != i);
            lemma_model_at(slots, k);
            lemma_model_at(s2, k);
        }
    }
    assert(slots_model(s2) =~= slots_model(slots).insert(s.channel@, s.entry.model()));
}

proof fn lemma_model_remove(slots: Seq<CacheSlot>, i: int)
    requires
        distinct_channels(slots),
        0 <= i < slots.len(),
    ensures
        distinct_channels(slots.remove(i)),
        slots_model(slots.remove(i)) == slots_model(slots).remove(slots[i].channel@),
{
    let s2 = slots.remove(i);
    assert forall|k: int| 0 <= k < s2.len() implies s2[k] == (if k < i {
        slots[k]
    } else {
        slots[k + 1]
    }) by {}
    assert forall|c: Seq<char>| true implies #[trigger] has_channel(s2, c) == (has_channel(slots, c)
        && c != slots[i].channel@) by {
        if has_channel(s2, c) {
            let k = choose|k: int| 0 <= k < s2.len() && s2[k].channel@ == c;
            if k < i {
                assert(slots[k].channel@ == c);
                assert(c != slots[i].channel@);
            } else {
                assert(slots[k + 1].channel@ == c);
                assert(c != slots[i].channel@);
            }
        }
        if has_channel(slots, c) && c != slots[i].channel@ {
            let k = channel_at(slots, c);
            assert(0 <= k < slots.len() && slots[k].channel@ == c);
            assert(k != i);
            if k < i {
                assert(s2[k].channel@ == c);
            } else {
                assert(s2[k - 1].channel@ == c);
            }
        }
    }
    assert forall|c: Seq<char>| has_channel(s2, c) implies slots_model(s2)[c] == slots_model(
        slots,
    ).remove(slots[i].channel@)[c] by {
        let k = channel_at(slots, c);
        assert(0 <= k < slots.len() && slots[k].channel@ == c);
        lemma_model_at(slots, k);
        assert(k != i);
        if k < i {
            lemma_model_at(s2, k);
        } else {
            lemma_model_at(s2, k - 1);
        }
    }
    assert(slots_model(s2) =~= slots_model(slots).remove(slots[i].channel@));
}

} // verus!
