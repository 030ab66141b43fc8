//! The playback multiplexer: at most one live session per stream key,
//! broadcasting the upstream media bytes to a dynamic set of sinks.
//!
//! A session is created for a key only when none exists, with the caller
//! as its first sink; callers that arrive later are registered as further
//! sinks of the same session and receive every chunk emitted after they
//! join, in emission order, with no gaps and no duplicates. Each sink has
//! its own bounded buffer: a sink whose buffer is full when a chunk
//! arrives is dropped from the session without disturbing the others.
//! A session is torn down when its last sink leaves, or when the caller
//! reports that the media stream ended or failed; either way it vanishes
//! from the pool, and a later request for the key starts afresh.
//!
//! The pool is a sequential state machine: whoever owns it performs the
//! upstream work (opening the media stream, reading chunks) between calls
//! and feeds the outcomes back in. Every decision that must be atomic —
//! above all "join the existing session or create one" — is a single call
//! on `&mut self`, so no interleaving can split it.

use vstd::prelude::*;
use crate::types::{StreamKey, StreamKeyView, VariantInfo, VariantInfoView};

verus! {

/// Where a session stands: its media stream is still being opened, or
/// chunks are flowing.
#[derive(Clone, Copy, PartialEq, Eq, Structural)]
pub enum SessionPhase {
    Starting,
    Broadcasting,
}

/// Model of one sink: its buffer bound, the point in the session's
/// emission history at which it joined, the chunks its consumer has
/// already taken, and the chunks still buffered for it.
pub ghost struct SinkView {
    pub capacity: nat,
    pub joined_at: nat,
    pub delivered: Seq<Seq<u8>>,
    pub buffer: Seq<Seq<u8>>,
}

/// Model of one session: the variant it plays, its phase, every chunk
/// emitted so far (oldest first), and its current sinks by id.
pub ghost struct SessionView {
    pub variant: VariantInfoView,
    pub phase: SessionPhase,
    pub history: Seq<Seq<u8>>,
    pub sinks: Map<u64, SinkView>,
}

/// Broadcast fidelity, per sink: what the sink has been handed (taken
/// plus still buffered) is exactly the chunks emitted since it joined,
/// in order, and its buffer respects its bound.
pub open spec fn sink_faithful(s: SinkView, history: Seq<Seq<u8>>) -> bool {
    &&& s.joined_at <= history.len()
    &&& s.delivered + s.buffer == history.skip(s.joined_at as int)
    &&& s.buffer.len() <= s.capacity
    &&& s.capacity >= 1
}

struct Sink {
    id: u64,
    capacity: usize,
    buffer: Vec<Vec<u8>>,
    delivered: Ghost<Seq<Seq<u8>>>,
    joined_at: Ghost<nat>,
}

impl Sink {
    spec fn model(&self) -> SinkView {
        SinkView {
            capacity: self.capacity as nat,
            joined_at: self.joined_at@,
            delivered: self.delivered@,
            buffer: self.buffer@.map_values(|c: Vec<u8>| c@),
        }
    }
}

spec fn has_sink(sinks: Seq<Sink>, id: u64) -> bool {
    exists|i: int| 0 <= i < sinks.len() && sinks[i].id == id
}

spec fn sink_at(sinks: Seq<Sink>, id: u64) -> int {
    choose|i: int| 0 <= i < sinks.len() && sinks[i].id == id
}

spec fn sinks_model(sinks: Seq<Sink>) -> Map<u64, SinkView> {
    Map::new(|id: u64| has_sink(sinks, id), |id: u64| sinks[sink_at(sinks, id)].model())
}

spec fn distinct_sink_ids(sinks: Seq<Sink>) -> bool {
    forall|i: int, j: int| 0 <= i < j < sinks.len() ==> sinks[i].id != sinks[j].id
}

struct Session {
    key: StreamKey,
    variant: VariantInfo,
    phase: SessionPhase,
    sinks: Vec<Sink>,
    history: Ghost<Seq<Seq<u8>>>,
}

impl Session {
    spec fn model(&self) -> SessionView {
        SessionView {
            variant: self.variant@,
            phase: self.phase,
            history: self.history@,
            sinks: sinks_model(self.sinks@),
        }
    }

    spec fn wf(&self) -> bool {
        &&& distinct_sink_ids(self.sinks@)
        &&& forall|i: int| 0 <= i < self.sinks@.len() ==> sink_faithful(
            (#[trigger] self.sinks@[i]).model(),
            self.history@,
        )
    }
}

spec fn has_key(sessions: Seq<Session>, k: StreamKeyView) -> bool {
    exists|i: int| 0 <= i < sessions.len() && sessions[i].key@ == k
}

spec fn key_at(sessions: Seq<Session>, k: StreamKeyView) -> int {
    choose|i: int| 0 <= i < sessions.len() && sessions[i].key@ == k
}

spec fn sessions_model(sessions: Seq<Session>) -> Map<StreamKeyView, SessionView> {
    Map::new(
        |k: StreamKeyView| has_key(sessions, k),
        |k: StreamKeyView| sessions[key_at(sessions, k)].model(),
    )
}

spec fn distinct_keys(sessions: Seq<Session>) -> bool {
    forall|i: int, j: int| 0 <= i < j < sessions.len() ==> sessions[i].key@ != sessions[j].key@
}

/// The pool of live playback sessions, at most one per stream key. Its
/// model is a map from stream key to session.
pub struct PlayerPool {
    sessions: Vec<Session>,
}

impl View for PlayerPool {
    type V = Map<StreamKeyView, SessionView>;

    closed spec fn view(&self) -> Map<StreamKeyView, SessionView> {
        sessions_model(self.sessions@)
    }
}

proof fn lemma_pool_at(sessions: Seq<Session>, i: int)
    requires
        distinct_keys(sessions),
        0 <= i < sessions.len(),
    ensures
        sessions_model(sessions).dom().contains(sessions[i].key@),
        sessions_model(sessions)[sessions[i].key@] == sessions[i].model(),
        key_at(sessions, sessions[i].key@) == i,
{
    assert(has_key(sessions, sessions[i].key@));
    let j = key_at(sessions, sessions[i].key@);
    assert(0 <= j < sessions.len() && sessions[j].key@ == sessions[i].key@);
    assert(j == i);
}

proof fn lemma_pool_absent(sessions: Seq<Session>, k: StreamKeyView)
    requires
        forall|i: int| 0 <= i < sessions.len() ==> sessions[i].key@ != k,
    ensures
        !sessions_model(sessions).dom().contains(k),
{
}

proof fn lemma_pool_push(sessions: Seq<Session>, s: Session)
    requires
        distinct_keys(sessions),
        !has_key(sessions, s.key@),
    ensures
        distinct_keys(sessions.push(s)),
        sessions_model(sessions.push(s)) == sessions_model(sessions).insert(s.key@, s.model()),
{
    let s2 = sessions.push(s);
    assert forall|i: int, j: int| 0 <= i < j < s2.len() implies s2[i].key@ != s2[j].key@ by {
        if j == sessions.len() {
            assert(has_key(sessions, sessions[i].key@));
        }
    }
    assert forall|k: StreamKeyView| true implies #[trigger] has_key(s2, k) == (has_key(sessions, k)
        || k == s.key@) by {
        if has_key(sessions, k) {
            let i = key_at(sessions, k);
            assert(s2[i].key@ == k);
        }
        if k == s.key@ {
            assert(s2[sessions.len() as int].key@ == k);
        }
        if has_key(s2, k) {
            let i = choose|i: int| 0 <= i < s2.len() && s2[i].key@ == k;
            if i < sessions.len() {
                assert(sessions[i].key@ == k);
            }
        }
    }
    assert forall|k: StreamKeyView| has_key(s2, k) implies sessions_model(s2)[k] == sessions_model(
        sessions,
    ).insert(s.key@, s.model())[k] by {
        if k == s.key@ {
            lemma_pool_at(s2, sessions.len() as int);
        } else {
            let i = key_at(sessions, k);
            assert(0 <= i < sessions.len() && sessions[i].key@ == k);
            lemma_pool_at(sessions, i);
            lemma_pool_at(s2, i);
        }
    }
    assert(sessions_model(s2) =~= sessions_model(sessions).insert(s.key@, s.model()));
}

proof fn lemma_pool_update(sessions: Seq<Session>, i: int, s: Session)
    requires
        distinct_keys(sessions),
        0 <= i < sessions.len(),
        s.key@ == sessions[i].key@,
    ensures
        distinct_keys(sessions.update(i, s)),
        sessions_model(sessions.update(i, s)) == sessions_model(sessions).insert(
            s.key@,
            s.model(),
        ),
{
    let s2 = sessions.update(i, s);
    assert forall|k: int| 0 <= k < s2.len() implies s2[k].key@ == sessions[k].key@ by {}
    assert forall|k: StreamKeyView| true implies #[trigger] has_key(s2, k) == has_key(
        sessions,
        k,
    ) by {
        if has_key(sessions, k) {
            let m = key_at(sessions, k);
            assert(s2[m].key@ == k);
        }
        if has_key(s2, k) {
            let m = choose|m: int| 0 <= m < s2.len() && s2[m].key@ == k;
            assert(sessions[m].key@ == k);
        }
    }
    assert forall|k: StreamKeyView| has_key(s2, k) implies sessions_model(s2)[k] == sessions_model(
        sessions,
    ).insert(s.key@, s.model())[k] by {
        if k == s.key@ {
            lemma_pool_at(s2, i);
        } else {
            let m = key_at(sessions, k);
            assert(0 <= m < sessions.len() && sessions[m].key@ == k);
            assert(m != i);
            lemma_pool_at(sessions, m);
            lemma_pool_at(s2, m);
        }
    }
    assert(sessions_model(s2) =~= sessions_model(sessions).insert(s.key@, s.model()));
}

proof fn lemma_pool_remove(sessions: Seq<Session>, i: int)
    requires
        distinct_keys(sessions),
        0 <= i < sessions.len(),
    ensures
        distinct_keys(sessions.remove(i)),
        sessions_model(sessions.remove(i)) == sessions_model(sessions).remove(sessions[i].key@),
{
    let s2 = sessions.remove(i);
    assert forall|k: int| 0 <= k < s2.len() implies s2[k] == (if k < i {
        sessions[k]
    } else {
        sessions[k + 1]
    }) by {}
    assert forall|k: StreamKeyView| true implies #[trigger] has_key(s2, k) == (has_key(sessions, k)
        && k != sessions[i].key@) by {
        if has_key(s2, k) {
            let m = choose|m: int| 0 <= m < s2.len() && s2[m].key@ == k;
            if m < i {
                assert(sessions[m].key@ == k);
            } else {
                assert(sessions[m + 1].key@ == k);
            }
        }
        if has_key(sessions, k) && k != sessions[i].key@ {
            let m = key_at(sessions, k);
            assert(0 <= m < sessions.len() && sessions[m].key@ == k);
            assert(m != i);
            if m < i {
                assert(s2[m].key@ == k);
            } else {
                assert(s2[m - 1].key@ == k);
            }
        }
    }
    assert forall|k: StreamKeyView| has_key(s2, k) implies sessions_model(s2)[k] == sessions_model(
        sessions,
    ).remove(sessions[i].key@)[k] by {
        let m = key_at(sessions, k);
        assert(0 <= m < sessions.len() && sessions[m].key@ == k);
        lemma_pool_at(sessions, m);
        assert(m != i);
        if m < i {
            lemma_pool_at(s2, m);
        } else {
            lemma_pool_at(s2, m - 1);
        }
    }
    assert(sessions_model(s2) =~= sessions_model(sessions).remove(sessions[i].key@));
}

/// The sinks that survive one emitted chunk: those with room in their
/// buffer, each with the chunk appended. Sinks already at their bound
/// are dropped — and only those, so one stalled consumer never delays or
/// loses chunks for the others.
pub open spec fn surviving_sinks(m: Map<u64, SinkView>, c: Seq<u8>) -> Map<u64, SinkView> {
    Map::new(
        |id: u64| m.contains_key(id) && m[id].buffer.len() < m[id].capacity,
        |id: u64|
            SinkView {
                capacity: m[id].capacity,
                joined_at: m[id].joined_at,
                delivered: m[id].delivered,
                buffer: m[id].buffer.push(c),
            },
    )
}

proof fn lemma_surviving_insert(m: Map<u64, SinkView>, id: u64, v: SinkView, c: Seq<u8>)
    requires
        !m.contains_key(id),
    ensures
        v.buffer.len() < v.capacity ==> surviving_sinks(m.insert(id, v), c) == surviving_sinks(
            m,
            c,
        ).insert(
            id,
            SinkView {
                capacity: v.capacity,
                joined_at: v.joined_at,
                delivered: v.delivered,
                buffer: v.buffer.push(c),
            },
        ),
        v.buffer.len() >= v.capacity ==> surviving_sinks(m.insert(id, v), c) == surviving_sinks(
            m,
            c,
        ),
{
    if v.buffer.len() < v.capacity {
        assert(surviving_sinks(m.insert(id, v), c) =~= surviving_sinks(m, c).insert(
            id,
            SinkView {
                capacity: v.capacity,
                joined_at: v.joined_at,
                delivered: v.delivered,
                buffer: v.buffer.push(c),
            },
        ));
    } else {
        assert(surviving_sinks(m.insert(id, v), c) =~= surviving_sinks(m, c));
    }
}

proof fn lemma_skip_push(h: Seq<Seq<u8>>, c: Seq<u8>, j: int)
    requires
        0 <= j <= h.len(),
    ensures
        h.push(c).skip(j) == h.skip(j).push(c),
{
    assert(h.push(c).skip(j) =~= h.skip(j).push(c));
}

proof fn lemma_sinks_at(sinks: Seq<Sink>, i: int)
    requires
        distinct_sink_ids(sinks),
        0 <= i < sinks.len(),
    ensures
        sinks_model(sinks).dom().contains(sinks[i].id),
        sinks_model(sinks)[sinks[i].id] == sinks[i].model(),
        sink_at(sinks, sinks[i].id) == i,
{
    assert(has_sink(sinks, sinks[i].id));
    let j = sink_at(sinks, sinks[i].id);
    assert(0 <= j < sinks.len() && sinks[j].id == sinks[i].id);
    assert(j == i);
}

proof fn lemma_sinks_push(sinks: Seq<Sink>, s: Sink)
    requires
        distinct_sink_ids(sinks),
        !has_sink(sinks, s.id),
    ensures
        distinct_sink_ids(sinks.push(s)),
        sinks_model(sinks.push(s)) == sinks_model(sinks).insert(s.id, s.model()),
{
    let s2 = sinks.push(s);
    assert forall|i: int, j: int| 0 <= i < j < s2.len() implies s2[i].id != s2[j].id by {
        if j == sinks.len() {
            assert(has_sink(sinks, sinks[i].id));
        }
    }
    assert forall|id: u64| true implies #[trigger] has_sink(s2, id) == (has_sink(sinks, id) || id
        == s.id) by {
        if has_sink(sinks, id) {
            let i = sink_at(sinks, id);
            assert(s2[i].id == id);
        }
        if id == s.id {
            assert(s2[sinks.len() as int].id == id);
        }
        if has_sink(s2, id) {
            let i = choose|i: int| 0 <= i < s2.len() && s2[i].id == id;
            if i < sinks.len() {
                assert(sinks[i].id == id);
            }
        }
    }
    assert forall|id: u64| has_sink(s2, id) implies sinks_model(s2)[id] == sinks_model(
        sinks,
    ).insert(s.id, s.model())[id] by {
        if id == s.id {
            lemma_sinks_at(s2, sinks.len() as int);
        } else {
            let i = sink_at(sinks, id);
            assert(0 <= i < sinks.len() && sinks[i].id == id);
            lemma_sinks_at(sinks, i);
            lemma_sinks_at(s2, i);
        }
    }
    assert(sinks_model(s2) =~= sinks_model(sinks).insert(s.id, s.model()));
}

proof fn lemma_sinks_update(sinks: Seq<Sink>, i: int, s: Sink)
    requires
        distinct_sink_ids(sinks),
        0 <= i < sinks.len(),
        s.id == sinks[i].id,
    ensures
        distinct_sink_ids(sinks.update(i, s)),
        sinks_model(sinks.update(i, s)) == sinks_model(sinks).insert(s.id, s.model()),
{
    let s2 = sinks.update(i, s);
    assert forall|k: int| 0 <= k < s2.len() implies s2[k].id == sinks[k].id by {}
    assert forall|id: u64| true implies #[trigger] has_sink(s2, id) == has_sink(sinks, id) by {
        if has_sink(sinks, id) {
            let m = sink_at(sinks, id);
            assert(s2[m].id == id);
        }
        if has_sink(s2, id) {
            let m = choose|m: int| 0 <= m < s2.len() && s2[m].id == id;
            assert(sinks[m].id == id);
        }
    }
    assert forall|id: u64| has_sink(s2, id) implies sinks_model(s2)[id] == sinks_model(
        sinks,
    ).insert(s.id, s.model())[id] by {
        if id == s.id {
            lemma_sinks_at(s2, i);
        } else {
            let m = sink_at(sinks, id);
            assert(0 <= m < sinks.len() && sinks[m].id == id);
            assert(m != i);
            lemma_sinks_at(sinks, m);
            lemma_sinks_at(s2, m);
        }
    }
    assert(sinks_model(s2) =~= sinks_model(sinks).insert(s.id, s.model()));
}

proof fn lemma_sinks_remove(sinks: Seq<Sink>, i: int)
    requires
        distinct_sink_ids(sinks),
        0 <= i < sinks.len(),
    ensures
        distinct_sink_ids(sinks.remove(i)),
        sinks_model(sinks.remove(i)) == sinks_model(sinks).remove(sinks[i].id),
{
    let s2 = sinks.remove(i);
    assert forall|k: int| 0 <= k < s2.len() implies s2[k] == (if k < i {
        sinks[k]
    } else {
        sinks[k + 1]
    }) by {}
    assert forall|id: u64| true implies #[trigger] has_sink(s2, id) == (has_sink(sinks, id) && id
        != sinks[i].id) by {
        if has_sink(s2, id) {
            let m = choose|m: int| 0 <= m < s2.len() && s2[m].id == id;
            if m < i {
                assert(sinks[m].id == id);
            } else {
                assert(sinks[m + 1].id == id);
            }
        }
        if has_sink(sinks, id) && id != sinks[i].id {
            let m = sink_at(sinks, id);
            assert(0 <= m < sinks.len() && sinks[m].id == id);
            assert(m != i);
            if m < i {
                assert(s2[m].id == id);
            } else {
                assert(s2[m - 1].id == id);
            }
        }
    }
    assert forall|id: u64| has_sink(s2, id) implies sinks_model(s2)[id] == sinks_model(
        sinks,
    ).remove(sinks[i].id)[id] by {
        let m = sink_at(sinks, id);
        assert(0 <= m < sinks.len() && sinks[m].id == id);
        lemma_sinks_at(sinks, m);
        assert(m != i);
        if m < i {
            lemma_sinks_at(s2, m);
        } else {
            lemma_sinks_at(s2, m - 1);
        }
    }
    assert(sinks_model(s2) =~= sinks_model(sinks).remove(sinks[i].id));
}

fn clone_chunk(c: &Vec<u8>) -> (r: Vec<u8>)
    ensures
        r@ == c@,
{
    let mut r: Vec<u8> = Vec::new();
    let mut i: usize = 0;
    while i < c.len()
        invariant
            i <= c@.len(),
            r@ == c@.take(i as int),
        decreases c@.len() - i,
    {
        r.push(c[i]);
        proof {
            assert(r@ =~= c@.take(i as int + 1));
        }
        i = i + 1;
    }
    proof {
        assert(c@.take(c@.len() as int) =~= c@);
    }
    r
}

impl PlayerPool {
    /// The pool is well formed: one session per key, distinct sink ids
    /// within a session, and every sink faithful to its session's
    /// emission history.
    pub closed spec fn wf(&self) -> bool {
        &&& distinct_keys(self.sessions@)
        &&& forall|i: int| 0 <= i < self.sessions@.len() ==> (#[trigger] self.sessions@[i]).wf()
    }

    /// An empty pool: nothing is playing.
    pub fn new() -> (p: Self)
        ensures
            p.wf(),
            p@ == Map::<StreamKeyView, SessionView>::empty(),
    {
        let p = PlayerPool { sessions: Vec::new() };
        proof {
            assert(p@ =~= Map::<StreamKeyView, SessionView>::empty());
        }
        p
    }

    fn find_session(&self, key: &StreamKey) -> (r: Option<usize>)
        ensures
            match r {
                Some(i) => i < self.sessions@.len() && self.sessions@[i as int].key@ == key@,
                None => forall|i: int|
                    0 <= i < self.sessions@.len() ==> self.sessions@[i].key@ != key@,
            },
    {
        let mut i: usize = 0;
        while i < self.sessions.len()
            invariant
                i <= self.sessions@.len(),
                forall|j: int| 0 <= j < i ==> self.sessions@[j].key@ != key@,
            decreases self.sessions@.len() - i,
        {
            if self.sessions[i].key == *key {
                return Some(i);
            }
            i = i + 1;
        }
        None
    }

    /// True exactly when a session for `key` exists. Side-effect-free.
    pub fn is_playing(&self, key: &StreamKey) -> (r: bool)
        requires
            self.wf(),
        ensures
            r == self@.contains_key(key@),
    {
        match self.find_session(key) {
            Some(i) => {
                proof {
                    lemma_pool_at(self.sessions@, i as int);
                }
                true
            },
            None => {
                proof {
                    lemma_pool_absent(self.sessions@, key@);
                }
                false
            },
        }
    }

    /// Creates the session for `key`, bound to `variant`, in the
    /// `Starting` phase, with one sink — the caller that triggered
    /// creation — waiting for the media stream to open. The caller must
    /// open the media stream next and report through `media_opened` or
    /// `end_session`. May only be called when no session for `key`
    /// exists; `join_or_create` makes that structurally safe.
    pub fn add_player(&mut self, key: StreamKey, variant: VariantInfo, sink_id: u64, capacity: usize)
        requires
            old(self).wf(),
            !old(self)@.contains_key(key@),
            capacity >= 1,
        ensures
            final(self).wf(),
            final(self)@ == old(self)@.insert(
                key@,
                SessionView {
                    variant: variant@,
                    phase: SessionPhase::Starting,
                    history: Seq::empty(),
                    sinks: Map::<u64, SinkView>::empty().insert(
                        sink_id,
                        SinkView {
                            capacity: capacity as nat,
                            joined_at: 0,
                            delivered: Seq::empty(),
                            buffer: Seq::empty(),
                        },
                    ),
                },
            ),
    {
        let sink = Sink {
            id: sink_id,
            capacity,
            buffer: Vec::new(),
            delivered: Ghost(Seq::empty()),
            joined_at: Ghost(0),
        };
        proof {
            assert(sink.model().buffer =~= Seq::<Seq<u8>>::empty());
            assert(sink.model() == (SinkView {
                capacity: capacity as nat,
                joined_at: 0,
                delivered: Seq::empty(),
                buffer: Seq::empty(),
            }));
        }
        let mut sinks: Vec<Sink> = Vec::new();
        proof {
            assert(sinks_model(sinks@) =~= Map::<u64, SinkView>::empty());
            lemma_sinks_push(sinks@, sink);
        }
        sinks.push(sink);
        let session = Session {
            key,
            variant,
            phase: SessionPhase::Starting,
            sinks,
            history: Ghost(Seq::empty()),
        };
        proof {
            assert(session.wf()) by {
                assert(sink.model().delivered + sink.model().buffer =~= Seq::<Seq<u8>>::empty().skip(
                    0,
                ));
                assert(sink_faithful(sink.model(), session.history@));
            }
            if has_key(self.sessions@, session.key@) {
                let i = key_at(self.sessions@, session.key@);
                assert(0 <= i < self.sessions@.len() && self.sessions@[i].key@ == session.key@);
                lemma_pool_at(self.sessions@, i);
                assert(false);
            }
            lemma_pool_push(self.sessions@, session);
        }
        self.sessions.push(session);
    }

    /// Registers one more sink against the existing session for `key`.
    /// The sink will receive exactly the chunks emitted after this call,
    /// in order — nothing is rewound for late joiners. May only be called
    /// while a session for `key` exists, with a sink id not already in
    /// use there; `join_or_create` makes that structurally safe.
    pub fn add_sink(&mut self, key: &StreamKey, sink_id: u64, capacity: usize)
        requires
            old(self).wf(),
            old(self)@.contains_key(key@),
            !old(self)@[key@].sinks.contains_key(sink_id),
            capacity >= 1,
        ensures
            final(self).wf(),
            final(self)@ == old(self)@.insert(
                key@,
                SessionView {
                    sinks: old(self)@[key@].sinks.insert(
                        sink_id,
                        SinkView {
                            capacity: capacity as nat,
                            joined_at: old(self)@[key@].history.len(),
                            delivered: Seq::empty(),
                            buffer: Seq::empty(),
                        },
                    ),
                    ..old(self)@[key@]
                },
            ),
    {
        match self.find_session(key) {
            None => {
                proof {
                    lemma_pool_absent(self.sessions@, key@);
                    assert(false);
                }
            },
            Some(i) => {
                proof {
                    lemma_pool_at(self.sessions@, i as int);
                }
                proof {
                    assert(old(self).sessions@[i as int].wf());
                }
                let mut session = self.sessions.remove(i);
                let ghost old_session = session;
                let sink = Sink {
                    id: sink_id,
                    capacity,
                    buffer: Vec::new(),
                    delivered: Ghost(Seq::empty()),
                    joined_at: Ghost(session.history@.len()),
                };
                proof {
                    assert(sink.model().buffer =~= Seq::<Seq<u8>>::empty());
                    assert(sink.model() == (SinkView {
                        capacity: capacity as nat,
                        joined_at: old_session.history@.len(),
                        delivered: Seq::empty(),
                        buffer: Seq::empty(),
                    }));
                    if has_sink(session.sinks@, sink_id) {
                        let j = sink_at(session.sinks@, sink_id);
                        assert(0 <= j < session.sinks@.len() && session.sinks@[j].id == sink_id);
                        lemma_sinks_at(session.sinks@, j);
                        assert(false);
                    }
                    lemma_sinks_push(session.sinks@, sink);
                }
                session.sinks.push(sink);
                proof {
                    assert(session.wf()) by {
                        assert(forall|l: int| 0 <= l < old_session.sinks@.len()
                            ==> session.sinks@[l] == old_session.sinks@[l]);
                        assert(sink.model().delivered + sink.model().buffer
                            =~= session.history@.skip(session.history@.len() as int));
                        assert(sink_faithful(sink.model(), session.history@));
                    }
                    lemma_pool_update(old(self).sessions@, i as int, session);
                }
                self.sessions.insert(i, session);
                proof {
                    assert(self.sessions@ =~= old(self).sessions@.update(i as int, session));
                }
            },
        }
    }

    /// The atomic join-or-create step behind `play`: if a session for
    /// `key` exists — starting or broadcasting — the caller is added as
    /// one more of its sinks; only otherwise is a new session created,
    /// with the caller as its first sink. Returns whether it created,
    /// i.e. whether the caller must now open the media stream; since the
    /// decision and the registration are one call, two callers for one
    /// key can never both be told to open.
    pub fn join_or_create(
        &mut self,
        key: StreamKey,
        variant: VariantInfo,
        sink_id: u64,
        capacity: usize,
    ) -> (created: bool)
        requires
            old(self).wf(),
            old(self)@.contains_key(key@) ==> !old(self)@[key@].sinks.contains_key(sink_id),
            capacity >= 1,
        ensures
            final(self).wf(),
            created == !old(self)@.contains_key(key@),
            created ==> final(self)@ == old(self)@.insert(
                key@,
                SessionView {
                    variant: variant@,
                    phase: SessionPhase::Starting,
                    history: Seq::empty(),
                    sinks: Map::<u64, SinkView>::empty().insert(
                        sink_id,
                        SinkView {
                            capacity: capacity as nat,
                            joined_at: 0,
                            delivered: Seq::empty(),
                            buffer: Seq::empty(),
                        },
                    ),
                },
            ),
            !created ==> final(self)@ == old(self)@.insert(
                key@,
                SessionView {
                    sinks: old(self)@[key@].sinks.insert(
                        sink_id,
                        SinkView {
                            capacity: capacity as nat,
                            joined_at: old(self)@[key@].history.len(),
                            delivered: Seq::empty(),
                            buffer: Seq::empty(),
                        },
                    ),
                    ..old(self)@[key@]
                },
            ),
    {
        if self.is_playing(&key) {
            self.add_sink(&key, sink_id, capacity);
            false
        } else {
            self.add_player(key, variant, sink_id, capacity);
            true
        }
    }

    /// The media stream for `key`'s starting session opened: the session
    /// begins broadcasting. Chunks the caller now reads from the stream
    /// are fed in through `broadcast_chunk`.
    pub fn media_opened(&mut self, key: &StreamKey)
        requires
            old(self).wf(),
            old(self)@.contains_key(key@),
            old(self)@[key@].phase == SessionPhase::Starting,
        ensures
            final(self).wf(),
            final(self)@ == old(self)@.insert(
                key@,
                SessionView { phase: SessionPhase::Broadcasting, ..old(self)@[key@] },
            ),
    {
        match self.find_session(key) {
            None => {
                proof {
                    lemma_pool_absent(self.sessions@, key@);
                    assert(false);
                }
            },
            Some(i) => {
                proof {
                    lemma_pool_at(self.sessions@, i as int);
                }
                proof {
                    assert(old(self).sessions@[i as int].wf());
                }
                let mut session = self.sessions.remove(i);
                let ghost old_session = session;
                session.phase = SessionPhase::Broadcasting;
                proof {
                    assert(session.wf()) by {
                        assert(forall|l: int| 0 <= l < old_session.sinks@.len()
                            ==> session.sinks@[l] == old_session.sinks@[l]);
                    }
                    lemma_pool_update(old(self).sessions@, i as int, session);
                }
                self.sessions.insert(i, session);
                proof {
                    assert(self.sessions@ =~= old(self).sessions@.update(i as int, session));
                }
            },
        }
    }

    /// One chunk arrived from the media stream of `key`'s broadcasting
    /// session: a copy is appended to the buffer of every sink with room,
    /// preserving emission order per sink; sinks whose buffer is already
    /// at its bound — and only those — are dropped, and their ids
    /// returned so the caller can close their connections. Dropping one
    /// slow sink never touches what the others receive. When no sink
    /// survives, the session is removed (second result true) and the
    /// caller must close the media stream.
    pub fn broadcast_chunk(&mut self, key: &StreamKey, chunk: &Vec<u8>) -> (r: (Vec<u64>, bool))
        requires
            old(self).wf(),
            old(self)@.contains_key(key@),
            old(self)@[key@].phase == SessionPhase::Broadcasting,
        ensures
            final(self).wf(),
            ({
                let s = old(self)@[key@];
                let survivors = surviving_sinks(s.sinks, chunk@);
                &&& (forall|id: u64| #[trigger] r.0@.contains(id) <==> (s.sinks.contains_key(id)
                    && s.sinks[id].buffer.len() >= s.sinks[id].capacity))
                &&& r.0@.no_duplicates()
                &&& (r.1 <==> survivors.dom() == Set::<u64>::empty())
                &&& (r.1 ==> final(self)@ == old(self)@.remove(key@))
                &&& (!r.1 ==> final(self)@ == old(self)@.insert(
                    key@,
                    SessionView {
                        variant: s.variant,
                        phase: s.phase,
                        history: s.history.push(chunk@),
                        sinks: survivors,
                    },
                ))
            }),
    {
        match self.find_session(key) {
            None => {
                proof {
                    lemma_pool_absent(self.sessions@, key@);
                    assert(false);
                }
                (Vec::new(), false)
            },
            Some(i) => {
                proof {
                    lemma_pool_at(self.sessions@, i as int);
                    assert(old(self).sessions@[i as int].wf());
                }
                let session = self.sessions.remove(i);
                let Session { key: skey, variant, phase, sinks: old_vec, history } = session;
                let ghost oseq = old_vec@;
                let ghost omodel = sinks_model(oseq);
                let ghost h = history@;
                let ghost newh = h.push(chunk@);
                let mut rest = old_vec;
                let mut kept: Vec<Sink> = Vec::new();
                let mut dropped: Vec<u64> = Vec::new();
                let ghost mut j: int = 0;
                proof {
                    assert(sinks_model(kept@) =~= Map::<u64, SinkView>::empty());
                    assert(oseq.take(0) =~= Seq::<Sink>::empty());
                    assert(sinks_model(oseq.take(0)) =~= Map::<u64, SinkView>::empty());
                    assert(surviving_sinks(sinks_model(oseq.take(0)), chunk@) =~= Map::<
                        u64,
                        SinkView,
                    >::empty());
                    assert(rest@ =~= oseq.skip(0));
                }
                while rest.len() > 0
                    invariant
                        0 <= j && j + rest@.len() == oseq.len(),
                        rest@ == oseq.skip(j),
                        distinct_sink_ids(oseq),
                        forall|l: int| 0 <= l < oseq.len() ==> sink_faithful(
                            (#[trigger] oseq[l]).model(),
                            h,
                        ),
                        newh == h.push(chunk@),
                        sinks_model(kept@) == surviving_sinks(
                            sinks_model(oseq.take(j)),
                            chunk@,
                        ),
                        distinct_sink_ids(kept@),
                        forall|l: int| 0 <= l < kept@.len() ==> sink_faithful(
                            (#[trigger] kept@[l]).model(),
                            newh,
                        ),
                        forall|id: u64| #[trigger] dropped@.contains(id) <==> (sinks_model(
                            oseq.take(j),
                        ).contains_key(id) && sinks_model(oseq.take(j))[id].buffer.len()
                            >= sinks_model(oseq.take(j))[id].capacity),
                        dropped@.no_duplicates(),
                    decreases rest@.len(),
                {
                    let ghost ji = j;
                    let mut sk = rest.remove(0);
                    proof {
                        assert(sk == oseq[ji]);
                        assert(rest@ =~= oseq.skip(ji + 1));
                        assert(distinct_sink_ids(oseq.take(ji)));
                        assert(!has_sink(oseq.take(ji), sk.id)) by {
                            if has_sink(oseq.take(ji), sk.id) {
                                let l = sink_at(oseq.take(ji), sk.id);
                                assert(0 <= l < ji && oseq.take(ji)[l].id == sk.id);
                                assert(oseq[l].id == oseq[ji].id);
                            }
                        }
                        lemma_sinks_push(oseq.take(ji), sk);
                        assert(oseq.take(ji + 1) =~= oseq.take(ji).push(sk));
                        lemma_surviving_insert(
                            sinks_model(oseq.take(ji)),
                            sk.id,
                            sk.model(),
                            chunk@,
                        );
                    }
                    let ghost sk_model = sk.model();
                    if sk.buffer.len() < sk.capacity {
                        sk.buffer.push(clone_chunk(chunk));
                        proof {
                            assert(sk.model().buffer =~= sk_model.buffer.push(chunk@));
                            assert(sk.model() == (SinkView {
                                capacity: sk_model.capacity,
                                joined_at: sk_model.joined_at,
                                delivered: sk_model.delivered,
                                buffer: sk_model.buffer.push(chunk@),
                            }));
                            assert(!has_sink(kept@, sk.id)) by {
                                if has_sink(kept@, sk.id) {
                                    let l = sink_at(kept@, sk.id);
                                    assert(0 <= l < kept@.len() && kept@[l].id == sk.id);
                                    lemma_sinks_at(kept@, l);
                                    assert(sinks_model(kept@).contains_key(sk.id));
                                }
                            }
                            lemma_sinks_push(kept@, sk);
                            lemma_skip_push(h, chunk@, sk_model.joined_at as int);
                            assert(sk_model.delivered + sk_model.buffer.push(chunk@)
                                =~= (sk_model.delivered + sk_model.buffer).push(chunk@));
                            assert(sink_faithful(sk.model(), newh));
                        }
                        kept.push(sk);
                        proof {
                            let pre = sinks_model(oseq.take(ji));
                            let post = sinks_model(oseq.take(ji + 1));
                            assert(post == pre.insert(sk.id, sk_model));
                            assert forall|id: u64| #[trigger] dropped@.contains(id) <==> (
                            post.contains_key(id) && post[id].buffer.len()
                                >= post[id].capacity) by {
                                if id == sk.id {
                                    assert(post[id] == sk_model);
                                    if dropped@.contains(id) {
                                        assert(pre.contains_key(id));
                                    }
                                }
                            }
                        }
                    } else {
                        proof {
                            assert(!dropped@.contains(sk.id)) by {
                                if dropped@.contains(sk.id) {
                                    assert(sinks_model(oseq.take(ji)).contains_key(sk.id));
                                }
                            }
                        }
                        let ghost old_dropped = dropped@;
                        dropped.push(sk.id);
                        proof {
                            let pre = sinks_model(oseq.take(ji));
                            let post = sinks_model(oseq.take(ji + 1));
                            assert(post == pre.insert(sk.id, sk_model));
                            assert forall|id: u64| #[trigger] dropped@.contains(id) <==> (
                            post.contains_key(id) && post[id].buffer.len()
                                >= post[id].capacity) by {
                                if dropped@.contains(id) {
                                    let l = choose|l: int|
                                        0 <= l < dropped@.len() && dropped@[l] == id;
                                    if l < old_dropped.len() {
                                        assert(old_dropped[l] == id);
                                        assert(old_dropped.contains(id));
                                        assert(pre.contains_key(id));
                                        assert(id != sk.id);
                                        assert(post[id] == pre[id]);
                                    } else {
                                        assert(id == sk.id);
                                        assert(post[id] == sk_model);
                                    }
                                }
                                if post.contains_key(id) && post[id].buffer.len()
                                    >= post[id].capacity {
                                    if id == sk.id {
                                        assert(dropped@[dropped@.len() - 1] == id);
                                    } else {
                                        assert(pre.contains_key(id) && pre[id] == post[id]);
                                        assert(old_dropped.contains(id));
                                        let l = choose|l: int|
                                            0 <= l < old_dropped.len() && old_dropped[l] == id;
                                        assert(dropped@[l] == id);
                                    }
                                }
                            }
                            assert forall|a: int, b: int| 0 <= a < b < dropped@.len() implies
                                dropped@[a] != dropped@[b] by {
                                if b == dropped@.len() - 1 {
                                    if old_dropped[a] == sk.id {
                                        assert(old_dropped.contains(sk.id));
                                    }
                                }
                            }
                        }
                    }
                    proof {
                        j = j + 1;
                    }
                }
                proof {
                    assert(oseq.take(j) =~= oseq);
                    assert(sinks_model(oseq.take(j)) == omodel);
                    assert(sinks_model(kept@) == surviving_sinks(omodel, chunk@));
                }
                if kept.len() == 0 {
                    proof {
                        lemma_pool_remove(old(self).sessions@, i as int);
                        assert(self.sessions@ =~= old(self).sessions@.remove(i as int));
                        assert(sinks_model(kept@) =~= Map::<u64, SinkView>::empty());
                        assert(surviving_sinks(omodel, chunk@).dom() =~= Set::<u64>::empty());
                    }
                    (dropped, true)
                } else {
                    let session2 = Session {
                        key: skey,
                        variant,
                        phase,
                        sinks: kept,
                        history: Ghost(newh),
                    };
                    proof {
                        assert(session2.wf());
                        lemma_pool_update(old(self).sessions@, i as int, session2);
                        lemma_sinks_at(session2.sinks@, 0);
                        assert(surviving_sinks(omodel, chunk@).contains_key(
                            session2.sinks@[0].id,
                        ));
                        assert(surviving_sinks(omodel, chunk@).dom() != Set::<u64>::empty()) by {
                            assert(!Set::<u64>::empty().contains(session2.sinks@[0].id));
                        }
                    }
                    self.sessions.insert(i, session2);
                    proof {
                        assert(self.sessions@ =~= old(self).sessions@.update(i as int, session2));
                    }
                    (dropped, false)
                }
            },
        }
    }

    /// A sink's consumer is gone (it disconnected, or the caller is
    /// closing it after an overflow drop): the sink is removed from
    /// `key`'s session if it is still registered. When the last sink
    /// leaves, the session itself is removed — a session with no one
    /// listening is not kept alive — and the result is true, telling the
    /// caller to close the media stream.
    pub fn remove_sink(&mut self, key: &StreamKey, sink_id: u64) -> (ended: bool)
        requires
            old(self).wf(),
            old(self)@.contains_key(key@),
        ensures
            final(self).wf(),
            ({
                let s = old(self)@[key@];
                if !s.sinks.contains_key(sink_id) {
                    &&& final(self)@ == old(self)@
                    &&& !ended
                } else {
                    let m = s.sinks.remove(sink_id);
                    &&& (ended <==> m.dom() == Set::<u64>::empty())
                    &&& (ended ==> final(self)@ == old(self)@.remove(key@))
                    &&& (!ended ==> final(self)@ == old(self)@.insert(
                        key@,
                        SessionView {
                            variant: s.variant,
                            phase: s.phase,
                            history: s.history,
                            sinks: m,
                        },
                    ))
                }
            }),
    {
        match self.find_session(key) {
            None => {
                proof {
                    lemma_pool_absent(self.sessions@, key@);
                    assert(false);
                }
                false
            },
            Some(i) => {
                proof {
                    lemma_pool_at(self.sessions@, i as int);
                    assert(old(self).sessions@[i as int].wf());
                }
                let mut session = self.sessions.remove(i);
                match find_sink(&session.sinks, sink_id) {
                    None => {
                        proof {
                            if has_sink(session.sinks@, sink_id) {
                                let l = sink_at(session.sinks@, sink_id);
                                assert(0 <= l < session.sinks@.len() && session.sinks@[l].id
                                    == sink_id);
                            }
                        }
                        self.sessions.insert(i, session);
                        proof {
                            assert(self.sessions@ =~= old(self).sessions@);
                        }
                        false
                    },
                    Some(l) => {
                        proof {
                            lemma_sinks_at(session.sinks@, l as int);
                            lemma_sinks_remove(session.sinks@, l as int);
                        }
                        let ghost pre_sinks = session.sinks@;
                        let gone = session.sinks.remove(l);
                        proof {
                            assert(session.sinks@ =~= pre_sinks.remove(l as int));
                        }
                        if session.sinks.len() == 0 {
                            proof {
                                lemma_pool_remove(old(self).sessions@, i as int);
                                assert(self.sessions@ =~= old(self).sessions@.remove(i as int));
                                assert(sinks_model(session.sinks@) =~= Map::<
                                    u64,
                                    SinkView,
                                >::empty());
                                assert(sinks_model(pre_sinks).remove(sink_id).dom() =~= Set::<
                                    u64,
                                >::empty());
                            }
                            true
                        } else {
                            proof {
                                assert(session.wf()) by {
                                    assert(forall|m: int| 0 <= m < session.sinks@.len()
                                        ==> (#[trigger] session.sinks@[m]) == (if m < l as int {
                                        pre_sinks[m]
                                    } else {
                                        pre_sinks[m + 1]
                                    }));
                                }
                                lemma_pool_update(old(self).sessions@, i as int, session);
                                lemma_sinks_at(session.sinks@, 0);
                                assert(sinks_model(pre_sinks).remove(sink_id).contains_key(
                                    session.sinks@[0].id,
                                ));
                                assert(sinks_model(pre_sinks).remove(sink_id).dom() != Set::<
                                    u64,
                                >::empty()) by {
                                    assert(!Set::<u64>::empty().contains(session.sinks@[0].id));
                                }
                            }
                            self.sessions.insert(i, session);
                            proof {
                                assert(self.sessions@ =~= old(self).sessions@.update(
                                    i as int,
                                    session,
                                ));
                            }
                            false
                        }
                    },
                }
            },
        }
    }

    /// The media stream for `key`'s session ended, failed, or could not
    /// be opened: the session is removed outright and every sink still
    /// registered is returned, so the caller can close each one (with an
    /// error signal if the stream failed). A later request for the key
    /// starts over with a fresh index lookup.
    pub fn end_session(&mut self, key: &StreamKey) -> (sink_ids: Vec<u64>)
        requires
            old(self).wf(),
            old(self)@.contains_key(key@),
        ensures
            final(self).wf(),
            final(self)@ == old(self)@.remove(key@),
            forall|id: u64| #[trigger] sink_ids@.contains(id)
                <==> old(self)@[key@].sinks.contains_key(id),
            sink_ids@.no_duplicates(),
    {
        match self.find_session(key) {
            None => {
                proof {
                    lemma_pool_absent(self.sessions@, key@);
                    assert(false);
                }
                Vec::new()
            },
            Some(i) => {
                proof {
                    lemma_pool_at(self.sessions@, i as int);
                    assert(old(self).sessions@[i as int].wf());
                    lemma_pool_remove(old(self).sessions@, i as int);
                }
                let session = self.sessions.remove(i);
                proof {
                    assert(self.sessions@ =~= old(self).sessions@.remove(i as int));
                }
                let mut ids: Vec<u64> = Vec::new();
                let mut l: usize = 0;
                while l < session.sinks.len()
                    invariant
                        l <= session.sinks@.len(),
                        ids@.len() == l as int,
                        forall|m: int| 0 <= m < l ==> ids@[m] == session.sinks@[m].id,
                    decreases session.sinks@.len() - l,
                {
                    ids.push(session.sinks[l].id);
                    l = l + 1;
                }
                proof {
                    assert forall|id: u64| #[trigger] ids@.contains(id) <==> sinks_model(
                        session.sinks@,
                    ).contains_key(id) by {
                        if ids@.contains(id) {
                            let m = choose|m: int| 0 <= m < ids@.len() && ids@[m] == id;
                            assert(session.sinks@[m].id == id);
                            lemma_sinks_at(session.sinks@, m);
                        }
                        if has_sink(session.sinks@, id) {
                            let m = sink_at(session.sinks@, id);
                            assert(0 <= m < session.sinks@.len() && session.sinks@[m].id == id);
                            assert(ids@[m] == id);
                        }
                    }
                    assert(ids@.no_duplicates()) by {
                        assert(forall|m1: int, m2: int| 0 <= m1 < m2 < ids@.len()
                            ==> #[trigger] ids@[m1] != #[trigger] ids@[m2]);
                    }
                }
                ids
            },
        }
    }

    /// The caller takes the oldest chunk buffered for one sink, to write
    /// it to that sink's consumer. Returns nothing when the sink's buffer
    /// is currently empty. Chunks come out exactly in the order they were
    /// broadcast.
    pub fn pop_chunk(&mut self, key: &StreamKey, sink_id: u64) -> (c: Option<Vec<u8>>)
        requires
            old(self).wf(),
            old(self)@.contains_key(key@),
            old(self)@[key@].sinks.contains_key(sink_id),
        ensures
            final(self).wf(),
            ({
                let s = old(self)@[key@];
                let sk = s.sinks[sink_id];
                match c {
                    None => s.sinks[sink_id].buffer.len() == 0 && final(self)@ == old(self)@,
                    Some(ch) => {
                        &&& sk.buffer.len() > 0
                        &&& ch@ == sk.buffer[0]
                        &&& final(self)@ == old(self)@.insert(
                            key@,
                            SessionView {
                                variant: s.variant,
                                phase: s.phase,
                                history: s.history,
                                sinks: s.sinks.insert(
                                    sink_id,
                                    SinkView {
                                        capacity: sk.capacity,
                                        joined_at: sk.joined_at,
                                        delivered: sk.delivered.push(sk.buffer[0]),
                                        buffer: sk.buffer.skip(1),
                                    },
                                ),
                            },
                        )
                    },
                }
            }),
    {
        match self.find_session(key) {
            None => {
                proof {
                    lemma_pool_absent(self.sessions@, key@);
                    assert(false);
                }
                None
            },
            Some(i) => {
                proof {
                    lemma_pool_at(self.sessions@, i as int);
                    assert(old(self).sessions@[i as int].wf());
                }
                let mut session = self.sessions.remove(i);
                match find_sink(&session.sinks, sink_id) {
                    None => {
                        proof {
                            if has_sink(session.sinks@, sink_id) {
                                let l = sink_at(session.sinks@, sink_id);
                                assert(0 <= l < session.sinks@.len() && session.sinks@[l].id
                                    == sink_id);
                            }
                            assert(false);
                        }
                        self.sessions.insert(i, session);
                        None
                    },
                    Some(l) => {
                        proof {
                            lemma_sinks_at(session.sinks@, l as int);
                        }
                        if session.sinks[l].buffer.len() == 0 {
                            self.sessions.insert(i, session);
                            proof {
                                assert(self.sessions@ =~= old(self).sessions@);
                                assert(old(self)@[key@].sinks[sink_id].buffer =~= Seq::<
                                    Seq<u8>,
                                >::empty());
                            }
                            None
                        } else {
                            let ghost pre_sinks = session.sinks@;
                            let ghost sk_model = pre_sinks[l as int].model();
                            let mut sk = session.sinks.remove(l);
                            let ch = sk.buffer.remove(0);
                            proof {
                                sk.delivered@ = sk.delivered@.push(ch@);
                            }
                            proof {
                                assert(ch@ == sk_model.buffer[0]);
                                assert(sk.model().buffer =~= sk_model.buffer.skip(1));
                                assert(sk.model() == (SinkView {
                                    capacity: sk_model.capacity,
                                    joined_at: sk_model.joined_at,
                                    delivered: sk_model.delivered.push(sk_model.buffer[0]),
                                    buffer: sk_model.buffer.skip(1),
                                }));
                                assert(sink_faithful(sk.model(), session.history@)) by {
                                    assert(sk_model.delivered.push(sk_model.buffer[0])
                                        + sk_model.buffer.skip(1) =~= sk_model.delivered
                                        + sk_model.buffer);
                                }
                                lemma_sinks_update(pre_sinks, l as int, sk);
                            }
                            session.sinks.insert(l, sk);
                            proof {
                                assert(session.sinks@ =~= pre_sinks.update(l as int, sk));
                                assert(session.wf());
                                lemma_pool_update(old(self).sessions@, i as int, session);
                            }
                            self.sessions.insert(i, session);
                            proof {
                                assert(self.sessions@ =~= old(self).sessions@.update(
                                    i as int,
                                    session,
                                ));
                            }
                            Some(ch)
                        }
                    },
                }
            },
        }
    }
}

fn find_sink(sinks: &Vec<Sink>, sink_id: u64) -> (r: Option<usize>)
    ensures
        match r {
            Some(l) => l < sinks@.len() && sinks@[l as int].id == sink_id,
            None => forall|m: int| 0 <= m < sinks@.len() ==> sinks@[m].id != sink_id,
        },
{
    let mut l: usize = 0;
    while l < sinks.len()
        invariant
            l <= sinks@.len(),
            forall|m: int| 0 <= m < l ==> sinks@[m].id != sink_id,
        decreases sinks@.len() - l,
    {
        if sinks[l].id == sink_id {
            return Some(l);
        }
        l = l + 1;
    }
    None
}

/// Broadcast fidelity: in any well-formed pool, what a sink has been
/// handed — the chunks its consumer already took plus the chunks still
/// buffered for it — is exactly the session's emission history from the
/// point the sink joined, in order, with no gaps and no duplicates, and
/// its buffer never exceeds its bound.
pub proof fn lemma_broadcast_fidelity(p: &PlayerPool, key: StreamKeyView, sink_id: u64)
    requires
        p.wf(),
        p@.contains_key(key),
        p@[key].sinks.contains_key(sink_id),
    ensures
        p@[key].sinks[sink_id].joined_at <= p@[key].history.len(),
        p@[key].sinks[sink_id].delivered + p@[key].sinks[sink_id].buffer == p@[key].history.skip(
            p@[key].sinks[sink_id].joined_at as int,
        ),
        p@[key].sinks[sink_id].buffer.len() <= p@[key].sinks[sink_id].capacity,
{
    let i = key_at(p.sessions@, key);
    assert(0 <= i < p.sessions@.len() && p.sessions@[i].key@ == key);
    lemma_pool_at(p.sessions@, i);
    assert(p.sessions@[i].wf());
    let sinks = p.sessions@[i].sinks@;
    let j = sink_at(sinks, sink_id);
    assert(0 <= j < sinks.len() && sinks[j].id == sink_id);
    lemma_sinks_at(sinks, j);
    assert(sink_faithful(sinks[j].model(), p.sessions@[i].history@));
}

} // verus!
