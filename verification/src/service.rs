//! The service facade: owns the index cache and the player pool and makes
//! every per-request decision — which channel and quality a request asks
//! for, whether to answer from the cache, join an in-flight fetch or
//! perform one, and whether to join an existing session or start one.
//! The surrounding I/O layer executes what these decisions say (fetch the
//! index, open the media stream, write a response) and feeds the outcomes
//! back in.

use vstd::prelude::*;
use crate::index_cache::{CacheEntryView, GetOutcome, IndexCache};
use crate::player_pool::{PlayerPool, SessionPhase, SessionView, SinkView};
use crate::quality::{lower_of, resolves_to};
use crate::query::QueryParams;
use crate::types::{
    ApproxQuality, IndexError, IndexErrorView, Quality, QualityView, StreamIndex, StreamKey,
    StreamKeyView, VariantInfo,
};

verus! {

/// A finished answer for the I/O layer to send: an HTTP status code and
/// a plain body.
pub struct ApiResponse {
    pub status: u16,
    pub body: String,
}

/// The empty 404 answer: nothing to stream or no such resource.
pub fn not_found() -> (r: ApiResponse)
    ensures
        r.status == 404,
        r.body@ == Seq::<char>::empty(),
{
    ApiResponse { status: 404, body: String::new() }
}

/// A 400 answer carrying what was wrong with the request.
pub fn bad_request(detail: &str) -> (r: ApiResponse)
    ensures
        r.status == 400,
        r.body@ == detail@,
{
    ApiResponse { status: 400, body: detail.to_owned() }
}

/// A 500 answer carrying the upstream failure's message.
pub fn server_error(detail: &str) -> (r: ApiResponse)
    ensures
        r.status == 500,
        r.body@ == detail@,
{
    ApiResponse { status: 500, body: detail.to_owned() }
}

/// Maps a classified index failure to its answer: `NotFound` is the
/// user-facing 404, anything `Unexpected` a 500 with the message.
pub fn index_error_response(error: IndexError) -> (r: ApiResponse)
    ensures
        match error@ {
            IndexErrorView::NotFound => r.status == 404 && r.body@ == Seq::<char>::empty(),
            IndexErrorView::Unexpected(m) => r.status == 500 && r.body@ == m,
        },
{
    match error {
        IndexError::NotFound => not_found(),
        IndexError::Unexpected(detail) => server_error(detail.as_str()),
    }
}

/// The quality a request's parameters ask for: the `quality` parameter
/// classified as `best`, `worst` or an exact lower-cased name; the best
/// variant when the parameter is absent.
pub open spec fn requested_quality(params: Map<Seq<char>, Seq<char>>) -> QualityView {
    if params.contains_key("quality"@) {
        let q = lower_of(params["quality"@]);
        if q == "best"@ {
            QualityView::Approx(ApproxQuality::Best)
        } else if q == "worst"@ {
            QualityView::Approx(ApproxQuality::Worst)
        } else {
            QualityView::Exact(q)
        }
    } else {
        QualityView::Approx(ApproxQuality::Best)
    }
}

/// The stream key a request's parameters ask for.
pub open spec fn requested_key(params: Map<Seq<char>, Seq<char>>) -> StreamKeyView {
    StreamKeyView { channel: params["channel"@], quality: requested_quality(params) }
}

/// No sink anywhere in the pool uses this id yet.
pub open spec fn sink_id_fresh(pool: Map<StreamKeyView, SessionView>, sink_id: u64) -> bool {
    forall|k: StreamKeyView| pool.contains_key(k) ==> !(#[trigger] pool[k]).sinks.contains_key(
        sink_id,
    )
}

/// What one `/stream_index` request decided.
pub enum IndexStep {
    /// The request was malformed; send this answer.
    Respond(ApiResponse),
    /// The cache held the channel's index; encode and send it.
    UseIndex(StreamIndex),
    /// A fetch for this channel is already in flight; the caller waits,
    /// under this ticket, for whoever fetches to deliver the outcome.
    Joined(u64),
    /// No slot exists: the caller must fetch the channel's index upstream
    /// and report the outcome through the cache's `complete`.
    Fetch,
}

/// What one `/play` request decided before any index was needed.
pub enum PlayStep {
    /// The request was malformed; send this answer.
    Respond(ApiResponse),
    /// A session for the requested key existed; the caller's sink was
    /// registered against it and receives every chunk from now on.
    Attached { sink_id: u64, key: StreamKey },
    /// No session exists for this key: resolve the channel's index
    /// (through the cache) and call `fetch_and_play` with the outcome.
    NeedIndex(StreamKey),
}

/// What `fetch_and_play` decided once the index outcome was in hand.
pub enum FetchPlayStep {
    /// The lookup failed or no variant matched; send this answer.
    Respond(ApiResponse),
    /// The sink was registered. When `created`, the caller just created
    /// the session and must now open the media stream for `variant`,
    /// then report through the pool's `media_opened` or `end_session`.
    Play { sink_id: u64, variant: VariantInfo, created: bool },
}

/// The core's state, one value owning both shared structures. All
/// decisions that must be atomic with respect to other requests are
/// single calls on `&mut self`.
pub struct TwitchdApi {
    pub index_cache: IndexCache,
    pub player_pool: PlayerPool,
}

impl TwitchdApi {
    /// Both structures well formed.
    pub open spec fn wf(&self) -> bool {
        &&& self.index_cache.wf()
        &&& self.player_pool.wf()
    }

    /// A fresh core: nothing cached, nothing playing.
    pub fn new() -> (api: TwitchdApi)
        ensures
            api.wf(),
            api.index_cache@ == Map::<Seq<char>, CacheEntryView>::empty(),
            api.player_pool@ == Map::<StreamKeyView, SessionView>::empty(),
    {
        TwitchdApi { index_cache: IndexCache::new(), player_pool: PlayerPool::new() }
    }

    /// Decides a `/stream_index` request: a missing `channel` parameter
    /// is a bad request; otherwise the cache answers, coalesces the
    /// caller onto an in-flight fetch, or sends the caller to fetch.
    pub fn get_stream_index(&mut self, params: &QueryParams) -> (r: IndexStep)
        requires
            old(self).wf(),
        ensures
            final(self).wf(),
            final(self).player_pool@ == old(self).player_pool@,
            match r {
                IndexStep::Respond(resp) => {
                    &&& !params@.contains_key("channel"@)
                    &&& resp.status == 400
                    &&& final(self).index_cache@ == old(self).index_cache@
                },
                IndexStep::UseIndex(index) => {
                    &&& params@.contains_key("channel"@)
                    &&& old(self).index_cache@.contains_key(params@["channel"@])
                    &&& (old(self).index_cache@[params@["channel"@]] matches
                        CacheEntryView::Resolved(vs) && index@ == vs)
                    &&& final(self).index_cache@ == old(self).index_cache@
                },
                IndexStep::Joined(t) => {
                    &&& params@.contains_key("channel"@)
                    &&& old(self).index_cache@.contains_key(params@["channel"@])
                    &&& old(self).index_cache@[params@["channel"@]] is InFlight
                    &&& (old(self).index_cache@[params@["channel"@]] matches
                        CacheEntryView::InFlight(ws) ==> {
                        &&& t as nat == ws.len()
                        &&& !ws.contains(t)
                        &&& final(self).index_cache@ == old(self).index_cache@.insert(
                            params@["channel"@],
                            CacheEntryView::InFlight(ws.push(t)),
                        )
                    })
                },
                IndexStep::Fetch => {
                    &&& params@.contains_key("channel"@)
                    &&& !old(self).index_cache@.contains_key(params@["channel"@])
                    &&& final(self).index_cache@ == old(self).index_cache@.insert(
                        params@["channel"@],
                        CacheEntryView::InFlight(Seq::empty()),
                    )
                },
            },
    {
        let name = "channel".to_owned();
        match params.get(&name) {
            None => IndexStep::Respond(bad_request("Missing channel")),
            Some(channel) => {
                match self.index_cache.get(channel) {
                    GetOutcome::Cached(index) => IndexStep::UseIndex(index),
                    GetOutcome::Joined(t) => IndexStep::Joined(t),
                    GetOutcome::MustFetch => IndexStep::Fetch,
                }
            },
        }
    }

    /// Decides a `/play` request: a missing `channel` parameter is a bad
    /// request; with a session for the requested key already live
    /// (starting or broadcasting), the caller's sink joins it here and
    /// now — the check and the registration are one atomic step — and
    /// otherwise the caller is sent to resolve the index first.
    pub fn get_video_stream(&mut self, params: &QueryParams, sink_id: u64, capacity: usize) -> (r:
        PlayStep)
        requires
            old(self).wf(),
            capacity >= 1,
            sink_id_fresh(old(self).player_pool@, sink_id),
        ensures
            final(self).wf(),
            final(self).index_cache@ == old(self).index_cache@,
            match r {
                PlayStep::Respond(resp) => {
                    &&& !params@.contains_key("channel"@)
                    &&& resp.status == 400
                    &&& final(self).player_pool@ == old(self).player_pool@
                },
                PlayStep::Attached { sink_id: sid, key } => {
                    &&& params@.contains_key("channel"@)
                    &&& sid == sink_id
                    &&& key@ == requested_key(params@)
                    &&& old(self).player_pool@.contains_key(requested_key(params@))
                    &&& final(self).player_pool@ == old(self).player_pool@.insert(
                        requested_key(params@),
                        SessionView {
                            sinks: old(self).player_pool@[requested_key(params@)].sinks.insert(
                                sink_id,
                                SinkView {
                                    capacity: capacity as nat,
                                    joined_at: old(self).player_pool@[requested_key(
                                        params@,
                                    )].history.len(),
                                    delivered: Seq::empty(),
                                    buffer: Seq::empty(),
                                },
                            ),
                            ..old(self).player_pool@[requested_key(params@)]
                        },
                    )
                },
                PlayStep::NeedIndex(key) => {
                    &&& params@.contains_key("channel"@)
                    &&& key@ == requested_key(params@)
                    &&& !old(self).player_pool@.contains_key(key@)
                    &&& final(self).player_pool@ == old(self).player_pool@
                },
            },
    {
        let channel_name = "channel".to_owned();
        let quality_name = "quality".to_owned();
        match params.get(&channel_name) {
            None => PlayStep::Respond(bad_request("Missing channel")),
            Some(channel) => {
                let quality = match params.get(&quality_name) {
                    Some(raw) => Quality::from_string(raw.as_str()),
                    None => Quality::default(),
                };
                let key = StreamKey { channel: channel.clone(), quality };
                proof {
                    assert(key@ == requested_key(params@));
                }
                if self.player_pool.is_playing(&key) {
                    self.player_pool.add_sink(&key, sink_id, capacity);
                    PlayStep::Attached { sink_id, key }
                } else {
                    PlayStep::NeedIndex(key)
                }
            },
        }
    }

    /// Finishes a `/play` request once the channel's index outcome is in
    /// hand: a lookup failure becomes its classified answer (the same one
    /// `/stream_index` would give); an index with no variant matching the
    /// requested quality is the distinct "no such quality" 404; and a
    /// matching variant joins the session for the key, or creates it if —
    /// and only if — none exists, in one atomic step.
    pub fn fetch_and_play(
        &mut self,
        key: StreamKey,
        index_result: Result<StreamIndex, IndexError>,
        sink_id: u64,
        capacity: usize,
    ) -> (r: FetchPlayStep)
        requires
            old(self).wf(),
            capacity >= 1,
            sink_id_fresh(old(self).player_pool@, sink_id),
        ensures
            final(self).wf(),
            final(self).index_cache@ == old(self).index_cache@,
            match r {
                FetchPlayStep::Respond(resp) => {
                    &&& final(self).player_pool@ == old(self).player_pool@
                    &&& match index_result {
                        Err(e) => match e@ {
                            IndexErrorView::NotFound => resp.status == 404 && resp.body@
                                == Seq::<char>::empty(),
                            IndexErrorView::Unexpected(m) => resp.status == 500 && resp.body@
                                == m,
                        },
                        Ok(index) => {
                            &&& resolves_to(index@, key@.quality, None)
                            &&& resp.status == 404
                            &&& resp.body@ == Seq::<char>::empty()
                        },
                    }
                },
                FetchPlayStep::Play { sink_id: sid, variant, created } => {
                    &&& sid == sink_id
                    &&& (index_result matches Ok(index) && resolves_to(
                        index@,
                        key@.quality,
                        Some(variant@),
                    ))
                    &&& created == !old(self).player_pool@.contains_key(key@)
                    &&& (created ==> final(self).player_pool@ == old(self).player_pool@.insert(
                        key@,
                        SessionView {
                            variant: variant@,
                            phase: SessionPhase::Starting,
                            history: Seq::empty(),
                            sinks: Map::<u64, SinkView>::empty().insert(
                                sink_id,
                                SinkView {
                                    capacity: capacity as nat,
                                    joined_at: 0,
                                    delivered: Seq::empty(),
                                    buffer: Seq::empty(),
                                },
                            ),
                        },
                    ))
                    &&& (!created ==> final(self).player_pool@ == old(self).player_pool@.insert(
                        key@,
                        SessionView {
                            sinks: old(self).player_pool@[key@].sinks.insert(
                                sink_id,
                                SinkView {
                                    capacity: capacity as nat,
                                    joined_at: old(self).player_pool@[key@].history.len(),
                                    delivered: Seq::empty(),
                                    buffer: Seq::empty(),
                                },
                            ),
                            ..old(self).player_pool@[key@]
                        },
                    ))
                },
            },
    {
        match index_result {
            Err(error) => FetchPlayStep::Respond(index_error_response(error)),
            Ok(index) => {
                match crate::quality::find_playlist(index, &key.quality) {
                    None => FetchPlayStep::Respond(not_found()),
                    Some(variant) => {
                        let out = variant.clone();
                        let created = self.player_pool.join_or_create(
                            key,
                            variant,
                            sink_id,
                            capacity,
                        );
                        FetchPlayStep::Play { sink_id, variant: out, created }
                    },
                }
            },
        }
    }
}

} // verus!
