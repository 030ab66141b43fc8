use twitchd::query::parse_query_params;
use twitchd::service::{
    bad_request, index_error_response, not_found, server_error, FetchPlayStep, IndexStep,
    PlayStep, TwitchdApi,
};
use twitchd::types::{IndexError, StreamIndex, VariantInfo};

fn variant(name: &str, bandwidth: u64, locator: &str) -> VariantInfo {
    VariantInfo { name: name.to_string(), bandwidth, locator: locator.to_string() }
}

fn foo_index() -> StreamIndex {
    StreamIndex { variants: vec![variant("480p", 1000, "A"), variant("1080p", 5000, "B")] }
}

#[test]
fn response_builders_carry_status_and_detail() {
    assert_eq!(not_found().status, 404);
    let bad = bad_request("Missing channel");
    assert_eq!(bad.status, 400);
    assert_eq!(bad.body, "Missing channel");
    let err = server_error("boom");
    assert_eq!(err.status, 500);
    assert_eq!(err.body, "boom");
}

#[test]
fn index_errors_map_to_classified_answers() {
    assert_eq!(index_error_response(IndexError::NotFound).status, 404);
    let resp = index_error_response(IndexError::Unexpected("upstream timeout".to_string()));
    assert_eq!(resp.status, 500);
    assert_eq!(resp.body, "upstream timeout");
}

#[test]
fn stream_index_requires_a_channel() {
    let mut api = TwitchdApi::new();
    let params = parse_query_params("quality=best");
    match api.get_stream_index(&params) {
        IndexStep::Respond(resp) => assert_eq!(resp.status, 400),
        _ => panic!("a request without a channel is a bad request"),
    }
}

#[test]
fn stream_index_fetches_then_caches() {
    let mut api = TwitchdApi::new();
    let params = parse_query_params("channel=foo");
    assert!(matches!(api.get_stream_index(&params), IndexStep::Fetch));
    // A second request while the fetch is in flight joins it.
    assert!(matches!(api.get_stream_index(&params), IndexStep::Joined(_)));
    let waiters = api.index_cache.complete(&"foo".to_string(), &Ok(foo_index()));
    assert_eq!(waiters.len(), 1);
    match api.get_stream_index(&params) {
        IndexStep::UseIndex(index) => assert_eq!(index.variants[1].name, "1080p"),
        _ => panic!("the resolved index should come from the cache"),
    }
}

#[test]
fn lookup_failure_keeps_its_classification() {
    // The channel's index lookup reports NotFound: /play answers with the
    // same classified failure, not a generic error.
    let mut api = TwitchdApi::new();
    let params = parse_query_params("channel=bar");
    assert!(matches!(api.get_stream_index(&params), IndexStep::Fetch));
    let waiters = api.index_cache.complete(&"bar".to_string(), &Err(IndexError::NotFound));
    assert!(waiters.is_empty());
    let key = match api.get_video_stream(&params, 1, 4) {
        PlayStep::NeedIndex(key) => key,
        _ => panic!("no session exists yet"),
    };
    match api.fetch_and_play(key, Err(IndexError::NotFound), 1, 4) {
        FetchPlayStep::Respond(resp) => assert_eq!(resp.status, 404),
        _ => panic!("a failed lookup cannot start playback"),
    }
}

#[test]
fn no_matching_quality_is_not_found() {
    let mut api = TwitchdApi::new();
    let params = parse_query_params("channel=foo&quality=720p");
    let key = match api.get_video_stream(&params, 1, 4) {
        PlayStep::NeedIndex(key) => key,
        _ => panic!("no session exists yet"),
    };
    match api.fetch_and_play(key, Ok(foo_index()), 1, 4) {
        FetchPlayStep::Respond(resp) => assert_eq!(resp.status, 404),
        _ => panic!("no variant matches 720p"),
    }
}

#[test]
fn concurrent_play_requests_share_one_session() {
    let mut api = TwitchdApi::new();
    let params = parse_query_params("channel=foo&quality=1080p");
    // Both requests arrive before any session exists.
    let key_a = match api.get_video_stream(&params, 1, 4) {
        PlayStep::NeedIndex(key) => key,
        _ => panic!("no session exists yet"),
    };
    let key_b = match api.get_video_stream(&params, 2, 4) {
        PlayStep::NeedIndex(key) => key,
        _ => panic!("still no session"),
    };
    // Whoever finishes the index lookup first creates; the other joins.
    let first = api.fetch_and_play(key_a, Ok(foo_index()), 1, 4);
    let second = api.fetch_and_play(key_b, Ok(foo_index()), 2, 4);
    match first {
        FetchPlayStep::Play { variant, created, .. } => {
            assert!(created, "exactly the first caller opens the media stream");
            assert_eq!(variant.locator, "B");
        },
        _ => panic!("playback should start"),
    }
    match second {
        FetchPlayStep::Play { created, .. } => {
            assert!(!created, "the second caller must join, not open again");
        },
        _ => panic!("the second caller should be attached"),
    }
}

#[test]
fn best_quality_play_opens_top_bandwidth_variant() {
    let mut api = TwitchdApi::new();
    let params = parse_query_params("channel=foo");
    let key = match api.get_video_stream(&params, 1, 4) {
        PlayStep::NeedIndex(key) => key,
        _ => panic!("no session exists yet"),
    };
    match api.fetch_and_play(key.clone(), Ok(foo_index()), 1, 4) {
        FetchPlayStep::Play { variant, created, .. } => {
            assert!(created);
            assert_eq!(variant.name, "1080p");
            assert_eq!(variant.locator, "B");
        },
        _ => panic!("playback should start"),
    }
    // A later request for the same channel and quality joins the session.
    match api.get_video_stream(&params, 2, 4) {
        PlayStep::Attached { sink_id, key: joined } => {
            assert_eq!(sink_id, 2);
            assert_eq!(joined.channel, "foo");
        },
        _ => panic!("the live session should be joined"),
    }
}

#[test]
fn session_end_frees_the_key_for_a_fresh_start() {
    let mut api = TwitchdApi::new();
    let params = parse_query_params("channel=foo");
    let key = match api.get_video_stream(&params, 1, 4) {
        PlayStep::NeedIndex(key) => key,
        _ => panic!("no session exists yet"),
    };
    match api.fetch_and_play(key.clone(), Ok(foo_index()), 1, 4) {
        FetchPlayStep::Play { created, .. } => assert!(created),
        _ => panic!("playback should start"),
    }
    api.player_pool.media_opened(&key);
    // The stream goes offline: every remaining sink is closed and the
    // key no longer plays.
    let ids = api.player_pool.end_session(&key);
    assert_eq!(ids, vec![1]);
    assert!(!api.player_pool.is_playing(&key));
    // A new request starts over with a fresh lookup and a new session.
    match api.get_video_stream(&params, 3, 4) {
        PlayStep::NeedIndex(_) => {},
        _ => panic!("the old session must be gone"),
    }
}
