use twitchd::index_cache::{GetOutcome, IndexCache};
use twitchd::player_pool::PlayerPool;
use twitchd::types::{ApproxQuality, IndexError, Quality, StreamIndex, StreamKey, VariantInfo};

fn variant(name: &str, bandwidth: u64, locator: &str) -> VariantInfo {
    VariantInfo { name: name.to_string(), bandwidth, locator: locator.to_string() }
}

fn foo_index() -> StreamIndex {
    StreamIndex { variants: vec![variant("480p", 1000, "A"), variant("1080p", 5000, "B")] }
}

fn best_key(channel: &str) -> StreamKey {
    StreamKey { channel: channel.to_string(), quality: Quality::Approx(ApproxQuality::Best) }
}

#[test]
fn single_flight_coalesces_waiters() {
    let mut cache = IndexCache::new();
    let channel = "foo".to_string();
    // First caller fetches; the ones behind join that one flight.
    assert!(matches!(cache.get(&channel), GetOutcome::MustFetch));
    let first = match cache.get(&channel) {
        GetOutcome::Joined(t) => t,
        _ => panic!("second caller should join the in-flight fetch"),
    };
    let second = match cache.get(&channel) {
        GetOutcome::Joined(t) => t,
        _ => panic!("third caller should join the in-flight fetch"),
    };
    assert_ne!(first, second);
    // The one outcome is handed back with every waiter.
    let waiters = cache.complete(&channel, &Ok(foo_index()));
    assert_eq!(waiters, vec![first, second]);
    // The resolved index is now cached: no further upstream call.
    match cache.get(&channel) {
        GetOutcome::Cached(index) => {
            assert_eq!(index.variants.len(), 2);
            assert_eq!(index.variants[1].locator, "B");
        },
        _ => panic!("resolved index should be answered from the cache"),
    }
}

#[test]
fn failed_fetch_does_not_poison() {
    let mut cache = IndexCache::new();
    let channel = "bar".to_string();
    assert!(matches!(cache.get(&channel), GetOutcome::MustFetch));
    let waiters = cache.complete(&channel, &Err(IndexError::NotFound));
    assert!(waiters.is_empty());
    // The slot is gone: the next caller gets a fresh attempt.
    assert!(matches!(cache.get(&channel), GetOutcome::MustFetch));
}

#[test]
fn broadcast_reaches_every_sink_in_order() {
    let mut pool = PlayerPool::new();
    let key = best_key("foo");
    pool.add_player(key.clone(), variant("1080p", 5000, "B"), 1, 4);
    pool.media_opened(&key);
    let (dropped, ended) = pool.broadcast_chunk(&key, &vec![1u8, 2]);
    assert!(dropped.is_empty() && !ended);
    // A late joiner receives only what is emitted after it joined.
    pool.add_sink(&key, 2, 4);
    let (dropped, ended) = pool.broadcast_chunk(&key, &vec![3u8]);
    assert!(dropped.is_empty() && !ended);
    assert_eq!(pool.pop_chunk(&key, 1), Some(vec![1u8, 2]));
    assert_eq!(pool.pop_chunk(&key, 1), Some(vec![3u8]));
    assert_eq!(pool.pop_chunk(&key, 1), None);
    assert_eq!(pool.pop_chunk(&key, 2), Some(vec![3u8]));
    assert_eq!(pool.pop_chunk(&key, 2), None);
}

#[test]
fn slow_sink_is_dropped_without_disturbing_others() {
    let mut pool = PlayerPool::new();
    let key = best_key("foo");
    // Sink 1 has room for a single chunk and its consumer never reads.
    pool.add_player(key.clone(), variant("1080p", 5000, "B"), 1, 1);
    pool.media_opened(&key);
    pool.add_sink(&key, 2, 8);
    let (dropped, ended) = pool.broadcast_chunk(&key, &vec![10u8]);
    assert!(dropped.is_empty() && !ended);
    // Sink 1's buffer is now full: the next chunk drops it, and only it.
    let (dropped, ended) = pool.broadcast_chunk(&key, &vec![11u8]);
    assert_eq!(dropped, vec![1]);
    assert!(!ended);
    assert!(pool.is_playing(&key));
    // Sink 2 saw everything, uninterrupted and in order.
    assert_eq!(pool.pop_chunk(&key, 2), Some(vec![10u8]));
    assert_eq!(pool.pop_chunk(&key, 2), Some(vec![11u8]));
    assert_eq!(pool.pop_chunk(&key, 2), None);
}

#[test]
fn last_sink_leaving_tears_the_session_down() {
    let mut pool = PlayerPool::new();
    let key = best_key("foo");
    pool.add_player(key.clone(), variant("1080p", 5000, "B"), 1, 4);
    pool.media_opened(&key);
    pool.add_sink(&key, 2, 4);
    assert!(!pool.remove_sink(&key, 1));
    assert!(pool.is_playing(&key));
    // The last sink's departure ends the session: the caller must close
    // the media stream, and the key is free again.
    assert!(pool.remove_sink(&key, 2));
    assert!(!pool.is_playing(&key));
}

#[test]
fn media_stream_ending_closes_all_sinks() {
    let mut pool = PlayerPool::new();
    let key = best_key("foo");
    pool.add_player(key.clone(), variant("1080p", 5000, "B"), 7, 4);
    pool.media_opened(&key);
    pool.add_sink(&key, 9, 4);
    let mut ids = pool.end_session(&key);
    ids.sort();
    assert_eq!(ids, vec![7, 9]);
    assert!(!pool.is_playing(&key));
}

#[test]
fn all_sinks_overflowing_ends_the_session() {
    let mut pool = PlayerPool::new();
    let key = best_key("foo");
    pool.add_player(key.clone(), variant("1080p", 5000, "B"), 1, 1);
    pool.media_opened(&key);
    let (dropped, ended) = pool.broadcast_chunk(&key, &vec![1u8]);
    assert!(dropped.is_empty() && !ended);
    let (dropped, ended) = pool.broadcast_chunk(&key, &vec![2u8]);
    assert_eq!(dropped, vec![1]);
    assert!(ended);
    assert!(!pool.is_playing(&key));
}

#[test]
fn join_or_create_creates_exactly_once() {
    let mut pool = PlayerPool::new();
    let key = best_key("foo");
    let v = variant("1080p", 5000, "B");
    let first = pool.join_or_create(key.clone(), v.clone(), 1, 4);
    let second = pool.join_or_create(key.clone(), v.clone(), 2, 4);
    assert!(first);
    assert!(!second);
    assert!(pool.is_playing(&key));
}
