use twitchd::quality::{find_playlist, find_playlist_approx, find_playlist_exact};
use twitchd::types::{ApproxQuality, Quality, StreamIndex, VariantInfo};

fn variant(name: &str, bandwidth: u64, locator: &str) -> VariantInfo {
    VariantInfo { name: name.to_string(), bandwidth, locator: locator.to_string() }
}

fn sample_index() -> StreamIndex {
    StreamIndex {
        variants: vec![
            variant("480p", 1000, "A"),
            variant("1080p", 5000, "B"),
            variant("Source", 8000, "C"),
        ],
    }
}

#[test]
fn exact_match_is_case_insensitive() {
    let found = find_playlist_exact(sample_index(), "SOURCE").expect("should match");
    assert_eq!(found.name, "Source");
    assert_eq!(found.locator, "C");
}

#[test]
fn exact_match_lowercases_both_sides() {
    let found = find_playlist(sample_index(), &Quality::Exact("source".to_string()));
    assert_eq!(found.expect("should match").locator, "C");
}

#[test]
fn exact_match_misses_unknown_name() {
    assert!(find_playlist_exact(sample_index(), "720p").is_none());
}

#[test]
fn approx_best_takes_maximal_bandwidth() {
    let found = find_playlist_approx(sample_index(), &ApproxQuality::Best).unwrap();
    assert_eq!(found.name, "Source");
    assert_eq!(found.bandwidth, 8000);
}

#[test]
fn approx_worst_takes_minimal_bandwidth() {
    let found = find_playlist_approx(sample_index(), &ApproxQuality::Worst).unwrap();
    assert_eq!(found.name, "480p");
    assert_eq!(found.bandwidth, 1000);
}

#[test]
fn approx_ties_follow_stable_sort_order() {
    let index = StreamIndex {
        variants: vec![
            variant("first-low", 100, "a"),
            variant("first-high", 900, "b"),
            variant("second-low", 100, "c"),
            variant("second-high", 900, "d"),
        ],
    };
    // A stable ascending sort keeps ties in original order: the last
    // maximal variant ends up last, the first minimal one first.
    let best = find_playlist_approx(
        StreamIndex { variants: index.variants.clone() },
        &ApproxQuality::Best,
    )
    .unwrap();
    assert_eq!(best.name, "second-high");
    let worst = find_playlist_approx(index, &ApproxQuality::Worst).unwrap();
    assert_eq!(worst.name, "first-low");
}

#[test]
fn empty_index_resolves_to_none() {
    let empty = StreamIndex { variants: vec![] };
    assert!(find_playlist(empty, &Quality::Approx(ApproxQuality::Best)).is_none());
    let empty = StreamIndex { variants: vec![] };
    assert!(find_playlist(empty, &Quality::Approx(ApproxQuality::Worst)).is_none());
    let empty = StreamIndex { variants: vec![] };
    assert!(find_playlist(empty, &Quality::Exact("480p".to_string())).is_none());
}

#[test]
fn quality_from_string_classifies() {
    assert!(matches!(Quality::from_string("BEST"), Quality::Approx(ApproxQuality::Best)));
    assert!(matches!(Quality::from_string("Worst"), Quality::Approx(ApproxQuality::Worst)));
    match Quality::from_string("1080P") {
        Quality::Exact(name) => assert_eq!(name, "1080p"),
        _ => panic!("expected an exact quality"),
    }
}

#[test]
fn quality_default_is_best() {
    assert!(matches!(Quality::default(), Quality::Approx(ApproxQuality::Best)));
}
