use std::cmp::Ordering;

use crw_search::client::{Score, SearxngResult};
use crw_search::evidence::{
    candidate_versions, candidate_versions_parts, lexical_score, parse_date, path_versions,
};
use crw_search::intent::QueryIntent;
use crw_search::ranking::{compare_keys, rank_order, RankKey};
use crw_search::technical::{rank_key, rank_key_with, rerank_order, rerank_technical};
use crw_search::version::{Version, VersionTier};
use crw_search::weburl::UrlParts;

fn strings(words: &[&str]) -> Vec<String> {
    words.iter().map(|word| word.to_string()).collect()
}

fn score(value: f64) -> Score {
    Score { bits: value.to_bits() }
}

fn empty_row() -> SearxngResult {
    SearxngResult {
        url: None,
        title: None,
        engine: None,
        content: None,
        score: None,
        engines: Vec::new(),
        positions: Vec::new(),
        category: None,
        template: None,
        published_date: None,
        img_src: None,
        thumbnail_src: None,
        img_format: None,
        resolution: None,
    }
}

fn row(url: &str, title: &str, content: &str) -> SearxngResult {
    SearxngResult {
        url: Some(url.into()),
        title: Some(title.into()),
        content: Some(content.into()),
        ..empty_row()
    }
}

fn key(version: VersionTier, authority: bool, lexical: u128, freshness: u32, s: f64) -> RankKey {
    RankKey { version, authority, lexical, freshness, upstream: score(s) }
}

#[test]
fn scores_have_the_order_of_the_numbers() {
    let values = [
        f64::NEG_INFINITY,
        -1.5,
        -f64::MIN_POSITIVE,
        -0.0,
        0.0,
        5e-324,
        0.1,
        1.0,
        1e300,
        f64::INFINITY,
        f64::NAN,
        -f64::NAN,
    ];
    for a in values {
        for b in values {
            assert_eq!(
                score(a).compared_to(score(b)),
                a.partial_cmp(&b).unwrap_or(Ordering::Equal)
            );
        }
    }
    assert_eq!(Score::zero(), score(0.0));
}

#[test]
fn keys_are_compared_field_by_field() {
    let base = key(VersionTier::Neutral, false, 3, 20240101, 1.0);
    assert_eq!(compare_keys(&base, &base), Ordering::Equal);
    let better = [
        key(VersionTier::Match, false, 0, 0, 0.0),
        key(VersionTier::Neutral, true, 0, 0, 0.0),
        key(VersionTier::Neutral, false, 4, 0, 0.0),
        key(VersionTier::Neutral, false, 3, 20240102, 0.0),
        key(VersionTier::Neutral, false, 3, 20240101, 1.5),
    ];
    for other in better {
        assert_eq!(compare_keys(&other, &base), Ordering::Greater);
        assert_eq!(compare_keys(&base, &other), Ordering::Less);
    }
    let worse = key(VersionTier::Mismatch, true, 9, 99999999, 9.0);
    assert_eq!(compare_keys(&worse, &base), Ordering::Less);
}

#[test]
fn order_is_by_key_and_stable() {
    let low = key(VersionTier::Mismatch, true, 9, 9, 9.0);
    let mid = key(VersionTier::Neutral, false, 1, 0, 0.0);
    let high = key(VersionTier::Match, false, 0, 0, 0.0);
    assert_eq!(
        rank_order(&[low, mid, high, mid, low, high, mid]),
        vec![2, 5, 1, 3, 6, 0, 4]
    );
    assert_eq!(rank_order(&[]), Vec::<usize>::new());
}

#[test]
fn what_is_no_number_loses_no_result() {
    let nan = key(VersionTier::Neutral, false, 0, 0, f64::NAN);
    let one = key(VersionTier::Neutral, false, 0, 0, 1.0);
    let two = key(VersionTier::Neutral, false, 0, 0, 2.0);
    let mut order = rank_order(&[one, nan, two, nan, one]);
    order.sort();
    assert_eq!(order, vec![0, 1, 2, 3, 4]);
}

#[test]
fn versions_dominate_even_what_is_no_number() {
    let neutral = key(VersionTier::Neutral, true, 9, 9, f64::NAN);
    let matching = key(VersionTier::Match, false, 0, 0, f64::NAN);
    let other = key(VersionTier::Mismatch, true, 9, 9, f64::INFINITY);
    assert_eq!(rank_order(&[other, neutral, matching]), vec![2, 1, 0]);
    assert_eq!(rank_order(&[neutral, other, matching, neutral]), vec![2, 0, 3, 1]);
}

#[test]
fn dates_are_numbers() {
    assert_eq!(parse_date(Some("2024-01-31")), 20240131);
    assert_eq!(parse_date(Some("2024-01-31T12:00:00Z")), 20240131);
    assert_eq!(parse_date(Some("2024/01/31")), 0);
    assert_eq!(parse_date(Some("2024-1-31")), 0);
    assert_eq!(parse_date(Some("2024-01-3")), 0);
    assert_eq!(parse_date(None), 0);
    assert_eq!(parse_date(Some("é24-01-01")), 240101);
    assert_eq!(parse_date(Some("2024-01-3é")), 0);
    assert_eq!(parse_date(Some("abcd-ef-gh")), 0);
    assert_eq!(parse_date(Some("9999-99-99")), 99999999);
    assert!(parse_date(Some("2025-01-01")) > parse_date(Some("2024-12-31T23:59:59Z")));
}

#[test]
fn terms_weigh_by_where_they_stand() {
    let terms = strings(&["react", "hooks"]);
    assert_eq!(lexical_score(&terms, "React hooks", "", ""), 8);
    assert_eq!(lexical_score(&terms, "", "https://x.test/react/hooks", ""), 4);
    assert_eq!(lexical_score(&terms, "", "", "hooks of react"), 2);
    assert_eq!(lexical_score(&terms, "react", "/react", "react react"), 7);
    assert_eq!(lexical_score(&terms, "reactive", "", ""), 0);
    let turned = strings(&["hooks", "react"]);
    assert_eq!(
        lexical_score(&turned, "react", "hooks", "x"),
        lexical_score(&terms, "react", "hooks", "x")
    );
}

#[test]
fn path_segments_that_write_versions() {
    let of = |segments: &[&str]| {
        path_versions(&UrlParts { host: None, segments: Some(strings(segments)) })
    };
    assert_eq!(of(&["errors", "404"]), vec![]);
    assert_eq!(of(&["versions", "19"]), vec![Version(vec![19])]);
    assert_eq!(of(&["version", "19", "18"]), vec![Version(vec![19])]);
    assert_eq!(of(&["3.12", "v4", "library"]), vec![Version(vec![3, 12]), Version(vec![4])]);
    assert_eq!(of(&["asyncio.html"]), vec![]);
    assert_eq!(path_versions(&UrlParts { host: None, segments: None }), vec![]);
}

#[test]
fn versions_around_the_entity() {
    let intent = QueryIntent::parse("React 19");
    assert_eq!(
        candidate_versions("5 6 7 react a 8 9 10", "", "18 react", &intent, false),
        vec![
            Version(vec![6]),
            Version(vec![7]),
            Version(vec![8]),
            Version(vec![9]),
            Version(vec![18]),
        ]
    );
    assert_eq!(
        candidate_versions("django v5", "https://react.dev/v3", "", &intent, false),
        vec![]
    );
    assert_eq!(
        candidate_versions("django v5", "https://react.dev/v3", "", &intent, true),
        vec![Version(vec![5]), Version(vec![3])]
    );
    assert_eq!(candidate_versions("", "no address/v3", "", &intent, true), vec![]);
    let parts = UrlParts { host: None, segments: Some(strings(&["v2"])) };
    assert_eq!(
        candidate_versions_parts("", "", Some(&parts), &intent, true),
        vec![Version(vec![2])]
    );
    assert_eq!(candidate_versions_parts("", "", Some(&parts), &intent, false), vec![]);
}

#[test]
fn keys_of_results() {
    let intent = QueryIntent::parse("React 19 hooks");
    let mut official = row("https://react.dev/versions/19", "Hooks", "all of react");
    official.published_date = Some("2025-02-03".into());
    official.score = Some(score(0.5));
    // The title holds "hooks" and the excerpt "react"; in the address "react.dev"
    // is one token.
    assert_eq!(
        rank_key(&official, &intent),
        key(VersionTier::Match, true, 5, 20250203, 0.5)
    );
    let bare = empty_row();
    assert_eq!(
        rank_key(&bare, &intent),
        key(VersionTier::Neutral, false, 0, 0, 0.0)
    );
    assert_eq!(
        rank_key_with(&bare, &intent, true, &[Version(vec![18])]),
        key(VersionTier::Mismatch, true, 0, 0, 0.0)
    );
    let no_version = QueryIntent::parse("React hooks");
    assert_eq!(
        rank_key_with(&bare, &no_version, false, &[Version(vec![18])]).version,
        VersionTier::Neutral
    );
}

#[test]
fn no_known_project_means_no_official_results() {
    let intent = QueryIntent::parse("svelte v5 hooks");
    let page = row("https://react.dev/reference", "React v5", "");
    assert!(!rank_key(&page, &intent).authority);
    assert_eq!(rank_key(&page, &intent).version, VersionTier::Neutral);
    let named = row("https://x.test", "Svelte 4", "");
    assert_eq!(rank_key(&named, &intent).version, VersionTier::Mismatch);
}

#[test]
fn ranking_again_changes_nothing() {
    let rows = vec![
        row("https://a.test", "React 18", ""),
        row("https://b.test", "React 19", ""),
        row("https://react.dev/learn", "Learn", ""),
        row("https://c.test", "React 19 and more", ""),
    ];
    assert_eq!(rerank_order(&rows, "React 19"), vec![1, 3, 2, 0]);
    let first: Vec<SearxngResult> =
        rerank_technical(&rows, "React 19").into_iter().cloned().collect();
    assert_eq!(rerank_order(&first, "REACT 19"), vec![0, 1, 2, 3]);
    assert_eq!(rerank_technical(&[], "React 19").len(), 0);
}

#[test]
fn upstream_score_decides_last() {
    let mut low = row("https://a.test", "React", "");
    low.score = Some(score(-1.0));
    let none = row("https://b.test", "React", "");
    let mut high = row("https://c.test", "React", "");
    high.score = Some(score(0.25));
    assert_eq!(rerank_order(&[low, none, high], "react"), vec![2, 1, 0]);
}
