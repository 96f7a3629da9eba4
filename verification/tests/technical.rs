use crw_search::client::{Score, SearxngResult};
use crw_search::intent::QueryIntent;
use crw_search::technical::{rank_key, rerank_technical};
use crw_search::version::{version_conflicts, version_matches, Version, VersionTier};

fn row(url: &str, title: &str, content: &str, score: f64) -> SearxngResult {
    SearxngResult {
        url: Some(url.into()),
        title: Some(title.into()),
        engine: Some("test".into()),
        content: Some(content.into()),
        score: Some(Score { bits: score.to_bits() }),
        engines: Vec::new(),
        positions: Vec::new(),
        category: Some("general".into()),
        template: None,
        published_date: None,
        img_src: None,
        thumbnail_src: None,
        img_format: None,
        resolution: None,
    }
}

#[test]
fn matching_version_then_official_source_dominate_upstream_score() {
    let rows = vec![
        row("https://blog.test/react-18", "React 18 guide", "", 10.0),
        row("https://react.dev/reference", "React documentation", "", 0.2),
        row("https://react.dev/versions/19", "React 19 reference", "", 0.1),
    ];
    let ranked = rerank_technical(&rows, "React 19 documentation");
    assert_eq!(ranked[0].title.as_deref(), Some("React 19 reference"));
    assert_eq!(ranked[1].title.as_deref(), Some("React documentation"));
    assert_eq!(ranked[2].title.as_deref(), Some("React 18 guide"));
}

#[test]
fn arbitrary_docs_and_github_urls_are_not_official() {
    let intent = QueryIntent::parse("React 19 docs");
    let fake_docs = row("https://docs.react-guide.test/v19", "React 19 docs", "", 1.0);
    let fake_repo = row("https://github.com/random/react", "React 19", "", 1.0);
    let official = row(
        "https://github.com/facebook/react/releases/tag/v19",
        "React 19",
        "",
        0.1,
    );
    assert!(!rank_key(&fake_docs, &intent).authority);
    assert!(!rank_key(&fake_repo, &intent).authority);
    assert!(rank_key(&official, &intent).authority);
}

#[test]
fn version_is_bound_to_the_query_entity() {
    let rows = vec![
        row("https://example.test/python", "Python asyncio with Django 5", "", 9.0),
        row(
            "https://docs.python.org/3.12/library/asyncio.html",
            "asyncio",
            "",
            0.1,
        ),
    ];
    let intent = QueryIntent::parse("Python 3.12 asyncio documentation");
    assert_eq!(rank_key(&rows[0], &intent).version, VersionTier::Neutral);
    let ranked = rerank_technical(&rows, "Python 3.12 asyncio documentation");
    assert_eq!(
        ranked[0].url.as_deref(),
        Some("https://docs.python.org/3.12/library/asyncio.html")
    );
}

#[test]
fn unrelated_explicit_version_does_not_create_a_mismatch() {
    let intent = QueryIntent::parse("Python 3.12 asyncio documentation");
    let unrelated = row(
        "https://example.test/asyncio",
        "Asyncio integration with Django v5",
        "",
        1.0,
    );
    assert_eq!(rank_key(&unrelated, &intent).version, VersionTier::Neutral);
}

#[test]
fn numeric_url_segment_is_not_assumed_to_be_a_version() {
    let intent = QueryIntent::parse("React 19 documentation");
    let error_page = row(
        "https://react.dev/errors/404",
        "React error reference",
        "",
        1.0,
    );
    assert_eq!(rank_key(&error_page, &intent).version, VersionTier::Neutral);
}

#[test]
fn ambiguous_hermes_version_is_not_bound_to_a_registered_authority() {
    let intent = QueryIntent::parse("Hermes Agent DeepSeek V4 support");
    assert!(intent.authority.is_none());
    assert_eq!(intent.version, Some(Version(vec![4])));
}

#[test]
fn query_precision_controls_version_match() {
    assert!(version_matches(&Version(vec![4]), &Version(vec![4, 2])));
    assert!(!version_matches(&Version(vec![4, 1]), &Version(vec![4, 2])));
    assert!(!version_conflicts(&Version(vec![4, 1]), &Version(vec![4])));
    assert!(version_conflicts(&Version(vec![4, 1]), &Version(vec![4, 2])));
}

#[test]
fn newer_date_only_breaks_an_otherwise_equal_rank() {
    let mut old = row("https://a.test/react", "React guide", "", 1.0);
    old.published_date = Some("2024-01-01T00:00:00Z".into());
    let mut new = row("https://b.test/react", "React guide", "", 1.0);
    new.published_date = Some("2026-01-01T00:00:00Z".into());
    let rows = vec![old, new];
    let ranked = rerank_technical(&rows, "React documentation");
    assert_eq!(ranked[0].url.as_deref(), Some("https://b.test/react"));
}

#[test]
fn equal_rank_preserves_upstream_order() {
    let rows = vec![
        row("https://a.test", "React", "", 1.0),
        row("https://b.test", "React", "", 1.0),
    ];
    let ranked = rerank_technical(&rows, "React docs");
    assert_eq!(ranked[0].url.as_deref(), Some("https://a.test"));
}
