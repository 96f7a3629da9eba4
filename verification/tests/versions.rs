use crw_search::version::{
    bare_version, classify_versions, collect_explicit_versions, explicit_version, parse_number,
    version_at, version_conflicts, version_matches, version_near, Version, VersionTier,
};

fn strings(words: &[&str]) -> Vec<String> {
    words.iter().map(|word| word.to_string()).collect()
}

fn v(parts: &[u32]) -> Version {
    Version(parts.to_vec())
}

#[test]
fn numbers_fit_in_32_bits() {
    assert_eq!(parse_number("0"), Some(0));
    assert_eq!(parse_number("007"), Some(7));
    assert_eq!(parse_number("4294967295"), Some(4294967295));
    assert_eq!(parse_number("4294967296"), None);
    assert_eq!(parse_number("00000000000000000001"), Some(1));
    assert_eq!(parse_number(""), None);
    assert_eq!(parse_number("+1"), None);
    assert_eq!(parse_number("1a"), None);
}

#[test]
fn bare_versions() {
    assert_eq!(bare_version("19"), Some(v(&[19])));
    assert_eq!(bare_version("3.12"), Some(v(&[3, 12])));
    assert_eq!(bare_version("1.2.3"), Some(v(&[1, 2, 3])));
    assert_eq!(bare_version("1.2.3.4"), None);
    assert_eq!(bare_version("1..2"), None);
    assert_eq!(bare_version(".1"), None);
    assert_eq!(bare_version("."), None);
    assert_eq!(bare_version(""), None);
    assert_eq!(bare_version("v1"), None);
    assert_eq!(bare_version("1.x"), None);
    assert_eq!(bare_version("4294967296"), None);
}

#[test]
fn years_are_no_versions() {
    assert_eq!(bare_version("1899"), Some(v(&[1899])));
    assert_eq!(bare_version("1900"), None);
    assert_eq!(bare_version("2024"), None);
    assert_eq!(bare_version("2024.1"), None);
    assert_eq!(bare_version("2099"), None);
    assert_eq!(bare_version("2100"), Some(v(&[2100])));
    assert_eq!(bare_version("1.2024"), Some(v(&[1, 2024])));
}

#[test]
fn explicit_versions_have_a_v() {
    assert_eq!(explicit_version("v19.1"), Some(v(&[19, 1])));
    assert_eq!(explicit_version("19.1"), None);
    assert_eq!(explicit_version("v"), None);
    assert_eq!(explicit_version(""), None);
    assert_eq!(explicit_version("V4"), None);
    assert_eq!(explicit_version("vue"), None);
}

#[test]
fn versions_in_tokens() {
    let tokens = strings(&["react", "version", "19", "or", "v18", "7"]);
    assert_eq!(version_at(&tokens, 0, true), None);
    assert_eq!(version_at(&tokens, 1, false), Some(v(&[19])));
    assert_eq!(version_at(&tokens, 2, false), None);
    assert_eq!(version_at(&tokens, 2, true), Some(v(&[19])));
    assert_eq!(version_at(&tokens, 4, false), Some(v(&[18])));
    assert_eq!(version_at(&tokens, 6, true), None);
    assert_eq!(version_at(&strings(&["version"]), 0, true), None);
    assert_eq!(version_near(&tokens, 3, true), Some(v(&[18])));
    assert_eq!(version_near(&tokens, 5, false), None);
    assert_eq!(version_near(&tokens, 9, true), None);
    let far = strings(&["a", "b", "c", "1"]);
    assert_eq!(version_near(&far, 0, true), None);
    assert_eq!(version_near(&far, 1, true), Some(v(&[1])));
}

#[test]
fn explicit_versions_are_appended() {
    let mut found = vec![v(&[1])];
    collect_explicit_versions(&strings(&["v2", "3", "version", "4", "v"]), &mut found);
    assert_eq!(found, vec![v(&[1]), v(&[2]), v(&[4])]);
}

#[test]
fn less_precise_versions_neither_match_nor_conflict() {
    assert!(!version_matches(&v(&[4, 1]), &v(&[4])));
    assert!(!version_conflicts(&v(&[4, 1]), &v(&[4])));
    assert!(version_conflicts(&v(&[5]), &v(&[4, 1])));
    assert!(version_conflicts(&v(&[4, 1]), &v(&[5])));
    assert!(version_matches(&v(&[4, 1]), &v(&[4, 1])));
    assert!(version_matches(&v(&[4]), &v(&[4, 1, 2])));
}

#[test]
fn one_match_outweighs_other_versions() {
    assert_eq!(classify_versions(&v(&[19]), &[]), VersionTier::Neutral);
    assert_eq!(classify_versions(&v(&[19]), &[v(&[18])]), VersionTier::Mismatch);
    assert_eq!(
        classify_versions(&v(&[19]), &[v(&[18]), v(&[19, 1])]),
        VersionTier::Match
    );
    assert_eq!(
        classify_versions(&v(&[19]), &[v(&[19, 1]), v(&[18]), v(&[18])]),
        VersionTier::Match
    );
    assert_eq!(classify_versions(&v(&[19, 1]), &[v(&[19])]), VersionTier::Neutral);
}
