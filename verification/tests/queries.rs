use crw_search::authority::{authorities, find_authority, is_official, is_official_parts, Authority};
use crw_search::intent::{
    is_search_term, parse_explicit_version, parse_known_version, QueryIntent,
};
use crw_search::version::Version;
use crw_search::weburl::UrlParts;

fn strings(words: &[&str]) -> Vec<String> {
    words.iter().map(|word| word.to_string()).collect()
}

fn entry(domain: &str) -> &'static Authority {
    authorities()
        .iter()
        .find(|entry| entry.domains.contains(&domain))
        .unwrap()
}

fn parts(host: Option<&str>, segments: Option<&[&str]>) -> UrlParts {
    UrlParts {
        host: host.map(str::to_owned),
        segments: segments.map(strings),
    }
}

#[test]
fn stop_words_and_versions_are_no_search_terms() {
    assert!(is_search_term("react"));
    assert!(is_search_term("v"));
    assert!(is_search_term("2024"));
    assert!(!is_search_term("docs"));
    assert!(!is_search_term("version"));
    assert!(!is_search_term("v19"));
    assert!(!is_search_term("3.12"));
}

#[test]
fn the_longest_alias_names_the_project() {
    assert_eq!(find_authority("react 19").unwrap().domains, ["react.dev"]);
    assert_eq!(find_authority("react or next.js").unwrap().domains, ["nextjs.org"]);
    assert_eq!(
        find_authority("postgres and python").unwrap().domains,
        ["postgresql.org"]
    );
    // Of aliases of one length the later entry counts.
    assert_eq!(find_authority("django and python").unwrap().domains, ["djangoproject.com"]);
    assert!(find_authority("reactive streams").is_none());
}

#[test]
fn a_known_project_takes_a_bare_version() {
    let intent = QueryIntent::parse("Node JS streams 20 guide");
    assert_eq!(intent.authority.unwrap().domains, ["nodejs.org"]);
    assert_eq!(intent.entity_tokens, strings(&["node", "js"]));
    assert_eq!(intent.version, Some(Version(vec![20])));
    assert_eq!(intent.terms, strings(&["node", "js", "streams", "guide"]));
}

#[test]
fn an_unknown_project_needs_a_marked_version() {
    let intent = QueryIntent::parse("Svelte 5 docs");
    assert!(intent.authority.is_none());
    assert_eq!(intent.version, None);
    assert!(intent.entity_tokens.is_empty());
    let marked = QueryIntent::parse("the Svelte Kit docs version 2.5 guide");
    assert_eq!(marked.version, Some(Version(vec![2, 5])));
    assert_eq!(marked.entity_tokens, strings(&["svelte", "kit"]));
}

#[test]
fn the_entity_is_the_last_two_search_terms() {
    let (entity, version) =
        parse_explicit_version(&strings(&["big", "hermes", "the", "agent", "v4", "v5"]));
    assert_eq!(entity, strings(&["hermes", "agent"]));
    assert_eq!(version, Some(Version(vec![4])));
    let (none, nothing) = parse_explicit_version(&strings(&["version", "next"]));
    assert!(none.is_empty());
    assert_eq!(nothing, None);
}

#[test]
fn a_known_version_follows_the_first_alias_that_has_one() {
    let next = entry("nextjs.org");
    let (alias, version) =
        parse_known_version(&strings(&["next", "js", "and", "nextjs", "app", "14"]), next).unwrap();
    assert_eq!(alias, strings(&["nextjs"]));
    assert_eq!(version, Version(vec![14]));
    assert!(parse_known_version(&strings(&["14", "nextjs"]), next).is_none());
    assert!(parse_known_version(&strings(&["nextjs", "a", "b", "c", "14"]), next).is_none());
}

#[test]
fn queries_ignore_case() {
    let upper = QueryIntent::parse("REACT V19 Hooks");
    let lower = QueryIntent::parse("react v19 hooks");
    assert_eq!(upper.version, lower.version);
    assert_eq!(upper.terms, lower.terms);
    assert_eq!(upper.entity_tokens, lower.entity_tokens);
}

#[test]
fn terms_are_listed_once() {
    let intent = QueryIntent::parse("react hooks react HOOKS state");
    assert_eq!(intent.terms, strings(&["react", "hooks", "state"]));
}

#[test]
fn hosts_of_a_project() {
    let react = entry("react.dev");
    let official = |host: &str| is_official_parts(&parts(Some(host), Some(&[""])), react);
    assert!(official("react.dev"));
    assert!(official("www.react.dev"));
    assert!(official("www.www.react.dev"));
    assert!(official("WWW.React.dev"));
    assert!(official("ja.react.dev"));
    assert!(!official("preact.dev"));
    assert!(!official("react.dev.evil.test"));
    assert!(!official("dev"));
    assert!(!is_official_parts(&parts(None, None), react));
}

#[test]
fn repositories_of_a_project() {
    let react = entry("react.dev");
    let repo = |segments: Option<&[&str]>| {
        is_official_parts(&parts(Some("github.com"), segments), react)
    };
    assert!(repo(Some(&["Facebook", "React", "releases"])));
    assert!(repo(Some(&["facebook", "react"])));
    assert!(!repo(Some(&["facebook"])));
    assert!(!repo(Some(&["facebook", "jest"])));
    assert!(!repo(None));
    assert!(!is_official_parts(
        &parts(Some("gist.github.com"), Some(&["facebook", "react"])),
        react
    ));
    assert!(!is_official_parts(
        &parts(Some("github.com"), Some(&["openai", "openai"])),
        entry("openai.com")
    ));
}

#[test]
fn addresses_are_parsed_before_they_are_judged() {
    let react = entry("react.dev");
    assert!(is_official("https://REACT.dev:443/learn?x#y", react));
    assert!(is_official("https://user@www.react.dev/", react));
    assert!(!is_official("https://react.dev@evil.test/", react));
    assert!(!is_official("react.dev/learn", react));
    assert!(!is_official("", react));
    assert!(!is_official("mailto:team@react.dev", react));
    assert!(is_official("https://github.com/facebook/react", react));
    assert!(!is_official("https://github.com/facebook", react));
}
