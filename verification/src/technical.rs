//! The order in which the results of a technical query are shown.

use vstd::prelude::*;

use crate::authority::{is_official, official_url};
use crate::client::{Score, SearxngResult};
use crate::evidence::{
    candidate_versions, candidates_of, date_of, lexical_of, lexical_score, parse_date,
};
use crate::intent::{intent_of, IntentView, QueryIntent};
use crate::ranking::{key_views, rank_order, ranks, KeyView, RankKey};
use crate::text::{indices, lowered, normalize, text_or_empty};
use crate::version::{all_components, classify_versions, tier_of, Version, VersionTier};

verus! {

/// The text of an optional string.
pub open spec fn optional_text(s: Option<String>) -> Option<Seq<char>> {
    match s {
        Some(s) => Some(s@),
        None => None,
    }
}

/// The key of a result that is official or not and speaks of the given
/// versions.
pub open spec fn key_with(
    row: SearxngResult,
    intent: IntentView,
    official: bool,
    versions: Seq<Seq<u32>>,
) -> KeyView {
    KeyView {
        version: match intent.version {
            Some(requested) => tier_of(requested, versions),
            None => VersionTier::Neutral,
        },
        authority: official,
        lexical: lexical_of(
            intent.terms,
            lowered(text_or_empty(row.title)),
            lowered(text_or_empty(row.url)),
            lowered(text_or_empty(row.content)),
        ),
        freshness: date_of(optional_text(row.published_date)),
        upstream: match row.score {
            Some(score) => score,
            None => Score::zero_of(),
        },
    }
}

/// Whether a result comes from the project that a query names.
pub open spec fn official_row(row: SearxngResult, intent: IntentView) -> bool {
    match intent.authority {
        Some(entry) => official_url(text_or_empty(row.url), entry),
        None => false,
    }
}

/// The versions that a result speaks of.
pub open spec fn row_versions(row: SearxngResult, intent: IntentView) -> Seq<Seq<u32>> {
    candidates_of(
        lowered(text_or_empty(row.title)),
        lowered(text_or_empty(row.url)),
        lowered(text_or_empty(row.content)),
        intent,
        official_row(row, intent),
    )
}

/// The key of a result.
pub open spec fn key_of(row: SearxngResult, intent: IntentView) -> KeyView {
    key_with(row, intent, official_row(row, intent), row_versions(row, intent))
}

/// The keys of some results for a query.
pub open spec fn keys_of(rows: Seq<SearxngResult>, query: Seq<char>) -> Seq<KeyView> {
    rows.map_values(|row: SearxngResult| key_of(row, intent_of(query)))
}

/// Some results in a given order.
pub open spec fn rows_in(rows: Seq<SearxngResult>, order: Seq<int>) -> Seq<SearxngResult> {
    order.map_values(|i: int| rows[i])
}

/// The results that a sequence of references refers to.
pub open spec fn referents(refs: Seq<&SearxngResult>) -> Seq<SearxngResult> {
    refs.map_values(|r: &SearxngResult| *r)
}

/// The text of an optional string, where an absent one counts as empty.
fn str_or_empty(s: &Option<String>) -> (res: &str)
    ensures
        res@ == text_or_empty(*s),
{
    match s {
        Some(s) => s.as_str(),
        None => {
            proof {
                reveal_strlit("");
                assert(""@ =~= Seq::<char>::empty());
            }
            ""
        },
    }
}

/// The key of a result that is official or not and speaks of the given
/// versions.
pub fn rank_key_with(
    row: &SearxngResult,
    intent: &QueryIntent<'_>,
    official: bool,
    versions: &[Version],
) -> (res: RankKey)
    ensures
        res@ == key_with(*row, intent@, official, all_components(versions@)),
{
    let title = normalize(str_or_empty(&row.title));
    let url = normalize(str_or_empty(&row.url));
    let content = normalize(str_or_empty(&row.content));
    let version = match &intent.version {
        Some(requested) => classify_versions(requested, versions),
        None => VersionTier::Neutral,
    };
    let freshness = match &row.published_date {
        Some(date) => parse_date(Some(date.as_str())),
        None => parse_date(None),
    };
    let upstream = match row.score {
        Some(score) => score,
        None => Score::zero(),
    };
    RankKey {
        version,
        authority: official,
        lexical: lexical_score(
            intent.terms.as_slice(),
            title.as_str(),
            url.as_str(),
            content.as_str(),
        ),
        freshness,
        upstream,
    }
}

/// The key of a result.
pub fn rank_key(row: &SearxngResult, intent: &QueryIntent<'_>) -> (res: RankKey)
    ensures
        res@ == key_of(*row, intent@),
{
    let title = normalize(str_or_empty(&row.title));
    let url = normalize(str_or_empty(&row.url));
    let content = normalize(str_or_empty(&row.content));
    let official = match intent.authority {
        Some(entry) => is_official(str_or_empty(&row.url), entry),
        None => false,
    };
    let versions = candidate_versions(
        title.as_str(),
        url.as_str(),
        content.as_str(),
        intent,
        official,
    );
    rank_key_with(row, intent, official, versions.as_slice())
}

/// The order in which the results of a query are shown, as indices.
pub fn rerank_order(rows: &[SearxngResult], query: &str) -> (res: Vec<usize>)
    ensures
        ranks(keys_of(rows@, query@), indices(res@)),
{
    let intent = QueryIntent::parse(query);
    let mut keys: Vec<RankKey> = Vec::new();
    let mut i: usize = 0;
    while i < rows.len()
        invariant
            i <= rows@.len(),
            intent@ == intent_of(query@),
            keys@.len() == i,
            forall|j: int| 0 <= j < i ==> (#[trigger] keys@[j])@ == key_of(rows@[j], intent@),
        decreases rows@.len() - i,
    {
        keys.push(rank_key(&rows[i], &intent));
        i = i + 1;
    }
    assert(key_views(keys@) =~= keys_of(rows@, query@));
    rank_order(keys.as_slice())
}

/// The results of a query in the order in which they are shown.
///
/// Results that speak of the requested version come first and those that speak
/// of another one last.  Within each of these groups those of the project
/// itself come first, then those that hold more of the search terms, then the
/// newer ones, then those that upstream rates higher.  Results that are equal
/// in all of this stay as they came.
pub fn rerank_technical<'a>(rows: &'a [SearxngResult], query: &str) -> (res: Vec<
    &'a SearxngResult,
>)
    ensures
        res@.len() == rows@.len(),
        exists|order: Seq<int>| #[trigger]
            ranks(keys_of(rows@, query@), order) && referents(res@) == rows_in(rows@, order),
{
    let ranking = rerank_order(rows, query);
    let ghost order = indices(ranking@);
    let mut res: Vec<&'a SearxngResult> = Vec::new();
    let mut i: usize = 0;
    while i < ranking.len()
        invariant
            i <= ranking@.len(),
            order == indices(ranking@),
            ranks(keys_of(rows@, query@), order),
            res@.len() == i,
            forall|j: int| 0 <= j < i ==> *(#[trigger] res@[j]) == rows@[order[j]],
        decreases ranking@.len() - i,
    {
        proof {
            assert(order[i as int] == ranking@[i as int]);
            assert(order.contains(order[i as int]));
        }
        res.push(&rows[ranking[i]]);
        i = i + 1;
    }
    assert(referents(res@) =~= rows_in(rows@, order));
    res
}

}
