//! Laws of the keys that results get and of which of two results is shown
//! first.

use core::cmp::Ordering;

use vstd::prelude::*;

use crate::authority::official_url;
use crate::client::SearxngResult;
use crate::evidence::{date_of, text_versions};
use crate::intent::{intent_of, IntentView};
use crate::laws::order::{law_terms_come_third, law_version_dominates};
use crate::laws::sources::{held, in_path, law_candidates, law_lexical};
use crate::laws::tokens::law_tokens_ignore_case;
use crate::laws::versions::{law_tier, refines};
use crate::ranking::{merit_order, ranks};
use crate::technical::{key_of, key_with, keys_of, official_row, row_versions, rows_in};
use crate::text::{lowered, text_or_empty, tokens_of};
use crate::version::{tier_of, VersionTier};
use crate::weburl::url_parts_of;

verus! {

/// The tokens of a field of a result; an absent field has none.
pub open spec fn field_tokens(field: Option<String>) -> Seq<Seq<char>> {
    match field {
        Some(text) => tokens_of(text@),
        None => tokens_of(Seq::empty()),
    }
}

/// What terms are worth in a result: four for each that its title holds, two
/// for each that its own address holds, and one for each that its excerpt
/// holds.
pub open spec fn worth(terms: Seq<Seq<char>>, row: SearxngResult) -> nat {
    4 * held(terms, field_tokens(row.title)) + 2 * held(terms, field_tokens(row.url)) + held(
        terms,
        field_tokens(row.content),
    )
}

/// The key of a result counts each term of the query in the title, in the
/// address and in the excerpt of that result.
pub proof fn law_key_counts_terms(
    row: SearxngResult,
    intent: IntentView,
    official: bool,
    versions: Seq<Seq<u32>>,
)
    ensures
        key_with(row, intent, official, versions).lexical == worth(intent.terms, row),
        key_of(row, intent).lexical == worth(intent.terms, row),
{
    let title = text_or_empty(row.title);
    let url = text_or_empty(row.url);
    let content = text_or_empty(row.content);
    law_tokens_ignore_case(title, title);
    law_tokens_ignore_case(url, url);
    law_tokens_ignore_case(content, content);
    law_lexical(intent.terms, lowered(title), lowered(url), lowered(content));
}

/// Whether two results are alike in all that is ranked but their addresses.
pub open spec fn alike_but_address(a: SearxngResult, b: SearxngResult) -> bool {
    &&& a.title == b.title
    &&& a.content == b.content
    &&& a.published_date == b.published_date
    &&& a.score == b.score
}

/// Whether the tokens of one place hold all the terms that those of another do,
/// and a further one.
pub open spec fn holds_more(
    terms: Seq<Seq<char>>,
    more: Seq<Seq<char>>,
    less: Seq<Seq<char>>,
) -> bool {
    &&& forall|t: Seq<char>|
        terms.contains(t) && less.contains(t) ==> #[trigger] more.contains(t)
    &&& exists|k: int|
        0 <= k < terms.len() && more.contains(#[trigger] terms[k]) && !less.contains(terms[k])
}

/// A place that holds all the terms that another does holds no fewer.
proof fn lemma_held_grows(terms: Seq<Seq<char>>, more: Seq<Seq<char>>, less: Seq<Seq<char>>)
    requires
        forall|t: Seq<char>|
            terms.contains(t) && less.contains(t) ==> #[trigger] more.contains(t),
    ensures
        held(terms, less) <= held(terms, more),
        holds_more(terms, more, less) ==> held(terms, less) < held(terms, more),
    decreases terms.len(),
{
    reveal(Seq::filter);
    if terms.len() > 0 {
        let rest = terms.drop_last();
        let last = terms.last();
        assert(terms[terms.len() - 1] == last);
        assert(terms.contains(last));
        assert forall|t: Seq<char>| rest.contains(t) && less.contains(t) implies #[trigger]
            more.contains(t) by {
            let k = choose|k: int| 0 <= k < rest.len() && rest[k] == t;
            assert(terms[k] == t);
            assert(terms.contains(t));
        }
        lemma_held_grows(rest, more, less);
        if holds_more(terms, more, less) {
            let k = choose|k: int|
                0 <= k < terms.len() && more.contains(#[trigger] terms[k]) && !less.contains(
                    terms[k],
                );
            if k < rest.len() {
                assert(rest[k] == terms[k]);
                assert(holds_more(rest, more, less));
            }
        }
    }
}

/// Of two results that are alike in all but their addresses, and equal in
/// authority and versions, the one whose address holds all the terms that the
/// other's does and a further one has the strictly greater key.
pub proof fn law_address_holds_more_terms(
    a: SearxngResult,
    b: SearxngResult,
    intent: IntentView,
    official: bool,
    versions: Seq<Seq<u32>>,
)
    requires
        alike_but_address(a, b),
        holds_more(intent.terms, field_tokens(a.url), field_tokens(b.url)),
    ensures
        key_with(a, intent, official, versions).lexical >= key_with(
            b,
            intent,
            official,
            versions,
        ).lexical + 2,
        merit_order(
            key_with(a, intent, official, versions),
            key_with(b, intent, official, versions),
        ) == Ordering::Greater,
        key_of(a, intent).lexical >= key_of(b, intent).lexical + 2,
{
    law_key_counts_terms(a, intent, official, versions);
    law_key_counts_terms(b, intent, official, versions);
    lemma_held_grows(intent.terms, field_tokens(a.url), field_tokens(b.url));
}

/// Of two results that are alike in all but their addresses, both from the
/// project of the query or both not, and of the same version tier, the one
/// whose address holds all the terms that the other's does and a further one is
/// shown first.
pub proof fn law_better_address_is_shown_first(
    rows: Seq<SearxngResult>,
    query: Seq<char>,
    order: Seq<int>,
    p: int,
    q: int,
)
    requires
        ranks(keys_of(rows, query), order),
        0 <= p < rows.len(),
        0 <= q < rows.len(),
        alike_but_address(rows_in(rows, order)[p], rows_in(rows, order)[q]),
        holds_more(
            intent_of(query).terms,
            field_tokens(rows_in(rows, order)[p].url),
            field_tokens(rows_in(rows, order)[q].url),
        ),
        key_of(rows_in(rows, order)[p], intent_of(query)).authority == key_of(
            rows_in(rows, order)[q],
            intent_of(query),
        ).authority,
        key_of(rows_in(rows, order)[p], intent_of(query)).version == key_of(
            rows_in(rows, order)[q],
            intent_of(query),
        ).version,
    ensures
        p < q,
{
    let keys = keys_of(rows, query);
    let intent = intent_of(query);
    assert(order.contains(order[p]));
    assert(order.contains(order[q]));
    law_address_holds_more_terms(rows[order[p]], rows[order[q]], intent, true, Seq::empty());
    law_terms_come_third(keys, order, p, q);
}

/// Of two results that are alike in all but their addresses, none of them from
/// the project of the query, the one whose address holds all the terms that the
/// other's does and a further one is shown first.
pub proof fn law_better_address_wins_among_others(
    rows: Seq<SearxngResult>,
    query: Seq<char>,
    order: Seq<int>,
    p: int,
    q: int,
)
    requires
        ranks(keys_of(rows, query), order),
        0 <= p < rows.len(),
        0 <= q < rows.len(),
        !official_row(rows_in(rows, order)[p], intent_of(query)),
        !official_row(rows_in(rows, order)[q], intent_of(query)),
        alike_but_address(rows_in(rows, order)[p], rows_in(rows, order)[q]),
        holds_more(
            intent_of(query).terms,
            field_tokens(rows_in(rows, order)[p].url),
            field_tokens(rows_in(rows, order)[q].url),
        ),
    ensures
        p < q,
{
    law_better_address_is_shown_first(rows, query, order, p, q);
}

/// For a query that names no known project, of two results that are alike in
/// all but their addresses the one whose address holds all the terms that the
/// other's does and a further one is shown first.
pub proof fn law_better_address_wins_for_unknown_projects(
    rows: Seq<SearxngResult>,
    query: Seq<char>,
    order: Seq<int>,
    p: int,
    q: int,
)
    requires
        ranks(keys_of(rows, query), order),
        intent_of(query).authority is None,
        0 <= p < rows.len(),
        0 <= q < rows.len(),
        alike_but_address(rows_in(rows, order)[p], rows_in(rows, order)[q]),
        holds_more(
            intent_of(query).terms,
            field_tokens(rows_in(rows, order)[p].url),
            field_tokens(rows_in(rows, order)[q].url),
        ),
    ensures
        p < q,
{
    law_better_address_wins_among_others(rows, query, order, p, q);
}

/// The tier of a result comes from the versions that it speaks of, and only
/// where the query asks for one.
pub proof fn law_key_version(
    row: SearxngResult,
    intent: IntentView,
    official: bool,
    versions: Seq<Seq<u32>>,
)
    ensures
        intent.version is None ==> key_with(row, intent, official, versions).version
            == VersionTier::Neutral && key_of(row, intent).version == VersionTier::Neutral,
        intent.version is Some ==> key_with(row, intent, official, versions).version == tier_of(
            intent.version->0,
            versions,
        ) && key_of(row, intent).version == tier_of(
            intent.version->0,
            row_versions(row, intent),
        ),
{
}

/// The rest of a key: whether the result is official, the date that it was
/// published, and its score, which is zero where it has none.
pub proof fn law_key_fields(
    row: SearxngResult,
    intent: IntentView,
    official: bool,
    versions: Seq<Seq<u32>>,
)
    ensures
        key_with(row, intent, official, versions).authority == official,
        key_of(row, intent).authority == official_row(row, intent),
        row.published_date is None ==> key_with(row, intent, official, versions).freshness == 0
            && key_of(row, intent).freshness == 0,
        row.published_date is Some ==> key_with(row, intent, official, versions).freshness
            == date_of(Some(row.published_date->0@)) && key_of(row, intent).freshness == date_of(
            Some(row.published_date->0@),
        ),
        row.score is None ==> key_with(row, intent, official, versions).upstream.bits == 0 && key_of(
            row,
            intent,
        ).upstream.bits == 0,
        row.score is Some ==> key_with(row, intent, official, versions).upstream == row.score->0
            && key_of(row, intent).upstream == row.score->0,
{
}

/// A result is official exactly if the query names a known project and the
/// address of the result, as it is written, belongs to it.
pub proof fn law_official_row(row: SearxngResult, intent: IntentView)
    ensures
        intent.authority is None ==> !official_row(row, intent),
        intent.authority is Some && row.url is Some ==> official_row(row, intent) == official_url(
            row.url->0@,
            intent.authority->0,
        ),
        intent.authority is Some && row.url is None ==> official_row(row, intent) == official_url(
            Seq::empty(),
            intent.authority->0,
        ),
{
}

/// Whether the address of a result, in lower case, has a version in its path.
pub open spec fn address_writes(row: SearxngResult, version: Seq<u32>) -> bool {
    url_parts_of(lowered(text_or_empty(row.url))) matches Some(parts) && in_path(parts, version)
}

/// A result speaks of exactly the versions that its title or its excerpt speaks
/// of, whatever the case of their letters, and, if it is official, of those in
/// the path of its address.
pub proof fn law_row_versions(row: SearxngResult, intent: IntentView)
    ensures
        forall|v: Seq<u32>| #[trigger]
            row_versions(row, intent).contains(v) <==> text_versions(
                text_or_empty(row.title),
                intent.entity,
                official_row(row, intent),
            ).contains(v) || text_versions(
                text_or_empty(row.content),
                intent.entity,
                official_row(row, intent),
            ).contains(v) || (official_row(row, intent) && address_writes(row, v)),
{
    let title = text_or_empty(row.title);
    let content = text_or_empty(row.content);
    law_tokens_ignore_case(title, title);
    law_tokens_ignore_case(content, content);
    law_candidates(
        lowered(title),
        lowered(text_or_empty(row.url)),
        lowered(content),
        intent,
        official_row(row, intent),
    );
}

/// The keys of some results are the keys of each of them for the query.
pub proof fn law_keys_of_rows(rows: Seq<SearxngResult>, query: Seq<char>)
    ensures
        keys_of(rows, query).len() == rows.len(),
        forall|i: int|
            0 <= i < rows.len() ==> #[trigger] keys_of(rows, query)[i] == key_of(
                rows[i],
                intent_of(query),
            ),
{
}

/// A result that speaks of the requested version is shown before every result
/// that does not, whatever else holds of them.
pub proof fn law_requested_version_is_shown_first(
    rows: Seq<SearxngResult>,
    query: Seq<char>,
    order: Seq<int>,
    p: int,
    q: int,
    version: Seq<u32>,
)
    requires
        ranks(keys_of(rows, query), order),
        0 <= p < rows.len(),
        0 <= q < rows.len(),
        intent_of(query).version is Some,
        row_versions(rows_in(rows, order)[p], intent_of(query)).contains(version),
        refines(version, intent_of(query).version->0),
        forall|v: Seq<u32>| #[trigger]
            row_versions(rows_in(rows, order)[q], intent_of(query)).contains(v) ==> !refines(
                v,
                intent_of(query).version->0,
            ),
    ensures
        p < q,
{
    let keys = keys_of(rows, query);
    let intent = intent_of(query);
    let requested = intent.version->0;
    assert(order.contains(order[p]));
    assert(order.contains(order[q]));
    let here = row_versions(rows[order[p]], intent);
    let there = row_versions(rows[order[q]], intent);
    assert(rows_in(rows, order)[p] == rows[order[p]]);
    assert(rows_in(rows, order)[q] == rows[order[q]]);
    let k = choose|k: int| 0 <= k < here.len() && here[k] == version;
    assert(refines(here[k], requested));
    law_tier(requested, here);
    law_tier(requested, there);
    assert forall|i: int| 0 <= i < there.len() implies !refines(#[trigger] there[i], requested) by {
        assert(there.contains(there[i]));
    }
    assert(keys[order[p]].version == VersionTier::Match);
    assert(keys[order[q]].version != VersionTier::Match);
    law_version_dominates(keys, order, p, q);
}

}
