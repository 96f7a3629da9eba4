//! Laws of what results say.

use vstd::prelude::*;
use vstd::utf8::{
    encode_utf8, encode_utf8_first_scalar, encode_utf8_valid_utf8, is_ascii_chars,
    is_ascii_chars_encode_utf8, is_char_boundary, length_of_first_scalar, pop_first_scalar,
};

use crate::authority::{in_domain, official_of, without_www, AuthorityView};
use crate::client::SearxngResult;
use crate::evidence::{
    date_of, digits_value, lemma_date_digits, path_versions_of, segment_versions,
    starts_with_date, term_weight, text_versions, total_weight, versions_with,
};
use crate::intent::IntentView;
use crate::technical::{key_of, key_with, official_row, row_versions};
use crate::text::{
    all_phrase_starts, is_digit, lemma_phrase_starts, lowered, phrase_at, text_or_empty, tokens_of,
};
use crate::version::{decimal, explicit_of, VersionTier};
use crate::weburl::UrlPartsView;

verus! {

/// Whether a phrase occurs among the tokens of a text.
pub open spec fn mentions(text: Seq<char>, phrase: Seq<Seq<char>>) -> bool {
    exists|at: int| phrase_at(tokens_of(text), phrase, at)
}

/// A page that is not official and does not name the entity speaks of no
/// version, whatever numbers it holds.
pub proof fn law_versions_are_bound_to_the_entity(text: Seq<char>, entity: Seq<Seq<char>>)
    requires
        !mentions(text, entity),
    ensures
        text_versions(text, entity, false).len() == 0,
{
    let tokens = tokens_of(text);
    let starts = all_phrase_starts(tokens, entity);
    lemma_phrase_starts(tokens, entity, tokens.len());
    if starts.len() > 0 {
        assert(starts.contains(starts[0]));
        assert(phrase_at(tokens, entity, starts[0]));
    }
}

/// A result that is not official, and names the entity of the query neither in
/// its title nor in its excerpt, is neutral, whatever versions it speaks of.
pub proof fn law_unrelated_version_is_neutral(row: SearxngResult, intent: IntentView)
    requires
        !official_row(row, intent),
        !mentions(lowered(text_or_empty(row.title)), intent.entity),
        !mentions(lowered(text_or_empty(row.content)), intent.entity),
    ensures
        key_of(row, intent).version == VersionTier::Neutral,
{
    law_versions_are_bound_to_the_entity(lowered(text_or_empty(row.title)), intent.entity);
    law_versions_are_bound_to_the_entity(lowered(text_or_empty(row.content)), intent.entity);
    assert(row_versions(row, intent).len() == 0);
}

/// Where a query asks for no version, every result is neutral.
pub proof fn law_no_request_is_neutral(
    row: SearxngResult,
    intent: IntentView,
    official: bool,
    versions: Seq<Seq<u32>>,
)
    requires
        intent.version is None,
    ensures
        key_with(row, intent, official, versions).version == VersionTier::Neutral,
{
}

/// Where a query names no known project, no result is official.
pub proof fn law_unknown_project_has_no_official_results(row: SearxngResult, intent: IntentView)
    requires
        intent.authority is None,
    ensures
        !key_of(row, intent).authority,
{
}

/// The address of a result counts as a place of versions only for official
/// results.
pub proof fn law_path_of_others_is_ignored(
    title: Seq<char>,
    content: Seq<char>,
    one: Option<UrlPartsView>,
    other: Option<UrlPartsView>,
    entity: Seq<Seq<char>>,
)
    ensures
        versions_with(title, content, one, entity, false) == versions_with(
            title,
            content,
            other,
            entity,
            false,
        ),
{
}

/// Whether a path segment has no mark of a version: no `v` before a version, no
/// dot, and no segment before it that announces one.
pub open spec fn unmarked(segments: Seq<Seq<char>>, i: int) -> bool {
    &&& explicit_of(segments[i]) is None
    &&& !segments[i].contains('.')
    &&& i > 0 ==> segments[i - 1] != "version"@ && segments[i - 1] != "versions"@
}

/// Segments without a mark write no version, even where they are numbers.
proof fn lemma_unmarked_segments(segments: Seq<Seq<char>>, bound: nat)
    requires
        bound <= segments.len(),
        forall|i: int| 0 <= i < segments.len() ==> #[trigger] unmarked(segments, i),
    ensures
        segment_versions(segments, bound).len() == 0,
    decreases bound,
{
    if bound > 0 {
        lemma_unmarked_segments(segments, (bound - 1) as nat);
        assert(unmarked(segments, bound - 1));
    }
}

/// A number in a path is not taken for a version unless something marks it as
/// one.
pub proof fn law_plain_path_number_is_no_version(parts: UrlPartsView)
    requires
        forall|i: int|
            0 <= i < parts.segments_or_empty().len() ==> #[trigger] unmarked(
                parts.segments_or_empty(),
                i,
            ),
    ensures
        path_versions_of(parts).len() == 0,
{
    lemma_unmarked_segments(parts.segments_or_empty(), parts.segments_or_empty().len());
}

/// A page on a host outside the domains of a project is official only as one of
/// its repositories on GitHub.
pub proof fn law_other_hosts_are_not_official(parts: UrlPartsView, entry: AuthorityView)
    requires
        forall|i: int|
            0 <= i < entry.domains.len() ==> !in_domain(
                lowered(without_www(parts.host_or_empty())),
                #[trigger] entry.domains[i],
            ),
        lowered(without_www(parts.host_or_empty())) != "github.com"@ || parts.segments_or_empty().len()
            < 2 || !entry.github_repos.contains(
            (lowered(parts.segments_or_empty()[0]), lowered(parts.segments_or_empty()[1])),
        ),
    ensures
        !official_of(parts, entry),
{
}

/// Every host below a domain lies in it, and a host that only ends with the
/// letters of the domain does not.
pub proof fn law_subdomains(label: Seq<char>, domain: Seq<char>)
    ensures
        in_domain(label + seq!['.'] + domain, domain),
        label.len() > 0 && label.last() != '.' ==> !in_domain(label + domain, domain),
{
    let host = label + seq!['.'] + domain;
    let suffix = seq!['.'] + domain;
    assert(host.subrange(host.len() - suffix.len(), host.len() as int) =~= suffix);
    if label.len() > 0 && label.last() != '.' {
        let lookalike = label + domain;
        assert(lookalike.subrange(
            lookalike.len() - suffix.len(),
            lookalike.len() as int,
        )[0] == label.last());
        assert(suffix[0] == '.');
    }
}

/// A term is worth at most seven, and so each term adds at most seven.
pub proof fn law_lexical_score_is_bounded(
    terms: Seq<Seq<char>>,
    title: Seq<Seq<char>>,
    url: Seq<Seq<char>>,
    content: Seq<Seq<char>>,
)
    ensures
        total_weight(terms, title, url, content) <= 7 * terms.len(),
    decreases terms.len(),
{
    if terms.len() > 0 {
        law_lexical_score_is_bounded(terms.drop_last(), title, url, content);
    }
}

/// Taking one term out takes away what it is worth.
proof fn lemma_weight_without(
    terms: Seq<Seq<char>>,
    k: int,
    title: Seq<Seq<char>>,
    url: Seq<Seq<char>>,
    content: Seq<Seq<char>>,
)
    requires
        0 <= k < terms.len(),
    ensures
        total_weight(terms, title, url, content) == total_weight(
            terms.remove(k),
            title,
            url,
            content,
        ) + term_weight(terms[k], title, url, content),
    decreases terms.len(),
{
    if k == terms.len() - 1 {
        assert(terms.remove(k) =~= terms.drop_last());
    } else {
        lemma_weight_without(terms.drop_last(), k, title, url, content);
        assert(terms.remove(k).drop_last() =~= terms.drop_last().remove(k));
        assert(terms.remove(k).last() == terms.last());
    }
}

/// What terms are worth together does not depend on their order.
pub proof fn law_order_of_terms_is_irrelevant(
    one: Seq<Seq<char>>,
    other: Seq<Seq<char>>,
    title: Seq<Seq<char>>,
    url: Seq<Seq<char>>,
    content: Seq<Seq<char>>,
)
    requires
        one.no_duplicates(),
        other.no_duplicates(),
        forall|t: Seq<char>| #[trigger] one.contains(t) <==> other.contains(t),
    ensures
        total_weight(one, title, url, content) == total_weight(other, title, url, content),
    decreases one.len(),
{
    if one.len() == 0 {
        if other.len() > 0 {
            assert(other.contains(other[0]));
            assert(one.contains(other[0]));
        }
    } else {
        let t = one.last();
        assert(one[one.len() - 1] == t);
        assert(one.contains(t));
        assert(other.contains(t));
        let k = choose|k: int| 0 <= k < other.len() && other[k] == t;
        let fewer = one.drop_last();
        let less = other.remove(k);
        assert forall|u: Seq<char>| #[trigger] fewer.contains(u) <==> less.contains(u) by {
            if fewer.contains(u) {
                let m = choose|m: int| 0 <= m < fewer.len() && fewer[m] == u;
                assert(one[m] == u);
                assert(one.contains(u));
                assert(other.contains(u));
                let n = choose|n: int| 0 <= n < other.len() && other[n] == u;
                if n < k {
                    assert(less[n] == u);
                } else {
                    assert(n != k);
                    assert(less[n - 1] == u);
                }
            }
            if less.contains(u) {
                let n = choose|n: int| 0 <= n < less.len() && less[n] == u;
                let was = if n < k {
                    n
                } else {
                    n + 1
                };
                assert(other[was] == u);
                assert(other.contains(u));
                assert(one.contains(u));
                let m = choose|m: int| 0 <= m < one.len() && one[m] == u;
                assert(m != one.len() - 1);
                assert(fewer[m] == u);
            }
        }
        law_order_of_terms_is_irrelevant(fewer, less, title, url, content);
        lemma_weight_without(other, k, title, url, content);
    }
}

/// The number of a date has at most eight digits, and what is no date is zero.
pub proof fn law_date_is_bounded(value: Option<Seq<char>>)
    ensures
        date_of(value) < 100_000_000,
        value is None ==> date_of(value) == 0,
        value is Some && !starts_with_date(value->0) ==> date_of(value) == 0,
{
    if value is Some && starts_with_date(value->0) {
        lemma_date_digits(encode_utf8(value->0), 10);
    }
}

/// Encoding goes character by character.
proof fn lemma_encode_concat(a: Seq<char>, b: Seq<char>)
    ensures
        encode_utf8(a + b) == encode_utf8(a) + encode_utf8(b),
    decreases a.len(),
{
    if a.len() == 0 {
        assert(a + b =~= b);
        assert(encode_utf8(a) + encode_utf8(b) =~= encode_utf8(b));
    } else {
        lemma_encode_concat(a.drop_first(), b);
        assert((a + b).drop_first() =~= a.drop_first() + b);
        assert((a + b)[0] == a[0]);
        assert(encode_utf8(a + b) =~= encode_utf8(a) + encode_utf8(b));
    }
}

/// The end of an encoded text is a character boundary of a longer one.
proof fn lemma_boundary_between(a: Seq<char>, b: Seq<char>)
    ensures
        is_char_boundary(encode_utf8(a + b), encode_utf8(a).len() as int),
    decreases a.len(),
{
    encode_utf8_valid_utf8(a + b);
    if a.len() > 0 {
        let bytes = encode_utf8(a + b);
        lemma_encode_concat(a, b);
        lemma_boundary_between(a.drop_first(), b);
        assert((a + b)[0] == a[0]);
        encode_utf8_first_scalar(a + b);
        assert((a + b).drop_first() =~= a.drop_first() + b);
        assert(pop_first_scalar(bytes) =~= encode_utf8(a.drop_first() + b));
        assert(encode_utf8(a).len() == length_of_first_scalar(bytes) + encode_utf8(
            a.drop_first(),
        ).len());
    }
}

/// Whether a text is a date as ISO 8601 writes it: four digits, two and two,
/// with hyphens between them.
pub open spec fn is_iso_date(date: Seq<char>) -> bool {
    &&& date.len() == 10
    &&& date[4] == '-'
    &&& date[7] == '-'
    &&& is_digit(date[0]) && is_digit(date[1]) && is_digit(date[2]) && is_digit(date[3])
    &&& is_digit(date[5]) && is_digit(date[6])
    &&& is_digit(date[8]) && is_digit(date[9])
}

/// The year, the month and the day of a date in ISO 8601 form make its number,
/// and a time after the date changes nothing.
pub proof fn law_iso_date(date: Seq<char>, time: Seq<char>)
    requires
        is_iso_date(date),
    ensures
        date_of(Some(date + time)) == decimal(date.subrange(0, 4)) * 10_000 + decimal(
            date.subrange(5, 7),
        ) * 100 + decimal(date.subrange(8, 10)),
{
    let bytes = encode_utf8(date + time);
    assert(is_ascii_chars(date));
    is_ascii_chars_encode_utf8(date);
    lemma_encode_concat(date, time);
    lemma_boundary_between(date, time);
    let d = encode_utf8(date);
    assert(bytes.take(10) =~= d);
    assert(d[4] == '-' as u8 && d[7] == '-' as u8) by {
        assert(date[4] == '-' && date[7] == '-');
    }
    assert(starts_with_date(date + time)) by {
        assert(bytes[4] == d[4] && bytes[7] == d[7]);
    }
    lemma_date_number(date, d);
}

/// The digits of a date in ISO 8601 form, read in a row.
proof fn lemma_date_number(date: Seq<char>, d: Seq<u8>)
    requires
        is_iso_date(date),
        d.len() == 10,
        forall|i: int| 0 <= i < 10 ==> #[trigger] d[i] == date[i] as u8,
    ensures
        digits_value(d) == decimal(date.subrange(0, 4)) * 10_000 + decimal(date.subrange(5, 7))
            * 100 + decimal(date.subrange(8, 10)),
{
    assert forall|n: int| 0 < n <= 10 implies #[trigger] digits_value(d.take(n)) == (
    if is_digit(date[n - 1]) {
        digits_value(d.take(n - 1)) * 10 + (date[n - 1] as u32 - '0' as u32) as nat
    } else {
        digits_value(d.take(n - 1))
    }) by {
        assert(d.take(n).drop_last() =~= d.take(n - 1));
        assert(d.take(n).last() == d[n - 1]);
        assert(d[n - 1] == date[n - 1] as u8);
        if n == 5 || n == 8 {
            assert(date[n - 1] == '-');
        } else {
            assert(is_digit(date[n - 1]));
        }
    }
    assert(d.take(0) =~= Seq::empty());
    assert(d.take(10) =~= d);
    assert(digits_value(d.take(1)) == digits_value(d.take(0)) * 10 + (date[0] as u32 - '0' as u32));
    assert(digits_value(d.take(2)) == digits_value(d.take(1)) * 10 + (date[1] as u32 - '0' as u32));
    assert(digits_value(d.take(3)) == digits_value(d.take(2)) * 10 + (date[2] as u32 - '0' as u32));
    assert(digits_value(d.take(4)) == digits_value(d.take(3)) * 10 + (date[3] as u32 - '0' as u32));
    assert(digits_value(d.take(5)) == digits_value(d.take(4)));
    assert(digits_value(d.take(6)) == digits_value(d.take(5)) * 10 + (date[5] as u32 - '0' as u32));
    assert(digits_value(d.take(7)) == digits_value(d.take(6)) * 10 + (date[6] as u32 - '0' as u32));
    assert(digits_value(d.take(8)) == digits_value(d.take(7)));
    assert(digits_value(d.take(9)) == digits_value(d.take(8)) * 10 + (date[8] as u32 - '0' as u32));
    assert(digits_value(d.take(10)) == digits_value(d.take(9)) * 10 + (date[9] as u32
        - '0' as u32));
    lemma_decimal_pair(date, 5);
    lemma_decimal_pair(date, 8);
    let year = date.subrange(0, 4);
    lemma_decimal_pair(date, 0);
    assert(year.drop_last() =~= date.subrange(0, 3));
    assert(date.subrange(0, 3).drop_last() =~= date.subrange(0, 2));
    assert(decimal(date.subrange(0, 3)) == decimal(date.subrange(0, 2)) * 10 + (date[2] as u32
        - '0' as u32));
    assert(decimal(year) == decimal(date.subrange(0, 3)) * 10 + (date[3] as u32 - '0' as u32));
}

/// The number that two digits write.
proof fn lemma_decimal_pair(date: Seq<char>, at: int)
    requires
        0 <= at,
        at + 2 <= date.len(),
        is_digit(date[at]),
        is_digit(date[at + 1]),
    ensures
        decimal(date.subrange(at, at + 2)) == (date[at] as u32 - '0' as u32) * 10 + (date[at
            + 1] as u32 - '0' as u32),
        decimal(date.subrange(at, at + 2)) < 100,
{
    let pair = date.subrange(at, at + 2);
    let first = date.subrange(at, at + 1);
    assert(pair.drop_last() =~= first);
    assert(first.drop_last() =~= Seq::empty());
    assert(decimal(first.drop_last()) == 0);
    assert(first.last() == date[at]);
    assert(decimal(first) == date[at] as u32 - '0' as u32);
    assert(decimal(pair) == decimal(first) * 10 + (date[at + 1] as u32 - '0' as u32));
}

/// A later date is a greater number, with or without a time after it.
pub proof fn law_later_date_is_greater(
    later: Seq<char>,
    earlier: Seq<char>,
    one_time: Seq<char>,
    other_time: Seq<char>,
)
    requires
        is_iso_date(later),
        is_iso_date(earlier),
        ({
            let (y1, y2) = (decimal(later.subrange(0, 4)), decimal(earlier.subrange(0, 4)));
            let (m1, m2) = (decimal(later.subrange(5, 7)), decimal(earlier.subrange(5, 7)));
            let (d1, d2) = (decimal(later.subrange(8, 10)), decimal(earlier.subrange(8, 10)));
            y1 > y2 || (y1 == y2 && (m1 > m2 || (m1 == m2 && d1 > d2)))
        }),
    ensures
        date_of(Some(later + one_time)) > date_of(Some(earlier + other_time)),
{
    law_iso_date(later, one_time);
    law_iso_date(earlier, other_time);
    lemma_decimal_pair(later, 5);
    lemma_decimal_pair(later, 8);
    lemma_decimal_pair(earlier, 5);
    lemma_decimal_pair(earlier, 8);
}

}
