//! Laws of where the versions, the weight and the date of a result come from.

use vstd::prelude::*;
use vstd::utf8::{encode_utf8, is_char_boundary};

use crate::evidence::{
    candidates_of, date_of, digits_value, is_digit_byte, lexical_of, path_versions_of,
    segment_version, segment_versions, starts_with_date, term_weight, text_versions, total_weight,
    versions_around, versions_around_all, versions_between, versions_with,
};
use crate::intent::IntentView;
use crate::laws::runs::{law_all_phrase_starts, occurs_at};
use crate::laws::versions::{announcement, law_marked_versions};
use crate::text::{all_phrase_starts, tokens_of};
use crate::version::{bare_of, decimal, explicit_of, marked_of, marked_versions, version_at_of};
use crate::weburl::{url_parts_of, UrlPartsView};

verus! {

/// The versions of a range are those at each index of it in turn.
pub proof fn law_versions_between(tokens: Seq<Seq<char>>, from: int, n: nat)
    ensures
        versions_between(tokens, from, from + n) == Seq::new(n, |k: int| from + k).filter_map(
            |i: int| version_at_of(tokens, i, true),
        ),
        forall|v: Seq<u32>| #[trigger]
            versions_between(tokens, from, from + n).contains(v) <==> exists|i: int|
                from <= i < from + n && #[trigger] version_at_of(tokens, i, true) == Some(v),
    decreases n,
{
    let all = Seq::new(n, |k: int| from + k);
    let f = |i: int| version_at_of(tokens, i, true);
    let after = versions_between(tokens, from, from + n);
    if n == 0 {
        assert(after =~= all.filter_map(f));
    } else {
        let less = (n - 1) as nat;
        law_versions_between(tokens, from, less);
        let before = versions_between(tokens, from, from + less);
        assert(all.drop_last() =~= Seq::new(less, |k: int| from + k));
        assert(all.last() == from + less);
        assert(f(all.last()) == version_at_of(tokens, from + n - 1, true));
        assert(after =~= all.filter_map(f));
        assert forall|v: Seq<u32>| #[trigger] after.contains(v) <==> exists|i: int|
            from <= i < from + n && #[trigger] version_at_of(tokens, i, true) == Some(v) by {
            if after.contains(v) {
                let k = choose|k: int| 0 <= k < after.len() && after[k] == v;
                if k < before.len() {
                    assert(before[k] == v);
                    assert(before.contains(v));
                } else {
                    assert(version_at_of(tokens, from + less, true) == Some(v));
                }
            }
            if exists|i: int|
                from <= i < from + n && #[trigger] version_at_of(tokens, i, true) == Some(v) {
                let i = choose|i: int|
                    from <= i < from + n && #[trigger] version_at_of(tokens, i, true) == Some(v);
                if i < from + less {
                    assert(before.contains(v));
                    let k = choose|k: int| 0 <= k < before.len() && before[k] == v;
                    assert(after[k] == v);
                } else {
                    assert(after[before.len() as int] == v);
                }
            }
        }
    }
}

/// Whether a version stands at one of the two indices before a phrase of
/// `length` tokens that starts at `at`, or at one of the three after it.
pub open spec fn stands_by(
    tokens: Seq<Seq<char>>,
    at: int,
    length: nat,
    i: int,
    version: Seq<u32>,
) -> bool {
    &&& at - 2 <= i < at || at + length <= i < at + length + 3
    &&& version_at_of(tokens, i, true) == Some(version)
}

/// No version stands before the first token.
proof fn lemma_nothing_before_the_first(tokens: Seq<Seq<char>>, at: int)
    requires
        0 <= at,
    ensures
        at < 2 ==> versions_between(tokens, 0, at) == versions_between(tokens, at - 2, at),
{
    reveal_with_fuel(versions_between, 4);
    assert(version_at_of(tokens, -1, true) is None);
    assert(version_at_of(tokens, -2, true) is None);
}

/// The versions around an occurrence are those that stand by it: first those
/// before it and then those after it.
pub proof fn law_versions_around(tokens: Seq<Seq<char>>, at: int, length: nat)
    requires
        0 <= at,
    ensures
        versions_around(tokens, at, length) == versions_between(tokens, at - 2, at)
            + versions_between(tokens, at + length, at + length + 3),
        forall|v: Seq<u32>| #[trigger]
            versions_around(tokens, at, length).contains(v) <==> exists|i: int| #[trigger]
                stands_by(tokens, at, length, i, v),
{
    let from = if at < 2 {
        0
    } else {
        at - 2
    };
    let left = versions_between(tokens, from, at);
    lemma_nothing_before_the_first(tokens, at);
    assert(left == versions_between(tokens, at - 2, at));
    let right = versions_between(tokens, at + length, at + length + 3);
    let all = versions_around(tokens, at, length);
    law_versions_between(tokens, at - 2, 2);
    law_versions_between(tokens, at + length, 3);
    assert forall|v: Seq<u32>| #[trigger] all.contains(v) <==> exists|i: int| #[trigger]
        stands_by(tokens, at, length, i, v) by {
        if all.contains(v) {
            let k = choose|k: int| 0 <= k < all.len() && all[k] == v;
            if k < left.len() {
                assert(left[k] == v);
                assert(versions_between(tokens, at - 2, at - 2 + 2).contains(v));
                let i = choose|i: int|
                    at - 2 <= i < at && #[trigger] version_at_of(tokens, i, true) == Some(v);
                assert(stands_by(tokens, at, length, i, v));
            } else {
                assert(right[k - left.len()] == v);
                assert(right.contains(v));
                let i = choose|i: int|
                    at + length <= i < at + length + 3 && #[trigger] version_at_of(tokens, i, true)
                        == Some(v);
                assert(stands_by(tokens, at, length, i, v));
            }
        }
        if exists|i: int| #[trigger] stands_by(tokens, at, length, i, v) {
            let i = choose|i: int| #[trigger] stands_by(tokens, at, length, i, v);
            if i < at {
                assert(versions_between(tokens, at - 2, at - 2 + 2).contains(v));
                let k = choose|k: int| 0 <= k < left.len() && left[k] == v;
                assert(all[k] == v);
            } else {
                assert(right.contains(v));
                let k = choose|k: int| 0 <= k < right.len() && right[k] == v;
                assert(all[left.len() + k] == v);
            }
        }
    }
}

/// The versions around some occurrences are those around each of them in turn.
pub proof fn law_versions_around_all(
    tokens: Seq<Seq<char>>,
    one: Seq<int>,
    other: Seq<int>,
    length: nat,
)
    ensures
        versions_around_all(tokens, one + other, length) == versions_around_all(tokens, one, length)
            + versions_around_all(tokens, other, length),
        other.len() == 1 ==> versions_around_all(tokens, other, length) == versions_around(
            tokens,
            other[0],
            length,
        ),
        other.len() == 0 ==> versions_around_all(tokens, other, length).len() == 0,
    decreases other.len(),
{
    if other.len() == 0 {
        assert(one + other =~= one);
        assert(versions_around_all(tokens, one, length) + versions_around_all(tokens, other, length)
            =~= versions_around_all(tokens, one, length));
    } else {
        let rest = other.drop_last();
        law_versions_around_all(tokens, one, rest, length);
        assert((one + other).drop_last() =~= one + rest);
        assert((one + other).last() == other.last());
        if other.len() == 1 {
            assert(rest =~= Seq::empty());
            assert(versions_around_all(tokens, rest, length) =~= Seq::<Seq<u32>>::empty());
            assert(versions_around_all(tokens, other, length) =~= versions_around(
                tokens,
                other[0],
                length,
            ));
        }
        assert(versions_around_all(tokens, one + other, length) =~= versions_around_all(
            tokens,
            one,
            length,
        ) + versions_around_all(tokens, other, length));
    }
}

/// What stands by one of some occurrences is among the versions around them.
proof fn lemma_around_all(tokens: Seq<Seq<char>>, starts: Seq<int>, length: nat)
    requires
        forall|k: int| 0 <= k < starts.len() ==> 0 <= #[trigger] starts[k],
    ensures
        forall|v: Seq<u32>| #[trigger]
            versions_around_all(tokens, starts, length).contains(v) <==> exists|k: int, i: int|
                0 <= k < starts.len() && #[trigger] stands_by(tokens, starts[k], length, i, v),
    decreases starts.len(),
{
    let all = versions_around_all(tokens, starts, length);
    if starts.len() > 0 {
        let rest = starts.drop_last();
        lemma_around_all(tokens, rest, length);
        let before = versions_around_all(tokens, rest, length);
        let last = versions_around(tokens, starts.last(), length);
        assert(starts[starts.len() - 1] >= 0);
        law_versions_around(tokens, starts.last(), length);
        assert forall|v: Seq<u32>| #[trigger] all.contains(v) <==> exists|k: int, i: int|
            0 <= k < starts.len() && #[trigger] stands_by(tokens, starts[k], length, i, v) by {
            if all.contains(v) {
                let n = choose|n: int| 0 <= n < all.len() && all[n] == v;
                if n < before.len() {
                    assert(before[n] == v);
                    assert(before.contains(v));
                    let (k, i) = choose|k: int, i: int|
                        0 <= k < rest.len() && #[trigger] stands_by(tokens, rest[k], length, i, v);
                    assert(stands_by(tokens, starts[k], length, i, v));
                } else {
                    assert(last[n - before.len()] == v);
                    assert(last.contains(v));
                    let i = choose|i: int| #[trigger]
                        stands_by(tokens, starts.last(), length, i, v);
                    assert(stands_by(tokens, starts[starts.len() - 1], length, i, v));
                }
            }
            if exists|k: int, i: int|
                0 <= k < starts.len() && #[trigger] stands_by(tokens, starts[k], length, i, v) {
                let (k, i) = choose|k: int, i: int|
                    0 <= k < starts.len() && #[trigger] stands_by(tokens, starts[k], length, i, v);
                if k < rest.len() {
                    assert(stands_by(tokens, rest[k], length, i, v));
                    assert(before.contains(v));
                    let n = choose|n: int| 0 <= n < before.len() && before[n] == v;
                    assert(all[n] == v);
                } else {
                    assert(last.contains(v));
                    let n = choose|n: int| 0 <= n < last.len() && last[n] == v;
                    assert(all[before.len() + n] == v);
                }
            }
        }
    }
}

/// Whether a version stands by an occurrence of a phrase, any one of them.
pub open spec fn stands_by_some(
    tokens: Seq<Seq<char>>,
    phrase: Seq<Seq<char>>,
    version: Seq<u32>,
) -> bool {
    exists|at: int, i: int|
        occurs_at(tokens, phrase, at) && #[trigger] stands_by(
            tokens,
            at,
            phrase.len(),
            i,
            version,
        )
}

/// Whether a version is marked as such somewhere.
pub open spec fn marked_somewhere(tokens: Seq<Seq<char>>, version: Seq<u32>) -> bool {
    exists|i: int| 0 <= i < tokens.len() && #[trigger] marked_of(tokens, i) == Some(version)
}

/// A text speaks of exactly the versions that stand by some occurrence of the
/// entity and, on an official page, of those that are marked anywhere.
pub proof fn law_text_versions(text: Seq<char>, entity: Seq<Seq<char>>, is_authority: bool)
    ensures
        forall|v: Seq<u32>| #[trigger]
            text_versions(text, entity, is_authority).contains(v) <==> stands_by_some(
                tokens_of(text),
                entity,
                v,
            ) || (is_authority && marked_somewhere(tokens_of(text), v)),
{
    let tokens = tokens_of(text);
    let starts = all_phrase_starts(tokens, entity);
    let around = versions_around_all(tokens, starts, entity.len());
    let all = text_versions(text, entity, is_authority);
    let marked = if is_authority {
        marked_versions(tokens, tokens.len())
    } else {
        Seq::empty()
    };
    law_all_phrase_starts(tokens, entity);
    law_marked_versions(tokens, tokens.len());
    assert forall|k: int| 0 <= k < starts.len() implies 0 <= #[trigger] starts[k] by {
        assert(starts.contains(starts[k]));
        assert(occurs_at(tokens, entity, starts[k]));
    }
    lemma_around_all(tokens, starts, entity.len());
    assert forall|v: Seq<u32>| around.contains(v) <==> #[trigger] stands_by_some(
        tokens,
        entity,
        v,
    ) by {
        if around.contains(v) {
            let (k, i) = choose|k: int, i: int|
                0 <= k < starts.len() && #[trigger] stands_by(
                    tokens,
                    starts[k],
                    entity.len(),
                    i,
                    v,
                );
            assert(starts.contains(starts[k]));
            assert(occurs_at(tokens, entity, starts[k]));
        }
        if stands_by_some(tokens, entity, v) {
            let (at, i) = choose|at: int, i: int|
                occurs_at(tokens, entity, at) && #[trigger] stands_by(
                    tokens,
                    at,
                    entity.len(),
                    i,
                    v,
                );
            assert(starts.contains(at));
            let k = choose|k: int| 0 <= k < starts.len() && starts[k] == at;
            assert(stands_by(tokens, starts[k], entity.len(), i, v));
        }
    }
    assert forall|v: Seq<u32>| #[trigger] all.contains(v) <==> stands_by_some(tokens, entity, v) || (
    is_authority && marked_somewhere(tokens, v)) by {
        lemma_contains_concat(marked, around, v);
        assert(stands_by_some(tokens, entity, v) <==> around.contains(v));
    }
}

/// Two lists in a row hold what either of them holds.
proof fn lemma_contains_concat(a: Seq<Seq<u32>>, b: Seq<Seq<u32>>, v: Seq<u32>)
    ensures
        (a + b).contains(v) <==> a.contains(v) || b.contains(v),
{
    if a.contains(v) {
        let k = choose|k: int| 0 <= k < a.len() && a[k] == v;
        assert((a + b)[k] == v);
    }
    if b.contains(v) {
        let k = choose|k: int| 0 <= k < b.len() && b[k] == v;
        assert((a + b)[a.len() + k] == v);
    }
    if (a + b).contains(v) {
        let k = choose|k: int| 0 <= k < (a + b).len() && (a + b)[k] == v;
        if k < a.len() {
            assert(a[k] == v);
        } else {
            assert(b[k - a.len()] == v);
        }
    }
}

/// Every version by every occurrence of the entity counts, not only those by
/// the first one.
pub proof fn law_every_occurrence_counts(
    text: Seq<char>,
    entity: Seq<Seq<char>>,
    is_authority: bool,
    at: int,
    i: int,
)
    requires
        occurs_at(tokens_of(text), entity, at),
        at - 2 <= i < at || at + entity.len() <= i < at + entity.len() + 3,
        version_at_of(tokens_of(text), i, true) is Some,
    ensures
        text_versions(text, entity, is_authority).contains(
            version_at_of(tokens_of(text), i, true)->0,
        ),
{
    law_text_versions(text, entity, is_authority);
    let v = version_at_of(tokens_of(text), i, true)->0;
    assert(stands_by(tokens_of(text), at, entity.len(), i, v));
    assert(stands_by_some(tokens_of(text), entity, v));
}

/// A page that is not official speaks of no version but those that stand by an
/// occurrence of the entity.
pub proof fn law_no_version_from_elsewhere(
    text: Seq<char>,
    entity: Seq<Seq<char>>,
    version: Seq<u32>,
)
    requires
        text_versions(text, entity, false).contains(version),
    ensures
        stands_by_some(tokens_of(text), entity, version),
{
    law_text_versions(text, entity, false);
}

/// Whether a segment announces the version after it.
pub open spec fn announces(segment: Seq<char>) -> bool {
    segment == announcement() || segment == announcement() + seq!['s']
}

/// A path segment writes the version after its `v`, or else, if it holds a dot
/// or comes after a segment that announces a version, the bare version that it
/// is; without any of these it writes none.
pub proof fn law_segment_version(
    before: Seq<Seq<char>>,
    segment: Seq<char>,
    after: Seq<Seq<char>>,
)
    ensures
        ({
            let written = segment_version(before + seq![segment] + after, before.len() as int);
            let announced = before.len() > 0 && announces(before.last());
            let dotted = exists|k: int| 0 <= k < segment.len() && #[trigger] segment[k] == '.';
            &&& explicit_of(segment) is Some ==> written == explicit_of(segment)
            &&& explicit_of(segment) is None && (dotted || announced) ==> written == bare_of(segment)
            &&& explicit_of(segment) is None && !dotted && !announced ==> written is None
        }),
{
    let all = before + seq![segment] + after;
    let i = before.len() as int;
    assert(all[i] == segment);
    if i > 0 {
        assert(all[i - 1] == before.last());
    }
    reveal_strlit("version");
    reveal_strlit("versions");
    assert("version"@ =~= announcement());
    assert("versions"@ =~= announcement() + seq!['s']);
    if exists|k: int| 0 <= k < segment.len() && #[trigger] segment[k] == '.' {
        assert(segment.contains('.'));
    }
    if segment.contains('.') {
        let k = choose|k: int| 0 <= k < segment.len() && segment[k] == '.';
        assert(segment[k] == '.');
    }
}

/// The versions of a path are those that its segments write, each in turn.
pub proof fn law_segment_versions(segments: Seq<Seq<char>>, bound: nat)
    ensures
        segment_versions(segments, bound) == Seq::new(bound, |i: int| i).filter_map(
            |i: int| segment_version(segments, i),
        ),
        forall|v: Seq<u32>| #[trigger]
            segment_versions(segments, bound).contains(v) <==> exists|i: int|
                0 <= i < bound && #[trigger] segment_version(segments, i) == Some(v),
    decreases bound,
{
    let all = Seq::new(bound, |i: int| i);
    let f = |i: int| segment_version(segments, i);
    let after = segment_versions(segments, bound);
    if bound == 0 {
        assert(after =~= all.filter_map(f));
    } else {
        let less = (bound - 1) as nat;
        law_segment_versions(segments, less);
        let before = segment_versions(segments, less);
        assert(all.drop_last() =~= Seq::new(less, |i: int| i));
        assert(all.last() == less);
        assert(f(all.last()) == segment_version(segments, bound - 1));
        assert(after =~= all.filter_map(f));
        assert forall|v: Seq<u32>| #[trigger] after.contains(v) <==> exists|i: int|
            0 <= i < bound && #[trigger] segment_version(segments, i) == Some(v) by {
            if after.contains(v) {
                let k = choose|k: int| 0 <= k < after.len() && after[k] == v;
                if k < before.len() {
                    assert(before[k] == v);
                    assert(before.contains(v));
                } else {
                    assert(segment_version(segments, bound - 1) == Some(v));
                }
            }
            if exists|i: int| 0 <= i < bound && #[trigger] segment_version(segments, i) == Some(v) {
                let i = choose|i: int|
                    0 <= i < bound && #[trigger] segment_version(segments, i) == Some(v);
                if i < less {
                    assert(before.contains(v));
                    let k = choose|k: int| 0 <= k < before.len() && before[k] == v;
                    assert(after[k] == v);
                } else {
                    assert(after[before.len() as int] == v);
                }
            }
        }
    }
}

/// Whether some segment of an address writes a version.
pub open spec fn in_path(parts: UrlPartsView, version: Seq<u32>) -> bool {
    parts.segments matches Some(segments) && exists|i: int|
        0 <= i < segments.len() && #[trigger] segment_version(segments, i) == Some(version)
}

/// The versions of a path are those that a segment of it writes.
pub proof fn law_path_versions(parts: UrlPartsView)
    ensures
        forall|v: Seq<u32>| #[trigger] path_versions_of(parts).contains(v) <==> in_path(parts, v),
{
    law_segment_versions(parts.segments_or_empty(), parts.segments_or_empty().len());
}

/// A result speaks of exactly the versions that its title or its excerpt speaks
/// of and, if it is official, of those in the path of its address.
pub proof fn law_versions_of_a_result(
    title: Seq<char>,
    content: Seq<char>,
    parts: Option<UrlPartsView>,
    entity: Seq<Seq<char>>,
    is_authority: bool,
)
    ensures
        forall|v: Seq<u32>| #[trigger]
            versions_with(title, content, parts, entity, is_authority).contains(v)
                <==> text_versions(title, entity, is_authority).contains(v) || text_versions(
                content,
                entity,
                is_authority,
            ).contains(v) || (is_authority && parts is Some && in_path(parts->0, v)),
{
    let all = versions_with(title, content, parts, entity, is_authority);
    let one = text_versions(title, entity, is_authority);
    let other = text_versions(content, entity, is_authority);
    if parts is Some {
        law_path_versions(parts->0);
    }
    assert forall|v: Seq<u32>| #[trigger] all.contains(v) <==> one.contains(v) || other.contains(v)
        || (is_authority && parts is Some && in_path(parts->0, v)) by {
        lemma_contains_concat(one, other, v);
        let path = match parts {
            Some(parts) if is_authority => path_versions_of(parts),
            _ => Seq::empty(),
        };
        lemma_contains_concat(one + other, path, v);
        assert(all == one + other + path);
    }
}

/// The versions of a result are found with the entity of the query and in its
/// own address.
pub proof fn law_candidates(
    title: Seq<char>,
    url: Seq<char>,
    content: Seq<char>,
    intent: IntentView,
    is_authority: bool,
)
    ensures
        forall|v: Seq<u32>| #[trigger]
            candidates_of(title, url, content, intent, is_authority).contains(v)
                <==> text_versions(title, intent.entity, is_authority).contains(v)
                || text_versions(content, intent.entity, is_authority).contains(v) || (is_authority
                && url_parts_of(url) is Some && in_path(url_parts_of(url)->0, v)),
{
    law_versions_of_a_result(title, content, url_parts_of(url), intent.entity, is_authority);
}

/// Versions come in the order in which they are read: on an official page the
/// marked ones first, then those around each occurrence of the entity in turn;
/// those of the title, then those of the excerpt, then those of the path.
pub proof fn law_order_of_versions(
    title: Seq<char>,
    content: Seq<char>,
    parts: UrlPartsView,
    entity: Seq<Seq<char>>,
)
    ensures
        text_versions(title, entity, true) == marked_versions(
            tokens_of(title),
            tokens_of(title).len(),
        ) + text_versions(title, entity, false),
        text_versions(title, entity, false) == versions_around_all(
            tokens_of(title),
            all_phrase_starts(tokens_of(title), entity),
            entity.len(),
        ),
        versions_with(title, content, Some(parts), entity, true) == text_versions(
            title,
            entity,
            true,
        ) + text_versions(content, entity, true) + path_versions_of(parts),
        versions_with(title, content, None, entity, true) == text_versions(title, entity, true)
            + text_versions(content, entity, true),
        versions_with(title, content, Some(parts), entity, false) == text_versions(
            title,
            entity,
            false,
        ) + text_versions(content, entity, false),
{
    let around = versions_around_all(
        tokens_of(title),
        all_phrase_starts(tokens_of(title), entity),
        entity.len(),
    );
    assert(text_versions(title, entity, false) =~= around);
    assert(text_versions(title, entity, true) =~= marked_versions(
        tokens_of(title),
        tokens_of(title).len(),
    ) + around);
    assert(versions_with(title, content, None, entity, true) =~= text_versions(title, entity, true)
        + text_versions(content, entity, true));
    assert(versions_with(title, content, Some(parts), entity, false) =~= text_versions(
        title,
        entity,
        false,
    ) + text_versions(content, entity, false));
}

/// How many of some terms are among some tokens.
pub open spec fn held(terms: Seq<Seq<char>>, tokens: Seq<Seq<char>>) -> nat {
    terms.filter(|t: Seq<char>| tokens.contains(t)).len()
}

/// Terms are worth four for each that the title holds, two for each that the
/// address holds and one for each that the excerpt holds.
pub proof fn law_total_weight(
    terms: Seq<Seq<char>>,
    title: Seq<Seq<char>>,
    url: Seq<Seq<char>>,
    content: Seq<Seq<char>>,
)
    ensures
        total_weight(terms, title, url, content) == 4 * held(terms, title) + 2 * held(terms, url)
            + held(terms, content),
    decreases terms.len(),
{
    reveal(Seq::filter);
    if terms.len() > 0 {
        law_total_weight(terms.drop_last(), title, url, content);
    }
}

/// One term adds four, two and one for the places that hold it.
pub proof fn law_term_weight(
    term: Seq<char>,
    title: Seq<Seq<char>>,
    url: Seq<Seq<char>>,
    content: Seq<Seq<char>>,
)
    ensures
        term_weight(term, title, url, content) == 4 * held(seq![term], title) + 2 * held(
            seq![term],
            url,
        ) + held(seq![term], content),
{
    let one = seq![term];
    assert(one.drop_last() =~= Seq::empty());
    assert(total_weight(one.drop_last(), title, url, content) == 0);
    assert(total_weight(one, title, url, content) == term_weight(term, title, url, content));
    law_total_weight(one, title, url, content);
}

/// A result covers terms by the tokens of its title, of its address and of its
/// excerpt.
pub proof fn law_lexical(
    terms: Seq<Seq<char>>,
    title: Seq<char>,
    url: Seq<char>,
    content: Seq<char>,
)
    ensures
        lexical_of(terms, title, url, content) == 4 * held(terms, tokens_of(title)) + 2 * held(
            terms,
            tokens_of(url),
        ) + held(terms, tokens_of(content)),
{
    law_total_weight(terms, tokens_of(title), tokens_of(url), tokens_of(content));
}

/// The digits among some bytes write the number that they write as a text.
pub proof fn law_digits_value(bytes: Seq<u8>)
    ensures
        digits_value(bytes) == decimal(
            bytes.filter(|b: u8| 48 <= b <= 57).map_values(|b: u8| b as char),
        ),
        forall|b: u8| #[trigger] is_digit_byte(b) <==> 48 <= b <= 57,
    decreases bytes.len(),
{
    reveal(Seq::filter);
    let digit = |b: u8| 48 <= b <= 57;
    let digits = bytes.filter(digit);
    let text = digits.map_values(|b: u8| b as char);
    if bytes.len() > 0 {
        let rest = bytes.drop_last();
        law_digits_value(rest);
        let fewer = rest.filter(digit).map_values(|b: u8| b as char);
        if digit(bytes.last()) {
            assert(text.drop_last() =~= fewer);
            assert(text.last() == bytes.last() as char);
            assert(is_digit_byte(bytes.last()));
        } else {
            assert(text =~= fewer);
            assert(!is_digit_byte(bytes.last()));
        }
    } else {
        assert(text =~= Seq::empty());
    }
}

/// Whether the first ten bytes of a text are characters of their own and have
/// hyphens where a date has them.
pub open spec fn dated(text: Seq<char>) -> bool {
    &&& encode_utf8(text).len() >= 10
    &&& is_char_boundary(encode_utf8(text), 10)
    &&& encode_utf8(text)[4] == 45
    &&& encode_utf8(text)[7] == 45
}

/// A date is the number that the digits among its first ten bytes write, and
/// what has no date is zero.
pub proof fn law_date(text: Seq<char>)
    ensures
        starts_with_date(text) <==> dated(text),
        dated(text) ==> date_of(Some(text)) == decimal(
            encode_utf8(text).take(10).filter(|b: u8| 48 <= b <= 57).map_values(|b: u8| b as char),
        ),
        !dated(text) ==> date_of(Some(text)) == 0,
        date_of(None) == 0,
{
    law_digits_value(encode_utf8(text).take(10));
}

}
