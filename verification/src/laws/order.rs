//! Laws of the order in which results are shown.

use core::cmp::Ordering;

use vstd::prelude::*;

use crate::client::{Score, SearxngResult};
use crate::intent::intent_of;
use crate::ranking::{
    arranges, comparable, goes_before, in_order, key_order, lemma_one_goes_before,
    merit_order, ranks, tier_place, KeyView,
};
use crate::technical::{key_of, keys_of, rows_in};
use crate::text::lowered;

verus! {

/// The two zeros are equal, and apart from them scores that are numbers are
/// equal only if they are the same.
pub proof fn law_equal_scores(a: Score, b: Score)
    requires
        !a.is_nan(),
        !b.is_nan(),
    ensures
        a.order_of(b) == Ordering::Equal <==> a == b || (a.magnitude() == 0 && b.magnitude() == 0),
{
}

/// Comparing two keys the other way round gives the reversed order.
pub proof fn law_key_order_reverses(a: KeyView, b: KeyView)
    ensures
        key_order(a, b) == Ordering::Equal <==> key_order(b, a) == Ordering::Equal,
        key_order(a, b) == Ordering::Less <==> key_order(b, a) == Ordering::Greater,
        key_order(a, a) == Ordering::Equal,
{
}

/// Keys whose scores are all numbers can be put in order.
pub proof fn law_numbers_are_comparable(keys: Seq<KeyView>)
    requires
        forall|i: int| 0 <= i < keys.len() ==> !(#[trigger] keys[i]).upstream.is_nan(),
    ensures
        comparable(keys),
{
    assert forall|i: int, j: int, k: int|
        0 <= i < keys.len() && 0 <= j < keys.len() && 0 <= k < keys.len() && #[trigger] goes_before(
            keys,
            i,
            j,
        ) && #[trigger] goes_before(keys, j, k) implies goes_before(keys, i, k) by {
        assert(!keys[i].upstream.is_nan());
        assert(!keys[j].upstream.is_nan());
        assert(!keys[k].upstream.is_nan());
    }
}

/// Results none of which has a score that is no number have keys that can be
/// put in order, whatever the query.
pub proof fn law_numeric_rows_are_comparable(rows: Seq<SearxngResult>, query: Seq<char>)
    requires
        forall|i: int|
            0 <= i < rows.len() && (#[trigger] rows[i]).score is Some ==> !rows[i].score->0.is_nan(),
    ensures
        comparable(keys_of(rows, query)),
{
    let keys = keys_of(rows, query);
    assert forall|i: int| 0 <= i < keys.len() implies !(#[trigger] keys[i]).upstream.is_nan() by {
        assert(rows[i] == rows[i]);
    }
    law_numbers_are_comparable(keys);
}

/// There is only one order in which results are shown, where their keys can be
/// put in order.
pub proof fn law_ranking_is_unique(keys: Seq<KeyView>, one: Seq<int>, other: Seq<int>)
    requires
        comparable(keys),
        ranks(keys, one),
        ranks(keys, other),
    ensures
        one == other,
{
    let n = keys.len() as int;
    assert forall|p: int| 0 <= p < n implies one[p] == other[p] by {
        lemma_same_at(keys, one, other, p);
    }
    assert(one =~= other);
}

/// Two orders by key hold the same index at each place.
proof fn lemma_same_at(keys: Seq<KeyView>, one: Seq<int>, other: Seq<int>, p: int)
    requires
        arranges(one, 0, keys.len() as int),
        arranges(other, 0, keys.len() as int),
        in_order(keys, one),
        in_order(keys, other),
        0 <= p < keys.len(),
    ensures
        forall|k: int| 0 <= k <= p ==> one[k] == other[k],
    decreases p,
{
    if p > 0 {
        lemma_same_at(keys, one, other, p - 1);
    }
    if one[p] != other[p] {
        assert(one.contains(one[p]));
        assert(other.contains(one[p]));
        let q = choose|q: int| 0 <= q < other.len() && other[q] == one[p];
        assert(other.contains(other[p]));
        assert(one.contains(other[p]));
        let r = choose|r: int| 0 <= r < one.len() && one[r] == other[p];
        if q < p {
            assert(one[q] == one[p]);
        }
        if r < p {
            assert(other[r] == other[p]);
        }
        assert(goes_before(keys, other[p], other[q]));
        assert(goes_before(keys, one[p], one[r]));
        lemma_one_goes_before(keys, one[p], other[p]);
    }
}

/// What goes before something stands before it in the order.
proof fn lemma_stands_before(keys: Seq<KeyView>, order: Seq<int>, p: int, q: int)
    requires
        comparable(keys),
        ranks(keys, order),
        0 <= p < order.len(),
        0 <= q < order.len(),
        p != q,
        goes_before(keys, order[p], order[q]),
    ensures
        p < q,
{
    if q < p {
        assert(goes_before(keys, order[q], order[p]));
        lemma_one_goes_before(keys, order[p], order[q]);
    }
}

/// What has the greater key without its score stands first in the order,
/// whatever the scores are.
proof fn lemma_stands_before_by_merit(keys: Seq<KeyView>, order: Seq<int>, p: int, q: int)
    requires
        ranks(keys, order),
        0 <= p < order.len(),
        0 <= q < order.len(),
        merit_order(keys[order[p]], keys[order[q]]) == Ordering::Greater,
    ensures
        p < q,
{
    if q < p {
        assert(merit_order(keys[order[q]], keys[order[p]]) != Ordering::Less);
    }
}

/// A result of a better version tier is shown first, whatever else holds.
pub proof fn law_version_dominates(keys: Seq<KeyView>, order: Seq<int>, p: int, q: int)
    requires
        ranks(keys, order),
        0 <= p < order.len(),
        0 <= q < order.len(),
        tier_place(keys[order[p]].version) > tier_place(keys[order[q]].version),
    ensures
        p < q,
{
    lemma_stands_before_by_merit(keys, order, p, q);
}

/// Within a version tier an official result is shown first, whatever else holds.
pub proof fn law_authority_dominates_within_tier(
    keys: Seq<KeyView>,
    order: Seq<int>,
    p: int,
    q: int,
)
    requires
        ranks(keys, order),
        0 <= p < order.len(),
        0 <= q < order.len(),
        keys[order[p]].version == keys[order[q]].version,
        keys[order[p]].authority,
        !keys[order[q]].authority,
    ensures
        p < q,
{
    lemma_stands_before_by_merit(keys, order, p, q);
}

/// Of results that are equal in version and authority, the one that covers the
/// search terms better is shown first.
pub proof fn law_terms_come_third(keys: Seq<KeyView>, order: Seq<int>, p: int, q: int)
    requires
        ranks(keys, order),
        0 <= p < order.len(),
        0 <= q < order.len(),
        keys[order[p]].version == keys[order[q]].version,
        keys[order[p]].authority == keys[order[q]].authority,
        keys[order[p]].lexical > keys[order[q]].lexical,
    ensures
        p < q,
{
    lemma_stands_before_by_merit(keys, order, p, q);
}

/// A newer date only decides between results that are equal in version,
/// authority and search terms.
pub proof fn law_date_comes_fourth(keys: Seq<KeyView>, order: Seq<int>, p: int, q: int)
    requires
        ranks(keys, order),
        0 <= p < order.len(),
        0 <= q < order.len(),
        keys[order[p]].version == keys[order[q]].version,
        keys[order[p]].authority == keys[order[q]].authority,
        keys[order[p]].lexical == keys[order[q]].lexical,
        keys[order[p]].freshness > keys[order[q]].freshness,
    ensures
        p < q,
{
    lemma_stands_before_by_merit(keys, order, p, q);
}

/// The upstream score only decides between results that are equal in all else.
pub proof fn law_score_comes_last(keys: Seq<KeyView>, order: Seq<int>, p: int, q: int)
    requires
        comparable(keys),
        ranks(keys, order),
        0 <= p < order.len(),
        0 <= q < order.len(),
        keys[order[p]].version == keys[order[q]].version,
        keys[order[p]].authority == keys[order[q]].authority,
        keys[order[p]].lexical == keys[order[q]].lexical,
        keys[order[p]].freshness == keys[order[q]].freshness,
        keys[order[p]].upstream.order_of(keys[order[q]].upstream) == Ordering::Greater,
    ensures
        p < q,
{
    lemma_stands_before(keys, order, p, q);
}

/// Results of equal keys stay in the order in which they came.
pub proof fn law_equal_keys_keep_their_order(keys: Seq<KeyView>, order: Seq<int>, p: int, q: int)
    requires
        comparable(keys),
        ranks(keys, order),
        0 <= p < order.len(),
        0 <= q < order.len(),
        key_order(keys[order[p]], keys[order[q]]) == Ordering::Equal,
        order[p] < order[q],
    ensures
        p < q,
{
    lemma_stands_before(keys, order, p, q);
}

/// No result is shown before one that has a greater key without its score, nor,
/// where the keys can be put in order, before one that has a greater key.
pub proof fn law_shown_in_descending_order(
    rows: Seq<SearxngResult>,
    query: Seq<char>,
    order: Seq<int>,
    p: int,
    q: int,
)
    requires
        ranks(keys_of(rows, query), order),
        0 <= p < q < rows.len(),
    ensures
        merit_order(
            key_of(rows_in(rows, order)[p], intent_of(query)),
            key_of(rows_in(rows, order)[q], intent_of(query)),
        ) != Ordering::Less,
        comparable(keys_of(rows, query)) ==> key_order(
            key_of(rows_in(rows, order)[p], intent_of(query)),
            key_of(rows_in(rows, order)[q], intent_of(query)),
        ) != Ordering::Less,
{
    let keys = keys_of(rows, query);
    assert(order.contains(order[p]));
    assert(order.contains(order[q]));
    assert(merit_order(keys[order[p]], keys[order[q]]) != Ordering::Less);
    if comparable(keys) {
        assert(goes_before(keys, order[p], order[q]));
    }
}

/// The order that changes nothing.
pub open spec fn as_they_came(n: nat) -> Seq<int> {
    Seq::new(n, |i: int| i)
}

/// Results that are shown in order stay as they are when they are ranked for
/// the same query again.
pub proof fn law_ranking_again_changes_nothing(
    rows: Seq<SearxngResult>,
    query: Seq<char>,
    first: Seq<int>,
    second: Seq<int>,
)
    requires
        comparable(keys_of(rows, query)),
        ranks(keys_of(rows, query), first),
        ranks(keys_of(rows_in(rows, first), query), second),
    ensures
        second == as_they_came(rows.len()),
        rows_in(rows_in(rows, first), second) == rows_in(rows, first),
{
    let keys = keys_of(rows, query);
    let shown = rows_in(rows, first);
    let again = keys_of(shown, query);
    let same = as_they_came(rows.len());
    assert forall|p: int| 0 <= p < again.len() implies #[trigger] again[p] == keys[first[p]]
        && 0 <= first[p] < keys.len() by {
        assert(first.contains(first[p]));
    }
    assert forall|i: int, j: int|
        0 <= i < again.len() && 0 <= j < again.len() && i != j implies #[trigger] goes_before(
        again,
        i,
        j,
    ) == (i < j) by {
        assert(again[i] == keys[first[i]]);
        assert(again[j] == keys[first[j]]);
        if i < j {
            assert(goes_before(keys, first[i], first[j]));
        } else {
            assert(goes_before(keys, first[j], first[i]));
            law_key_order_reverses(again[i], again[j]);
        }
    }
    assert forall|i: int| 0 <= i < again.len() implies !#[trigger] goes_before(again, i, i) by {
        law_key_order_reverses(again[i], again[i]);
    }
    assert(comparable(again));
    assert forall|i: int| #[trigger] same.contains(i) <==> 0 <= i < again.len() by {
        if 0 <= i < again.len() {
            assert(same[i] == i);
        }
    }
    assert(ranks(again, same));
    law_ranking_is_unique(again, second, same);
    assert(rows_in(shown, second) =~= shown);
}

/// Queries that differ only in the case of ASCII letters rank results alike.
pub proof fn law_ranking_ignores_case_of_query(
    rows: Seq<SearxngResult>,
    a: Seq<char>,
    b: Seq<char>,
    order: Seq<int>,
)
    requires
        lowered(a) == lowered(b),
    ensures
        ranks(keys_of(rows, a), order) <==> ranks(keys_of(rows, b), order),
{
    crate::laws::queries::law_query_ignores_case(a, b);
    assert(keys_of(rows, a) =~= keys_of(rows, b));
}

/// Ranking loses no result and adds none: each is shown exactly as often as it
/// came.
pub proof fn law_ranking_keeps_every_row(
    rows: Seq<SearxngResult>,
    query: Seq<char>,
    order: Seq<int>,
)
    requires
        ranks(keys_of(rows, query), order),
    ensures
        rows_in(rows, order).to_multiset() == rows.to_multiset(),
{
    lemma_arrangement_keeps_all(rows, order);
}

/// A sequence of which the indices are arranged holds the same items.
proof fn lemma_arrangement_keeps_all(rows: Seq<SearxngResult>, order: Seq<int>)
    requires
        arranges(order, 0, rows.len() as int),
    ensures
        rows_in(rows, order).to_multiset() == rows.to_multiset(),
    decreases rows.len(),
{
    broadcast use vstd::seq_lib::group_to_multiset_ensures;
    broadcast use vstd::multiset::group_multiset_axioms;

    if rows.len() == 0 {
        assert(rows_in(rows, order) =~= rows);
    } else {
        let last = rows.len() - 1;
        assert(order.contains(last));
        let p = choose|p: int| 0 <= p < order.len() && order[p] == last;
        let less = order.remove(p);
        let fewer = rows.drop_last();
        assert forall|i: int| #[trigger] less.contains(i) <==> 0 <= i < fewer.len() by {
            if less.contains(i) {
                let k = choose|k: int| 0 <= k < less.len() && less[k] == i;
                if k < p {
                    assert(order[k] == i);
                } else {
                    assert(order[k + 1] == i);
                }
                assert(order.contains(i));
            }
            if 0 <= i < fewer.len() {
                assert(order.contains(i));
                let k = choose|k: int| 0 <= k < order.len() && order[k] == i;
                if k < p {
                    assert(less[k] == i);
                } else {
                    assert(less[k - 1] == i);
                }
            }
        }
        assert(arranges(less, 0, fewer.len() as int));
        lemma_arrangement_keeps_all(fewer, less);
        assert forall|k: int| 0 <= k < less.len() implies rows_in(fewer, less)[k] == rows_in(
            rows,
            order,
        ).remove(p)[k] by {
            assert(less.contains(less[k]));
        }
        assert(rows_in(fewer, less) =~= rows_in(rows, order).remove(p));
        assert(rows =~= fewer.push(rows[last]));
        assert(rows_in(rows, order)[p] == rows[last]);
        let shown = rows_in(rows, order).to_multiset();
        assert(shown.contains(rows[last]));
        assert(shown =~= shown.remove(rows[last]).insert(rows[last]));
    }
}

}
