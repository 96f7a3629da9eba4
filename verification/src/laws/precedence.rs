//! Laws of what comes before what, by the fields of keys and the bits of
//! scores.

use core::cmp::Ordering;

use vstd::prelude::*;

use crate::client::{Score, SearxngResult};
use crate::intent::intent_of;
use crate::laws::order::{law_key_order_reverses, law_numeric_rows_are_comparable};
use crate::ranking::{
    arranges, comparable, goes_before, in_merit_order, in_order, key_order, merit_order, ranks,
    KeyView,
};
use crate::technical::{key_of, keys_of, rows_in};
use crate::version::VersionTier;

verus! {

/// The bits of the greatest number that is not below zero: infinity.
pub open spec fn top() -> int {
    0x7ff0_0000_0000_0000
}

/// What the sign of a number adds to its bits.
pub open spec fn sign() -> int {
    0x8000_0000_0000_0000
}

/// Scores without a sign have the order of their bits.
pub proof fn law_scores_above_zero(a: Score, b: Score)
    requires
        a.bits <= top(),
        b.bits <= top(),
    ensures
        a.order_of(b) == Ordering::Less <==> a.bits < b.bits,
        a.order_of(b) == Ordering::Greater <==> a.bits > b.bits,
{
}

/// Scores with a sign have the reversed order of their bits.
pub proof fn law_scores_below_zero(a: Score, b: Score)
    requires
        sign() <= a.bits <= sign() + top(),
        sign() <= b.bits <= sign() + top(),
    ensures
        a.order_of(b) == Ordering::Less <==> a.bits > b.bits,
        a.order_of(b) == Ordering::Greater <==> a.bits < b.bits,
{
}

/// A score with a sign is less than one without, unless both are zeros, which
/// are equal.
pub proof fn law_scores_around_zero(a: Score, b: Score)
    requires
        sign() <= a.bits <= sign() + top(),
        b.bits <= top(),
    ensures
        a.bits == sign() && b.bits == 0 ==> a.order_of(b) == Ordering::Equal && b.order_of(a)
            == Ordering::Equal,
        !(a.bits == sign() && b.bits == 0) ==> a.order_of(b) == Ordering::Less && b.order_of(a)
            == Ordering::Greater,
{
}

/// Whether bits stand for a number.
pub open spec fn numeric(score: Score) -> bool {
    score.bits <= top() || sign() <= score.bits <= sign() + top()
}

/// What is no number is equal to every score.
pub proof fn law_no_number(a: Score, b: Score)
    ensures
        a.is_nan() <==> !numeric(a),
        !numeric(a) ==> a.order_of(b) == Ordering::Equal && b.order_of(a) == Ordering::Equal,
        numeric(Score::zero_of()),
        Score::zero_of().bits == 0,
{
}

/// Whether one tier is better than another: a match is better than anything
/// else, and what says nothing is better than a mismatch.
pub open spec fn better(a: VersionTier, b: VersionTier) -> bool {
    (a is Match && !(b is Match)) || (a is Neutral && b is Mismatch)
}

/// Whether one key is above another without regard to scores: by the better
/// tier, or of equal tiers as the official one, or of equal authority by the
/// terms, or of equal terms by the later date.
pub open spec fn deserves_more(a: KeyView, b: KeyView) -> bool {
    ||| better(a.version, b.version)
    ||| a.version == b.version && a.authority && !b.authority
    ||| a.version == b.version && a.authority == b.authority && a.lexical > b.lexical
    ||| {
        &&& a.version == b.version
        &&& a.authority == b.authority
        &&& a.lexical == b.lexical
        &&& a.freshness > b.freshness
    }
}

/// Whether one key is above another: it deserves more or, where neither does,
/// has the greater score.
pub open spec fn above(a: KeyView, b: KeyView) -> bool {
    deserves_more(a, b) || (!deserves_more(b, a) && a.upstream.order_of(b.upstream)
        == Ordering::Greater)
}

/// Keys are compared by tier, authority, terms and date, in this order, and
/// last by score.
pub proof fn law_key_order(a: KeyView, b: KeyView)
    ensures
        merit_order(a, b) == Ordering::Greater <==> deserves_more(a, b),
        merit_order(a, b) == Ordering::Less <==> deserves_more(b, a),
        key_order(a, b) == Ordering::Greater <==> above(a, b),
        key_order(a, b) == Ordering::Less <==> above(b, a),
{
}

/// One index goes before another exactly if its key is above the other or, of
/// keys none of which is above the other, if it came first.
pub proof fn law_goes_before(keys: Seq<KeyView>, i: int, j: int)
    ensures
        goes_before(keys, i, j) <==> above(keys[i], keys[j]) || (!above(keys[j], keys[i]) && i < j),
{
    law_key_order(keys[i], keys[j]);
}

/// Keys can be put in order exactly if what goes before something goes before
/// all that it goes before.
pub proof fn law_comparable(keys: Seq<KeyView>)
    ensures
        comparable(keys) <==> forall|i: int, j: int, k: int|
            0 <= i < keys.len() && 0 <= j < keys.len() && 0 <= k < keys.len()
                && #[trigger] goes_before(keys, i, j) && #[trigger] goes_before(keys, j, k)
                ==> goes_before(keys, i, k),
{
}

/// Whether an order shows each of `n` results exactly once.
pub open spec fn shows_each_once(order: Seq<int>, n: nat) -> bool {
    &&& order.len() == n
    &&& forall|p: int| 0 <= p < n ==> 0 <= #[trigger] order[p] < n
    &&& forall|p: int, q: int| 0 <= p < q < n ==> #[trigger] order[p] != #[trigger] order[q]
}

/// A ranking shows each result exactly once, and none before one that deserves
/// more.
pub proof fn law_ranking_shows_each_once(keys: Seq<KeyView>, order: Seq<int>)
    requires
        ranks(keys, order),
    ensures
        shows_each_once(order, keys.len()),
        forall|i: int| #[trigger] order.contains(i) <==> 0 <= i < keys.len(),
        forall|p: int, q: int|
            0 <= p < q < order.len() ==> !deserves_more(
                keys[#[trigger] order[q]],
                keys[#[trigger] order[p]],
            ),
{
    assert forall|p: int| 0 <= p < keys.len() implies 0 <= #[trigger] order[p] < keys.len() by {
        assert(order.contains(order[p]));
    }
    assert forall|p: int, q: int| 0 <= p < q < order.len() implies !deserves_more(
        keys[#[trigger] order[q]],
        keys[#[trigger] order[p]],
    ) by {
        law_key_order(keys[order[p]], keys[order[q]]);
        assert(merit_order(keys[order[p]], keys[order[q]]) != Ordering::Less);
    }
}

/// Where keys can be put in order, of any two results the one that is shown
/// first has the key above the other's or, where neither is above the other,
/// came first.
pub proof fn law_ranking_follows_the_keys(keys: Seq<KeyView>, order: Seq<int>, p: int, q: int)
    requires
        ranks(keys, order),
        comparable(keys),
        0 <= p < q < order.len(),
    ensures
        !above(keys[order[q]], keys[order[p]]),
        above(keys[order[p]], keys[order[q]]) || order[p] < order[q],
{
    assert(goes_before(keys, order[p], order[q]));
    law_goes_before(keys, order[p], order[q]);
    law_key_order(keys[order[p]], keys[order[q]]);
    law_key_order_reverses(keys[order[p]], keys[order[q]]);
}

/// Results whose scores are all numbers are shown by their keys, and those of
/// equal keys as they came.
pub proof fn law_numeric_rows_are_shown_by_key(
    rows: Seq<SearxngResult>,
    query: Seq<char>,
    order: Seq<int>,
    p: int,
    q: int,
)
    requires
        ranks(keys_of(rows, query), order),
        forall|i: int|
            0 <= i < rows.len() && (#[trigger] rows[i]).score is Some ==> numeric(rows[i].score->0),
        0 <= p < q < rows.len(),
    ensures
        !above(
            key_of(rows_in(rows, order)[q], intent_of(query)),
            key_of(rows_in(rows, order)[p], intent_of(query)),
        ),
        above(
            key_of(rows_in(rows, order)[p], intent_of(query)),
            key_of(rows_in(rows, order)[q], intent_of(query)),
        ) || order[p] < order[q],
{
    assert forall|i: int|
        0 <= i < rows.len() && (#[trigger] rows[i]).score is Some implies !rows[i].score->0.is_nan() by {
        law_no_number(rows[i].score->0, rows[i].score->0);
    }
    law_numeric_rows_are_comparable(rows, query);
    let keys = keys_of(rows, query);
    law_ranking_shows_each_once(keys, order);
    assert(order.contains(order[p]));
    assert(order.contains(order[q]));
    law_ranking_follows_the_keys(keys, order, p, q);
}

/// An order that shows each result once, and each by its key, is a ranking.
pub proof fn law_what_a_ranking_is(keys: Seq<KeyView>, order: Seq<int>)
    requires
        shows_each_once(order, keys.len()),
        forall|i: int| 0 <= i < keys.len() ==> #[trigger] order.contains(i),
        forall|p: int, q: int|
            0 <= p < q < order.len() ==> goes_before(
                keys,
                #[trigger] order[p],
                #[trigger] order[q],
            ),
    ensures
        ranks(keys, order),
        arranges(order, 0, keys.len() as int),
        in_order(keys, order),
        in_merit_order(keys, order),
{
}

}
