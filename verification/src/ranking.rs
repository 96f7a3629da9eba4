//! The keys that results are ranked by, and putting them in order.

use core::cmp::Ordering;

use vstd::prelude::*;

use crate::client::Score;
use crate::text::indices;
use crate::version::VersionTier;

verus! {

/// What a result is ranked by, the first field being the most important.
#[derive(Clone, Copy, Debug, PartialEq, Eq, Structural)]
pub struct RankKey {
    /// How the versions that it speaks of relate to the requested one.
    pub version: VersionTier,
    /// Whether the project that the query names published it.
    pub authority: bool,
    /// How well it covers the search terms.
    pub lexical: u128,
    /// When it was published, a later date being a greater number.
    pub freshness: u32,
    /// How highly upstream rates it.
    pub upstream: Score,
}

/// A [`RankKey`] with unbounded numbers.
pub struct KeyView {
    pub version: VersionTier,
    pub authority: bool,
    pub lexical: nat,
    pub freshness: nat,
    pub upstream: Score,
}

impl View for RankKey {
    type V = KeyView;

    open spec fn view(&self) -> KeyView {
        KeyView {
            version: self.version,
            authority: self.authority,
            lexical: self.lexical as nat,
            freshness: self.freshness as nat,
            upstream: self.upstream,
        }
    }
}

/// The keys that a sequence of them stands for.
pub open spec fn key_views(keys: Seq<RankKey>) -> Seq<KeyView> {
    keys.map_values(|key: RankKey| key@)
}

/// Where a tier stands among the tiers.
pub open spec fn tier_place(tier: VersionTier) -> nat {
    match tier {
        VersionTier::Mismatch => 0,
        VersionTier::Neutral => 1,
        VersionTier::Match => 2,
    }
}

/// Where a truth value stands, false being the lower one.
pub open spec fn bool_place(b: bool) -> nat {
    if b {
        1
    } else {
        0
    }
}

/// The order of two numbers.
pub open spec fn number_order(a: nat, b: nat) -> Ordering {
    if a < b {
        Ordering::Less
    } else if a > b {
        Ordering::Greater
    } else {
        Ordering::Equal
    }
}

/// The first of two orders that tells the things apart.
pub open spec fn or_else(first: Ordering, second: Ordering) -> Ordering {
    if first == Ordering::Equal {
        second
    } else {
        first
    }
}

/// The order of two keys without their scores: that of the first fields that
/// differ.
pub open spec fn merit_order(a: KeyView, b: KeyView) -> Ordering {
    or_else(
        number_order(tier_place(a.version), tier_place(b.version)),
        or_else(
            number_order(bool_place(a.authority), bool_place(b.authority)),
            or_else(
                number_order(a.lexical, b.lexical),
                number_order(a.freshness, b.freshness),
            ),
        ),
    )
}

/// The order of two keys: that of their first fields that differ, the score
/// being the last of them.
pub open spec fn key_order(a: KeyView, b: KeyView) -> Ordering {
    or_else(merit_order(a, b), a.upstream.order_of(b.upstream))
}

/// Whether the result at index `i` is shown before the one at index `j`: it has
/// the greater key or, of equal keys, the lower index.
pub open spec fn goes_before(keys: Seq<KeyView>, i: int, j: int) -> bool {
    match key_order(keys[i], keys[j]) {
        Ordering::Greater => true,
        Ordering::Equal => i < j,
        Ordering::Less => false,
    }
}

/// Whether an order holds every index from `from` up to, but not including,
/// `to`, each of them once, and nothing else.
pub open spec fn arranges(order: Seq<int>, from: int, to: int) -> bool {
    &&& order.len() == to - from
    &&& order.no_duplicates()
    &&& forall|i: int| #[trigger] order.contains(i) <==> from <= i < to
}

/// Whether each index of an order goes before all that follow it.
pub open spec fn in_order(keys: Seq<KeyView>, order: Seq<int>) -> bool {
    forall|p: int, q: int|
        0 <= p < q < order.len() ==> goes_before(keys, #[trigger] order[p], #[trigger] order[q])
}

/// Whether no index of an order stands before one that has the greater key
/// without its score.
pub open spec fn in_merit_order(keys: Seq<KeyView>, order: Seq<int>) -> bool {
    forall|p: int, q: int|
        0 <= p < q < order.len() ==> merit_order(
            keys[#[trigger] order[p]],
            keys[#[trigger] order[q]],
        ) != Ordering::Less
}

/// Whether the keys of a sequence can be put in order: what goes before
/// something goes before all that it goes before.  Only a score that is no
/// number can break this.
pub open spec fn comparable(keys: Seq<KeyView>) -> bool {
    forall|i: int, j: int, k: int|
        0 <= i < keys.len() && 0 <= j < keys.len() && 0 <= k < keys.len() && #[trigger] goes_before(
            keys,
            i,
            j,
        ) && #[trigger] goes_before(keys, j, k) ==> goes_before(keys, i, k)
}

/// Whether an order shows each of some results once, by key without the score
/// and, where the keys can be put in order, by the whole key.
pub open spec fn ranks(keys: Seq<KeyView>, order: Seq<int>) -> bool {
    &&& arranges(order, 0, keys.len() as int)
    &&& in_merit_order(keys, order)
    &&& comparable(keys) ==> in_order(keys, order)
}

/// Of two different indices one goes before the other, and not both.
pub proof fn lemma_one_goes_before(keys: Seq<KeyView>, i: int, j: int)
    requires
        i != j,
    ensures
        goes_before(keys, i, j) <==> !goes_before(keys, j, i),
{
}

/// A machine integer as a mathematical one.
spec fn int_of(i: usize) -> int {
    i as int
}

/// The order of two tiers.
fn compare_tiers(a: VersionTier, b: VersionTier) -> (res: Ordering)
    ensures
        res == number_order(tier_place(a), tier_place(b)),
{
    match (a, b) {
        (VersionTier::Mismatch, VersionTier::Mismatch) => Ordering::Equal,
        (VersionTier::Mismatch, _) => Ordering::Less,
        (VersionTier::Neutral, VersionTier::Mismatch) => Ordering::Greater,
        (VersionTier::Neutral, VersionTier::Neutral) => Ordering::Equal,
        (VersionTier::Neutral, VersionTier::Match) => Ordering::Less,
        (VersionTier::Match, VersionTier::Match) => Ordering::Equal,
        (VersionTier::Match, _) => Ordering::Greater,
    }
}

/// The order of two keys: that of their first fields that differ.
pub fn compare_keys(a: &RankKey, b: &RankKey) -> (res: Ordering)
    ensures
        res == key_order(a@, b@),
{
    let tiers = compare_tiers(a.version, b.version);
    match tiers {
        Ordering::Equal => {},
        _ => {
            return tiers;
        },
    }
    if a.authority != b.authority {
        return if a.authority {
            Ordering::Greater
        } else {
            Ordering::Less
        };
    }
    if a.lexical != b.lexical {
        return if a.lexical > b.lexical {
            Ordering::Greater
        } else {
            Ordering::Less
        };
    }
    if a.freshness != b.freshness {
        return if a.freshness > b.freshness {
            Ordering::Greater
        } else {
            Ordering::Less
        };
    }
    a.upstream.compared_to(b.upstream)
}

/// Whether the result at index `i` is shown before the one at index `j`.
fn is_before(keys: &[RankKey], i: usize, j: usize) -> (res: bool)
    requires
        i < keys@.len(),
        j < keys@.len(),
    ensures
        res == goes_before(key_views(keys@), int_of(i), int_of(j)),
{
    match compare_keys(&keys[i], &keys[j]) {
        Ordering::Greater => true,
        Ordering::Equal => i < j,
        Ordering::Less => false,
    }
}

/// Whether the result at index `i` may stand before the one at index `j`: by
/// the whole key, or by the key without the score.
spec fn may_precede(keys: Seq<KeyView>, whole: bool, i: int, j: int) -> bool {
    if whole {
        goes_before(keys, i, j)
    } else {
        merit_order(keys[i], keys[j]) != Ordering::Less
    }
}

/// Whether each index of a list may stand before all that follow it.
spec fn is_sorted(keys: Seq<KeyView>, whole: bool, list: Seq<int>) -> bool {
    forall|p: int, q: int|
        0 <= p < q < list.len() ==> may_precede(
            keys,
            whole,
            #[trigger] list[p],
            #[trigger] list[q],
        )
}

/// Whether everything in `out` may stand before all items of a list from index
/// `from` on.
spec fn precedes(keys: Seq<KeyView>, whole: bool, out: Seq<int>, list: Seq<int>, from: int) -> bool {
    forall|p: int, q: int|
        0 <= p < out.len() && from <= q < list.len() ==> may_precede(
            keys,
            whole,
            #[trigger] out[p],
            #[trigger] list[q],
        )
}

/// Whether the order by the whole key, or by the key without the score, is
/// carried on from one result to the next.  The latter always is.
spec fn carries_on(keys: Seq<KeyView>, whole: bool) -> bool {
    whole ==> comparable(keys)
}

/// Whether `out` holds the first `a` items of one list and the first `b` of
/// another, and nothing twice.
spec fn merged(out: Seq<int>, l: Seq<int>, a: int, r: Seq<int>, b: int) -> bool {
    &&& out.no_duplicates()
    &&& forall|i: int|
        #[trigger] out.contains(i) <==> l.take(a).contains(i) || r.take(b).contains(i)
}

/// Whether `out` is sorted and may stand before all that is left of two lists.
spec fn leads(
    keys: Seq<KeyView>,
    whole: bool,
    out: Seq<int>,
    l: Seq<int>,
    a: int,
    r: Seq<int>,
    b: int,
) -> bool {
    &&& is_sorted(keys, whole, out)
    &&& precedes(keys, whole, out, l, a)
    &&& precedes(keys, whole, out, r, b)
}

/// What may stand before something may stand before all that it may stand
/// before.
proof fn lemma_carries_on(keys: Seq<KeyView>, whole: bool, i: int, j: int, k: int)
    requires
        carries_on(keys, whole),
        0 <= i < keys.len(),
        0 <= j < keys.len(),
        0 <= k < keys.len(),
        may_precede(keys, whole, i, j),
        may_precede(keys, whole, j, k),
    ensures
        may_precede(keys, whole, i, k),
{
    if whole {
        assert(goes_before(keys, i, j) && goes_before(keys, j, k));
    }
}

/// What is sorted by the whole key is in order, and what is sorted without the
/// score is in order without it.
proof fn lemma_sorted_is_in_order(keys: Seq<KeyView>, list: Seq<int>)
    ensures
        is_sorted(keys, true, list) <==> in_order(keys, list),
        is_sorted(keys, false, list) <==> in_merit_order(keys, list),
{
    if in_order(keys, list) {
        assert forall|p: int, q: int| 0 <= p < q < list.len() implies may_precede(
            keys,
            true,
            #[trigger] list[p],
            #[trigger] list[q],
        ) by {
            assert(goes_before(keys, list[p], list[q]));
        }
    }
    if is_sorted(keys, true, list) {
        assert forall|p: int, q: int| 0 <= p < q < list.len() implies goes_before(
            keys,
            #[trigger] list[p],
            #[trigger] list[q],
        ) by {
            assert(may_precede(keys, true, list[p], list[q]));
        }
    }
    if is_sorted(keys, false, list) {
        assert forall|p: int, q: int| 0 <= p < q < list.len() implies merit_order(
            keys[#[trigger] list[p]],
            keys[#[trigger] list[q]],
        ) != Ordering::Less by {
            assert(may_precede(keys, false, list[p], list[q]));
        }
    }
    if in_merit_order(keys, list) {
        assert forall|p: int, q: int| 0 <= p < q < list.len() implies may_precede(
            keys,
            false,
            #[trigger] list[p],
            #[trigger] list[q],
        ) by {
            assert(merit_order(keys[list[p]], keys[list[q]]) != Ordering::Less);
        }
    }
}

/// Taking the next item of a list keeps what has been taken sorted, where that
/// item goes before the next one of the other list.
proof fn lemma_take_leads(
    keys: Seq<KeyView>,
    whole: bool,
    out: Seq<int>,
    l: Seq<int>,
    a: int,
    r: Seq<int>,
    b: int,
)
    requires
        0 <= a < l.len(),
        0 <= b <= r.len(),
        forall|a: int| 0 <= a < l.len() ==> 0 <= #[trigger] l[a] < keys.len(),
        forall|b: int| 0 <= b < r.len() ==> 0 <= #[trigger] r[b] < keys.len(),
        b < r.len() ==> goes_before(keys, l[a], r[b]),
        carries_on(keys, whole),
        is_sorted(keys, whole, l),
        is_sorted(keys, whole, r),
        leads(keys, whole, out, l, a, r, b),
    ensures
        leads(keys, whole, out.push(l[a]), l, a + 1, r, b),
{
    let next = out.push(l[a]);
    assert forall|p: int, q: int| 0 <= p < q < next.len() implies may_precede(
        keys,
        whole,
        #[trigger] next[p],
        #[trigger] next[q],
    ) by {
        if q == out.len() {
            assert(may_precede(keys, whole, out[p], l[a]));
        } else {
            assert(may_precede(keys, whole, out[p], out[q]));
        }
    }
    assert forall|p: int, q: int| 0 <= p < next.len() && a + 1 <= q < l.len() implies may_precede(
        keys,
        whole,
        #[trigger] next[p],
        #[trigger] l[q],
    ) by {
        if p < out.len() {
            assert(may_precede(keys, whole, out[p], l[q]));
        } else {
            assert(may_precede(keys, whole, l[a], l[q]));
        }
    }
    assert forall|p: int, q: int| 0 <= p < next.len() && b <= q < r.len() implies may_precede(
        keys,
        whole,
        #[trigger] next[p],
        #[trigger] r[q],
    ) by {
        if p < out.len() {
            assert(may_precede(keys, whole, out[p], r[q]));
        } else {
            assert(may_precede(keys, whole, l[a], r[b]));
            if q > b {
                assert(may_precede(keys, whole, r[b], r[q]));
                lemma_carries_on(keys, whole, l[a], r[b], r[q]);
            }
        }
    }
}

/// Taking the next item of a list takes nothing twice.
proof fn lemma_take_merged(out: Seq<int>, l: Seq<int>, a: int, r: Seq<int>, b: int)
    requires
        0 <= a < l.len(),
        0 <= b <= r.len(),
        forall|a: int, b: int|
            0 <= a < l.len() && 0 <= b < r.len() ==> #[trigger] l[a] != #[trigger] r[b],
        l.no_duplicates(),
        merged(out, l, a, r, b),
    ensures
        merged(out.push(l[a]), l, a + 1, r, b),
{
    let next = out.push(l[a]);
    let old_l = l.take(a);
    let new_l = l.take(a + 1);
    let old_r = r.take(b);
    assert(!out.contains(l[a])) by {
        if old_l.contains(l[a]) {
            let k = choose|k: int| 0 <= k < old_l.len() && old_l[k] == l[a];
            assert(l[k] == l[a]);
        }
        if old_r.contains(l[a]) {
            let k = choose|k: int| 0 <= k < old_r.len() && old_r[k] == l[a];
            assert(r[k] == l[a]);
        }
    }
    assert forall|i: int| #[trigger] next.contains(i) <==> new_l.contains(i) || old_r.contains(
        i,
    ) by {
        if next.contains(i) {
            let k = choose|k: int| 0 <= k < next.len() && next[k] == i;
            if k < out.len() {
                assert(out[k] == i);
                assert(out.contains(i));
                if old_l.contains(i) {
                    let m = choose|m: int| 0 <= m < old_l.len() && old_l[m] == i;
                    assert(new_l[m] == i);
                }
            } else {
                assert(new_l[a] == i);
            }
        }
        if new_l.contains(i) {
            let m = choose|m: int| 0 <= m < new_l.len() && new_l[m] == i;
            if m < a {
                assert(old_l[m] == i);
                assert(out.contains(i));
                let k = choose|k: int| 0 <= k < out.len() && out[k] == i;
                assert(next[k] == i);
            } else {
                assert(next[out.len() as int] == i);
            }
        }
        if old_r.contains(i) {
            assert(out.contains(i));
            let k = choose|k: int| 0 <= k < out.len() && out[k] == i;
            assert(next[k] == i);
        }
    }
    assert forall|p: int, q: int|
        0 <= p < next.len() && 0 <= q < next.len() && p != q implies next[p] != next[q] by {
        if p < out.len() && q == out.len() {
            assert(out.contains(out[p]));
        }
        if q < out.len() && p == out.len() {
            assert(out.contains(out[q]));
        }
    }
}

/// Lists the indices of two sorted lists in one sorted list.
fn merge(keys: &[RankKey], left: &[usize], right: &[usize]) -> (res: Vec<usize>)
    requires
        forall|a: int| 0 <= a < left@.len() ==> #[trigger] left@[a] < keys@.len(),
        forall|b: int| 0 <= b < right@.len() ==> #[trigger] right@[b] < keys@.len(),
        forall|a: int, b: int|
            0 <= a < left@.len() && 0 <= b < right@.len() ==> #[trigger] left@[a]
                != #[trigger] right@[b],
        indices(left@).no_duplicates(),
        indices(right@).no_duplicates(),
        forall|whole: bool|
            carries_on(key_views(keys@), whole) ==> #[trigger] is_sorted(
                key_views(keys@),
                whole,
                indices(left@),
            ),
        forall|whole: bool|
            carries_on(key_views(keys@), whole) ==> #[trigger] is_sorted(
                key_views(keys@),
                whole,
                indices(right@),
            ),
    ensures
        res@.len() == left@.len() + right@.len(),
        indices(res@).no_duplicates(),
        forall|i: int|
            #[trigger] indices(res@).contains(i) <==> indices(left@).contains(i) || indices(
                right@,
            ).contains(i),
        forall|whole: bool|
            carries_on(key_views(keys@), whole) ==> #[trigger] is_sorted(
                key_views(keys@),
                whole,
                indices(res@),
            ),
{
    let ghost views = key_views(keys@);
    let ghost l = indices(left@);
    let ghost r = indices(right@);
    let mut res: Vec<usize> = Vec::new();
    let mut a: usize = 0;
    let mut b: usize = 0;
    assert(indices(res@) =~= Seq::empty());
    while a < left.len() || b < right.len()
        invariant
            a <= left@.len(),
            b <= right@.len(),
            views == key_views(keys@),
            l == indices(left@),
            r == indices(right@),
            forall|a: int| 0 <= a < l.len() ==> 0 <= #[trigger] l[a] < keys@.len(),
            forall|b: int| 0 <= b < r.len() ==> 0 <= #[trigger] r[b] < keys@.len(),
            forall|a: int, b: int|
                0 <= a < l.len() && 0 <= b < r.len() ==> #[trigger] l[a] != #[trigger] r[b],
            l.no_duplicates(),
            r.no_duplicates(),
            forall|whole: bool|
                carries_on(views, whole) ==> #[trigger] is_sorted(views, whole, l),
            forall|whole: bool|
                carries_on(views, whole) ==> #[trigger] is_sorted(views, whole, r),
            res@.len() == a + b,
            merged(indices(res@), l, a as int, r, b as int),
            forall|whole: bool|
                carries_on(views, whole) ==> #[trigger] leads(
                    views,
                    whole,
                    indices(res@),
                    l,
                    a as int,
                    r,
                    b as int,
                ),
        decreases left@.len() - a + right@.len() - b,
    {
        let ghost before = indices(res@);
        let ghost (i, j) = (a as int, b as int);
        let take_left = if a >= left.len() {
            false
        } else if b >= right.len() {
            true
        } else {
            proof {
                assert(l[i] == left@[i]);
                assert(r[j] == right@[j]);
                lemma_one_goes_before(views, l[i], r[j]);
            }
            is_before(keys, left[a], right[b])
        };
        if take_left {
            proof {
                assert(l[i] == left@[i]);
                lemma_take_merged(before, l, i, r, j);
                assert forall|whole: bool| carries_on(views, whole) implies #[trigger] leads(
                    views,
                    whole,
                    before.push(l[i]),
                    l,
                    i + 1,
                    r,
                    j,
                ) by {
                    assert(is_sorted(views, whole, l) && is_sorted(views, whole, r));
                    assert(leads(views, whole, before, l, i, r, j));
                    lemma_take_leads(views, whole, before, l, i, r, j);
                }
            }
            res.push(left[a]);
            assert(indices(res@) =~= before.push(l[i]));
            a = a + 1;
        } else {
            proof {
                assert(r[j] == right@[j]);
                lemma_take_merged(before, r, j, l, i);
                assert forall|whole: bool| carries_on(views, whole) implies #[trigger] leads(
                    views,
                    whole,
                    before.push(r[j]),
                    l,
                    i,
                    r,
                    j + 1,
                ) by {
                    assert(is_sorted(views, whole, l) && is_sorted(views, whole, r));
                    assert(leads(views, whole, before, l, i, r, j));
                    lemma_take_leads(views, whole, before, r, j, l, i);
                }
            }
            res.push(right[b]);
            assert(indices(res@) =~= before.push(r[j]));
            b = b + 1;
        }
    }
    proof {
        assert(l.take(l.len() as int) =~= l);
        assert(r.take(r.len() as int) =~= r);
        assert forall|whole: bool| carries_on(views, whole) implies #[trigger] is_sorted(
            views,
            whole,
            indices(res@),
        ) by {
            assert(leads(views, whole, indices(res@), l, a as int, r, b as int));
        }
    }
    res
}

/// Sorts the indices from `from` up to, but not including, `to`.
fn sort_range(keys: &[RankKey], from: usize, to: usize) -> (res: Vec<usize>)
    requires
        from <= to <= keys@.len(),
    ensures
        arranges(indices(res@), from as int, to as int),
        forall|whole: bool|
            carries_on(key_views(keys@), whole) ==> #[trigger] is_sorted(
                key_views(keys@),
                whole,
                indices(res@),
            ),
    decreases to - from,
{
    if to - from <= 1 {
        let mut single: Vec<usize> = Vec::new();
        if from < to {
            single.push(from);
            assert(indices(single@)[0] == from);
        }
        return single;
    }
    let middle: usize = from + (to - from) / 2;
    let left = sort_range(keys, from, middle);
    let right = sort_range(keys, middle, to);
    proof {
        let l = indices(left@);
        let r = indices(right@);
        assert forall|a: int| 0 <= a < left@.len() implies from <= #[trigger] left@[a] < middle by {
            assert(l.contains(l[a]));
        }
        assert forall|b: int| 0 <= b < right@.len() implies middle <= #[trigger] right@[b] < to by {
            assert(r.contains(r[b]));
        }
    }
    let res = merge(keys, left.as_slice(), right.as_slice());
    assert(indices(res@).len() == to - from);
    res
}

/// The order in which results with the given keys are shown: by key, the
/// greatest first, and those of equal keys as they came.
pub fn rank_order(keys: &[RankKey]) -> (res: Vec<usize>)
    ensures
        ranks(key_views(keys@), indices(res@)),
{
    let res = sort_range(keys, 0, keys.len());
    proof {
        let views = key_views(keys@);
        lemma_sorted_is_in_order(views, indices(res@));
        assert(is_sorted(views, false, indices(res@)));
        if comparable(views) {
            assert(is_sorted(views, true, indices(res@)));
        }
    }
    res
}

}
