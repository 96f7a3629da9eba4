//! Laws of versions and of how they compare.

use vstd::arithmetic::power::{lemma_pow0, pow};
use vstd::prelude::*;

use crate::laws::runs::{
    code, digit_code, law_character_classes, law_pieces_at_a_separator, law_uncut_text_is_one_piece,
    separates,
};
use crate::laws::tokens::{joined, law_pieces_join_to_the_text};
use crate::text::{is_digit, lemma_pieces, pieces, Separator};
use crate::version::{
    bare_of, conflicts_of, decimal, explicit_of, first_version, is_number, is_year, marked_of,
    marked_versions, matches_of, tier_of, version_at_of, version_near_of, VersionTier,
};

verus! {

/// A version matches itself, and what matches does not conflict.
pub proof fn law_match_excludes_conflict(requested: Seq<u32>, candidate: Seq<u32>)
    ensures
        matches_of(requested, requested),
        matches_of(requested, candidate) ==> !conflicts_of(requested, candidate),
{
    if matches_of(requested, candidate) {
        assert forall|i: int|
            0 <= i < requested.len() && i < candidate.len() implies #[trigger] requested[i]
            == candidate[i] by {
            assert(candidate.subrange(0, requested.len() as int)[i] == candidate[i]);
        }
    }
}

/// How precise a query is decides what matches it: a version that matches a
/// request also matches each less precise one.
pub proof fn law_less_precise_request_matches_more(
    vague: Seq<u32>,
    precise: Seq<u32>,
    candidate: Seq<u32>,
)
    requires
        vague.is_prefix_of(precise),
        matches_of(precise, candidate),
    ensures
        matches_of(vague, candidate),
{
    assert(candidate.subrange(0, vague.len() as int) =~= candidate.subrange(
        0,
        precise.len() as int,
    ).subrange(0, vague.len() as int));
}

/// A version that neither matches a request nor conflicts with it is a less
/// precise form of it, and such a form does neither.
pub proof fn law_undecided_is_less_precise(requested: Seq<u32>, candidate: Seq<u32>)
    ensures
        !matches_of(requested, candidate) && !conflicts_of(requested, candidate)
            <==> candidate.is_prefix_of(requested) && candidate.len() < requested.len(),
{
    if !matches_of(requested, candidate) && !conflicts_of(requested, candidate) {
        if candidate.len() >= requested.len() {
            assert(candidate.subrange(0, requested.len() as int) =~= requested);
        }
        assert(requested.subrange(0, candidate.len() as int) =~= candidate);
    }
    if candidate.is_prefix_of(requested) && candidate.len() < requested.len() {
        law_match_excludes_conflict(candidate, requested);
        law_conflict_is_symmetric(candidate, requested);
    }
}

/// Conflict goes both ways.
pub proof fn law_conflict_is_symmetric(a: Seq<u32>, b: Seq<u32>)
    ensures
        conflicts_of(a, b) <==> conflicts_of(b, a),
{
    if conflicts_of(a, b) {
        let i = choose|i: int| 0 <= i < a.len() && i < b.len() && #[trigger] a[i] != b[i];
        assert(b[i] != a[i]);
    }
    if conflicts_of(b, a) {
        let i = choose|i: int| 0 <= i < b.len() && i < a.len() && #[trigger] b[i] != a[i];
        assert(a[i] != b[i]);
    }
}

/// The tier depends only on which versions occur, not on their order or number.
pub proof fn law_tier_reads_a_set(requested: Seq<u32>, one: Seq<Seq<u32>>, other: Seq<Seq<u32>>)
    requires
        forall|v: Seq<u32>| #[trigger] one.contains(v) <==> other.contains(v),
    ensures
        tier_of(requested, one) == tier_of(requested, other),
{
    assert forall|i: int| 0 <= i < one.len() implies other.contains(#[trigger] one[i]) by {
        assert(one.contains(one[i]));
    }
    assert forall|i: int| 0 <= i < other.len() implies one.contains(#[trigger] other[i]) by {
        assert(other.contains(other[i]));
    }
}

/// A result that speaks of the requested version is a match, whatever other
/// versions it speaks of.
pub proof fn law_one_match_suffices(requested: Seq<u32>, candidates: Seq<Seq<u32>>, i: int)
    requires
        0 <= i < candidates.len(),
        matches_of(requested, candidates[i]),
    ensures
        tier_of(requested, candidates) == VersionTier::Match,
{
}

/// A result that speaks of no version is neutral.
pub proof fn law_silence_is_neutral(requested: Seq<u32>)
    ensures
        tier_of(requested, Seq::empty()) == VersionTier::Neutral,
{
}

/// A version has one to three components, and the first of them is no year.
pub proof fn law_version_shape(token: Seq<char>)
    ensures
        bare_of(token) is Some ==> 1 <= bare_of(token)->0.len() <= 3 && !is_year(
            bare_of(token)->0[0] as nat,
        ),
{
    lemma_pieces(token, Separator::Char('.'));
    let parts = pieces(token, Separator::Char('.'));
    if bare_of(token) is Some {
        assert(is_number(parts[0]));
    }
}

/// A text without a separator is its own only piece.
pub proof fn lemma_uncut(s: Seq<char>, sep: Separator)
    requires
        forall|i: int| 0 <= i < s.len() ==> !sep.cuts(#[trigger] s[i]),
    ensures
        pieces(s, sep) == seq![s],
    decreases s.len(),
{
    if s.len() == 0 {
        assert(s =~= Seq::empty());
    } else {
        lemma_uncut(s.drop_last(), sep);
        let before = pieces(s.drop_last(), sep);
        assert(before.last() == s.drop_last());
        assert(s.drop_last().push(s.last()) =~= s);
        assert(before.drop_last().push(s) =~= seq![s]);
    }
}

/// A single number is a version of one component, unless it is a year.
pub proof fn law_plain_number(token: Seq<char>)
    requires
        is_number(token),
    ensures
        is_year(decimal(token)) ==> bare_of(token) is None,
        !is_year(decimal(token)) ==> bare_of(token) == Some(seq![decimal(token) as u32]),
{
    lemma_uncut(token, Separator::Char('.'));
    let parts = pieces(token, Separator::Char('.'));
    assert(parts[0] == token);
    assert(parts.map_values(|part: Seq<char>| decimal(part) as u32) =~= seq![
        decimal(token) as u32,
    ]);
}

/// A `v` before a token marks exactly the versions that it writes without it.
pub proof fn law_explicit_is_bare_after_v(token: Seq<char>)
    ensures
        explicit_of(seq!['v'] + token) == bare_of(token),
        explicit_of(token) is Some ==> bare_of(token) is None,
{
    assert((seq!['v'] + token).drop_first() =~= token);
    if explicit_of(token) is Some && bare_of(token) is Some {
        lemma_first_char(token);
    }
}

/// The first piece of a text starts with its first character, if that is no
/// separator.
proof fn lemma_first_char(token: Seq<char>)
    requires
        token.len() > 0,
        token[0] != '.',
    ensures
        pieces(token, Separator::Char('.'))[0].len() > 0,
        pieces(token, Separator::Char('.'))[0][0] == token[0],
    decreases token.len(),
{
    let sep = Separator::Char('.');
    lemma_pieces(token.drop_last(), sep);
    if token.len() == 1 {
        assert(pieces(token.drop_last(), sep) =~= seq![Seq::<char>::empty()]);
    } else {
        lemma_first_char(token.drop_last());
    }
}

/// A candidate matches a request exactly if it has at least its components and
/// equals it in each of them.
pub proof fn law_match_is_equal_in_every_component(requested: Seq<u32>, candidate: Seq<u32>)
    ensures
        matches_of(requested, candidate) <==> requested.len() <= candidate.len() && forall|i: int|
            0 <= i < requested.len() ==> #[trigger] requested[i] == candidate[i],
{
    if matches_of(requested, candidate) {
        assert forall|i: int| 0 <= i < requested.len() implies #[trigger] requested[i]
            == candidate[i] by {
            assert(candidate.subrange(0, requested.len() as int)[i] == candidate[i]);
        }
    }
    if requested.len() <= candidate.len() && forall|i: int|
        0 <= i < requested.len() ==> #[trigger] requested[i] == candidate[i] {
        assert(requested =~= candidate.subrange(0, requested.len() as int));
    }
}

/// Versions that differ at an index that both of them have always conflict and
/// never match, whatever else they hold.
pub proof fn law_a_different_component_decides(one: Seq<u32>, other: Seq<u32>, i: int)
    requires
        0 <= i < one.len(),
        i < other.len(),
        one[i] != other[i],
    ensures
        conflicts_of(one, other),
        conflicts_of(other, one),
        !matches_of(one, other),
        !matches_of(other, one),
{
    law_match_is_equal_in_every_component(one, other);
    law_match_is_equal_in_every_component(other, one);
    law_conflict_is_symmetric(one, other);
}

/// Versions that are equal wherever both have a component do not conflict.
pub proof fn law_equal_components_do_not_conflict(one: Seq<u32>, other: Seq<u32>)
    requires
        forall|i: int| 0 <= i < one.len() && i < other.len() ==> #[trigger] one[i] == other[i],
    ensures
        !conflicts_of(one, other),
{
}

/// Two different versions of equal length never match, and always conflict.
pub proof fn law_different_versions_never_match(one: Seq<u32>, other: Seq<u32>)
    requires
        one.len() == other.len(),
        one != other,
    ensures
        !matches_of(one, other),
        conflicts_of(one, other),
{
    if forall|i: int| 0 <= i < one.len() ==> #[trigger] one[i] == other[i] {
        assert(one =~= other);
    }
    let i = choose|i: int| 0 <= i < one.len() && #[trigger] one[i] != other[i];
    law_a_different_component_decides(one, other, i);
}

/// A version refines a request by further components, and a version that has
/// fewer of them does not match it.
pub proof fn law_further_components_refine(requested: Seq<u32>, more: Seq<u32>)
    ensures
        matches_of(requested, requested + more),
        more.len() > 0 ==> !matches_of(requested + more, requested),
        !conflicts_of(requested, requested + more),
{
    law_match_is_equal_in_every_component(requested, requested + more);
    law_match_is_equal_in_every_component(requested + more, requested);
}

/// Whether a version equals a request in every component of it.
pub open spec fn refines(candidate: Seq<u32>, requested: Seq<u32>) -> bool {
    requested.len() <= candidate.len() && forall|i: int|
        0 <= i < requested.len() ==> #[trigger] requested[i] == candidate[i]
}

/// Whether a version differs from a request in a component that both have.
pub open spec fn departs(candidate: Seq<u32>, requested: Seq<u32>) -> bool {
    exists|i: int|
        0 <= i < requested.len() && i < candidate.len() && #[trigger] requested[i] != candidate[i]
}

/// A result is a match exactly if one of its versions refines the request, and a
/// mismatch exactly if none does and one differs from it.
pub proof fn law_tier(requested: Seq<u32>, candidates: Seq<Seq<u32>>)
    ensures
        tier_of(requested, candidates) == VersionTier::Match <==> exists|i: int|
            0 <= i < candidates.len() && refines(#[trigger] candidates[i], requested),
        tier_of(requested, candidates) == VersionTier::Mismatch <==> (exists|i: int|
            0 <= i < candidates.len() && departs(#[trigger] candidates[i], requested)) && !(exists|
            i: int,
        |
            0 <= i < candidates.len() && refines(#[trigger] candidates[i], requested)),
{
    assert forall|i: int| 0 <= i < candidates.len() implies refines(
        #[trigger] candidates[i],
        requested,
    ) == matches_of(requested, candidates[i]) && departs(candidates[i], requested) == conflicts_of(
        requested,
        candidates[i],
    ) by {
        law_match_is_equal_in_every_component(requested, candidates[i]);
    }
}

/// Digits after a number shift it by as many places and add what they write.
pub proof fn law_decimal_places(a: Seq<char>, b: Seq<char>)
    requires
        forall|i: int| 0 <= i < b.len() ==> digit_code(code(#[trigger] b[i])),
    ensures
        decimal(a + b) == decimal(a) * pow(10, b.len()) + decimal(b),
    decreases b.len(),
{
    if b.len() == 0 {
        assert(a + b =~= a);
        lemma_pow0(10);
    } else {
        let rest = b.drop_last();
        law_decimal_places(a, rest);
        assert((a + b).drop_last() =~= a + rest);
        assert((a + b).last() == b.last());
        reveal(pow);
        let x = decimal(a) as int;
        let p = pow(10, rest.len());
        assert(pow(10, b.len()) == 10 * p);
        assert(x * (10 * p) == (x * p) * 10) by (nonlinear_arith);
    }
}

/// A digit writes its distance from `0`.
pub proof fn law_decimal_digit(c: char)
    requires
        digit_code(code(c)),
    ensures
        decimal(seq![c]) == code(c) - 48,
        decimal(Seq::empty()) == 0,
{
    assert(seq![c].drop_last() =~= Seq::empty());
    assert(decimal(seq![c].drop_last()) == 0);
}

/// A number is made of digits alone, one at least, and is below two to the
/// thirty-second.  The years are those from 1900 to 2099.
pub proof fn law_numbers(s: Seq<char>, n: nat)
    ensures
        is_number(s) <==> s.len() > 0 && (forall|i: int|
            0 <= i < s.len() ==> digit_code(code(#[trigger] s[i]))) && decimal(s) < 0x1_0000_0000,
        is_year(n) <==> 1899 < n && n < 2100,
{
    assert forall|i: int| 0 <= i < s.len() implies digit_code(code(#[trigger] s[i]))
        == is_digit(s[i]) by {
        law_character_classes(s[i]);
    }
}

/// Whether a text is some numbers, three at most and the first of them no year,
/// with dots between them, and the numbers are the components of a version.
pub open spec fn writes(token: Seq<char>, numbers: Seq<Seq<char>>, version: Seq<u32>) -> bool {
    &&& 1 <= numbers.len() <= 3
    &&& token == joined(numbers, '.')
    &&& version.len() == numbers.len()
    &&& forall|i: int|
        0 <= i < numbers.len() ==> is_number(#[trigger] numbers[i]) && version[i] == decimal(
            numbers[i],
        )
    &&& !(1900 <= version[0] <= 2099)
}

/// A joined text has the pieces that it was joined of.
proof fn lemma_pieces_of_joined(parts: Seq<Seq<char>>, c: char)
    requires
        parts.len() > 0,
        forall|i: int| 0 <= i < parts.len() ==> !(#[trigger] parts[i]).contains(c),
    ensures
        pieces(joined(parts, c), Separator::Char(c)) == parts,
    decreases parts.len(),
{
    let sep = Separator::Char(c);
    let last = parts.last();
    assert(parts[parts.len() - 1] == last);
    assert forall|i: int| 0 <= i < last.len() implies !separates(
        sep,
        #[trigger] last[i],
    ) by {
        law_character_classes(last[i]);
        assert(sep.cuts(last[i]) <==> separates(sep, last[i]));
        if last[i] == c {
            assert(last.contains(c));
        }
    }
    law_uncut_text_is_one_piece(last, sep);
    if parts.len() == 1 {
        assert(parts =~= seq![last]);
    } else {
        lemma_pieces_of_joined(parts.drop_last(), c);
        law_pieces_at_a_separator(joined(parts.drop_last(), c), c, last, sep);
        assert(parts =~= parts.drop_last() + seq![last]);
    }
}

/// A token is a bare version exactly if it writes one.
pub proof fn law_bare_version(token: Seq<char>, version: Seq<u32>)
    ensures
        bare_of(token) == Some(version) <==> exists|numbers: Seq<Seq<char>>| #[trigger]
            writes(token, numbers, version),
{
    let sep = Separator::Char('.');
    let parts = pieces(token, sep);
    lemma_pieces(token, sep);
    law_pieces_join_to_the_text(token, '.');
    if bare_of(token) == Some(version) {
        assert(is_number(parts[0]));
        assert(writes(token, parts, version));
    }
    if exists|numbers: Seq<Seq<char>>| #[trigger] writes(token, numbers, version) {
        let numbers = choose|numbers: Seq<Seq<char>>| #[trigger] writes(token, numbers, version);
        assert forall|i: int| 0 <= i < numbers.len() implies !(#[trigger] numbers[i]).contains(
            '.',
        ) by {
            assert(is_number(numbers[i]));
            if numbers[i].contains('.') {
                let k = choose|k: int| 0 <= k < numbers[i].len() && numbers[i][k] == '.';
                assert(is_digit(numbers[i][k]));
            }
        }
        lemma_pieces_of_joined(numbers, '.');
        assert(parts == numbers);
        assert(is_number(numbers[0]));
        assert(parts.map_values(|part: Seq<char>| decimal(part) as u32) =~= version);
    }
}

/// A token marks a version itself exactly if it is a `v` before a bare one.
pub proof fn law_explicit_version(token: Seq<char>, version: Seq<u32>)
    ensures
        explicit_of(token) == Some(version) <==> exists|rest: Seq<char>|
            token == seq!['v'] + rest && #[trigger] bare_of(rest) == Some(version),
{
    if explicit_of(token) == Some(version) {
        let rest = token.drop_first();
        assert(token =~= seq!['v'] + rest);
        assert(bare_of(rest) == Some(version));
    }
    if exists|rest: Seq<char>|
        token == seq!['v'] + rest && #[trigger] bare_of(rest) == Some(version) {
        let rest = choose|rest: Seq<char>|
            token == seq!['v'] + rest && #[trigger] bare_of(rest) == Some(version);
        assert(token.drop_first() =~= rest);
    }
}

/// The word that announces a version.
pub open spec fn announcement() -> Seq<char> {
    seq!['v', 'e', 'r', 's', 'i', 'o', 'n']
}

/// A version is marked at an index by a `v` before it, or by the word before
/// the token that is the version, and by nothing else.
pub proof fn law_marked_version(before: Seq<Seq<char>>, token: Seq<char>, after: Seq<Seq<char>>)
    ensures
        ({
            let marked = marked_of(before + seq![token] + after, before.len() as int);
            &&& explicit_of(token) is Some ==> marked == explicit_of(token)
            &&& token == announcement() && after.len() > 0 ==> marked == bare_of(after[0])
            &&& token == announcement() && after.len() == 0 ==> marked is None
            &&& explicit_of(token) is None && token != announcement() ==> marked is None
        }),
{
    let all = before + seq![token] + after;
    assert(all[before.len() as int] == token);
    if after.len() > 0 {
        assert(all[before.len() as int + 1] == after[0]);
    }
    reveal_strlit("version");
    assert("version"@ =~= announcement());
    if token == announcement() {
        let rest = token.drop_first();
        lemma_first_char(rest);
        let sep = Separator::Char('.');
        let parts = pieces(rest, sep);
        lemma_pieces(rest, sep);
        assert(parts[0][0] == 'e');
        assert(!is_number(parts[0]));
        assert(explicit_of(token) is None);
    }
}

/// At an index stands a version that is marked there or, where bare ones are
/// allowed and none is marked, the bare one that the token there is; beyond the
/// tokens stands none.
pub proof fn law_version_at(tokens: Seq<Seq<char>>, i: int)
    ensures
        !(0 <= i < tokens.len()) ==> version_at_of(tokens, i, true) is None && version_at_of(
            tokens,
            i,
            false,
        ) is None,
        0 <= i < tokens.len() ==> version_at_of(tokens, i, false) == marked_of(tokens, i),
        0 <= i < tokens.len() && marked_of(tokens, i) is Some ==> version_at_of(tokens, i, true)
            == marked_of(tokens, i),
        0 <= i < tokens.len() && marked_of(tokens, i) is None ==> version_at_of(tokens, i, true)
            == bare_of(tokens[i]),
{
}

/// The first version of a range is the one at the least index of it at which
/// one stands.
pub proof fn law_first_version(
    tokens: Seq<Seq<char>>,
    from: int,
    to: int,
    allow_bare: bool,
    i: int,
)
    requires
        from <= i < to,
        version_at_of(tokens, i, allow_bare) is Some,
        forall|j: int| from <= j < i ==> #[trigger] version_at_of(tokens, j, allow_bare) is None,
    ensures
        first_version(tokens, from, to, allow_bare) == version_at_of(tokens, i, allow_bare),
    decreases i - from,
{
    if from < i {
        assert(version_at_of(tokens, from, allow_bare) is None);
        law_first_version(tokens, from + 1, to, allow_bare, i);
    }
}

/// A range in which no version stands has no first one.
pub proof fn law_no_first_version(tokens: Seq<Seq<char>>, from: int, to: int, allow_bare: bool)
    requires
        forall|j: int| from <= j < to ==> #[trigger] version_at_of(tokens, j, allow_bare) is None,
    ensures
        first_version(tokens, from, to, allow_bare) is None,
    decreases to - from,
{
    if from < to {
        assert(version_at_of(tokens, from, allow_bare) is None);
        law_no_first_version(tokens, from + 1, to, allow_bare);
    }
}

/// Near an index stands the version at it, or else the one at the next index,
/// or else the one at the index after that.
pub proof fn law_version_near(tokens: Seq<Seq<char>>, i: int, allow_bare: bool)
    ensures
        version_at_of(tokens, i, allow_bare) is Some ==> version_near_of(tokens, i, allow_bare)
            == version_at_of(tokens, i, allow_bare),
        version_at_of(tokens, i, allow_bare) is None && version_at_of(tokens, i + 1, allow_bare)
            is Some ==> version_near_of(tokens, i, allow_bare) == version_at_of(
            tokens,
            i + 1,
            allow_bare,
        ),
        version_at_of(tokens, i, allow_bare) is None && version_at_of(tokens, i + 1, allow_bare)
            is None ==> version_near_of(tokens, i, allow_bare) == version_at_of(
            tokens,
            i + 2,
            allow_bare,
        ),
{
    reveal_with_fuel(first_version, 4);
}

/// The versions that are marked are those at each index in turn.
pub proof fn law_marked_versions(tokens: Seq<Seq<char>>, bound: nat)
    ensures
        marked_versions(tokens, bound) == Seq::new(bound, |i: int| i).filter_map(
            |i: int| marked_of(tokens, i),
        ),
        forall|v: Seq<u32>| #[trigger]
            marked_versions(tokens, bound).contains(v) <==> exists|i: int|
                0 <= i < bound && #[trigger] marked_of(tokens, i) == Some(v),
    decreases bound,
{
    let all = Seq::new(bound, |i: int| i);
    let f = |i: int| marked_of(tokens, i);
    let after = marked_versions(tokens, bound);
    if bound == 0 {
        assert(after =~= all.filter_map(f));
    } else {
        let less = (bound - 1) as nat;
        law_marked_versions(tokens, less);
        let before = marked_versions(tokens, less);
        assert(all.drop_last() =~= Seq::new(less, |i: int| i));
        assert(all.last() == less);
        assert(f(all.last()) == marked_of(tokens, bound - 1));
        assert(after =~= all.filter_map(f));
        assert forall|v: Seq<u32>| #[trigger] after.contains(v) <==> exists|i: int|
            0 <= i < bound && #[trigger] marked_of(tokens, i) == Some(v) by {
            if after.contains(v) {
                let k = choose|k: int| 0 <= k < after.len() && after[k] == v;
                if k < before.len() {
                    assert(before[k] == v);
                    assert(before.contains(v));
                } else {
                    assert(marked_of(tokens, bound - 1) == Some(v));
                }
            }
            if exists|i: int| 0 <= i < bound && #[trigger] marked_of(tokens, i) == Some(v) {
                let i = choose|i: int| 0 <= i < bound && #[trigger] marked_of(tokens, i) == Some(v);
                if i < less {
                    assert(before.contains(v));
                    let k = choose|k: int| 0 <= k < before.len() && before[k] == v;
                    assert(after[k] == v);
                } else {
                    assert(after[before.len() as int] == v);
                }
            }
        }
    }
}

}
