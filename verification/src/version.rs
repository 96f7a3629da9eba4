//! Version numbers, where they stand in a list of tokens, and how a version
//! found in a result compares to the one that was asked for.

use vstd::prelude::*;

use crate::text::{is_digit, pieces, same_text, split, texts, Separator};

verus! {

/// A version number: one to three components, the first the most significant.
#[derive(Clone, Debug, Eq, PartialEq)]
pub struct Version(pub Vec<u32>);

impl View for Version {
    type V = Seq<u32>;

    open spec fn view(&self) -> Seq<u32> {
        self.0@
    }
}

/// How the versions that a result speaks of relate to the requested one.
#[derive(Clone, Copy, Debug, Eq, Ord, PartialEq, PartialOrd, Structural)]
pub enum VersionTier {
    /// It speaks of another version, and not of the requested one.
    Mismatch,
    /// It speaks of no version that says either.
    Neutral,
    /// It speaks of the requested version.
    Match,
}

/// The components of an optional version.
pub open spec fn components(version: Option<Version>) -> Option<Seq<u32>> {
    match version {
        Some(version) => Some(version@),
        None => None,
    }
}

/// The components of each version of a list.
pub open spec fn all_components(versions: Seq<Version>) -> Seq<Seq<u32>> {
    versions.map_values(|version: Version| version@)
}

/// The number that a text of decimal digits writes; zero for the empty text.
pub open spec fn decimal(digits: Seq<char>) -> nat
    decreases digits.len(),
{
    if digits.len() == 0 {
        0
    } else {
        decimal(digits.drop_last()) * 10 + (digits.last() as u32 - '0' as u32) as nat
    }
}

/// Whether a text is a decimal number that fits in 32 bits.
pub open spec fn is_number(s: Seq<char>) -> bool {
    &&& s.len() > 0
    &&& forall|i: int| 0 <= i < s.len() ==> is_digit(#[trigger] s[i])
    &&& decimal(s) <= u32::MAX
}

/// Whether a number reads as a calendar year.
pub open spec fn is_year(n: nat) -> bool {
    1900 <= n <= 2099
}

/// The version that a token writes as numbers with dots between them.  There
/// are at most three numbers, and the first of them is no year.
pub open spec fn bare_of(token: Seq<char>) -> Option<Seq<u32>> {
    let parts = pieces(token, Separator::Char('.'));
    if parts.len() <= 3 && (forall|i: int| 0 <= i < parts.len() ==> is_number(#[trigger] parts[i]))
        && !is_year(decimal(parts[0])) {
        Some(parts.map_values(|part: Seq<char>| decimal(part) as u32))
    } else {
        None
    }
}

/// The version that a token writes with a `v` before it.
pub open spec fn explicit_of(token: Seq<char>) -> Option<Seq<u32>> {
    if token.len() > 0 && token[0] == 'v' {
        bare_of(token.drop_first())
    } else {
        None
    }
}

/// The version that the token at an index marks as one: by a `v` before it,
/// or by being the word "version" before a version.
pub open spec fn marked_of(tokens: Seq<Seq<char>>, index: int) -> Option<Seq<u32>> {
    match explicit_of(tokens[index]) {
        Some(version) => Some(version),
        None => if tokens[index] == "version"@ && index + 1 < tokens.len() {
            bare_of(tokens[index + 1])
        } else {
            None
        },
    }
}

/// The version that stands at an index: one that is marked as such or else,
/// where `allow_bare` says so, a bare one.
pub open spec fn version_at_of(
    tokens: Seq<Seq<char>>,
    index: int,
    allow_bare: bool,
) -> Option<Seq<u32>> {
    if 0 <= index < tokens.len() {
        match marked_of(tokens, index) {
            Some(version) => Some(version),
            None => if allow_bare {
                bare_of(tokens[index])
            } else {
                None
            },
        }
    } else {
        None
    }
}

/// The first version that stands at an index from `from` up to, but not
/// including, `to`.
pub open spec fn first_version(
    tokens: Seq<Seq<char>>,
    from: int,
    to: int,
    allow_bare: bool,
) -> Option<Seq<u32>>
    decreases to - from,
{
    if from >= to {
        None
    } else {
        match version_at_of(tokens, from, allow_bare) {
            Some(version) => Some(version),
            None => first_version(tokens, from + 1, to, allow_bare),
        }
    }
}

/// The first version that stands at an index or at one of the two after it.
pub open spec fn version_near_of(
    tokens: Seq<Seq<char>>,
    index: int,
    allow_bare: bool,
) -> Option<Seq<u32>> {
    first_version(tokens, index, index + 3, allow_bare)
}

/// The versions that are marked as such at the indices below `bound`.
pub open spec fn marked_versions(tokens: Seq<Seq<char>>, bound: nat) -> Seq<Seq<u32>>
    decreases bound,
{
    if bound == 0 {
        Seq::empty()
    } else {
        let before = marked_versions(tokens, (bound - 1) as nat);
        match marked_of(tokens, bound - 1) {
            Some(version) => before.push(version),
            None => before,
        }
    }
}

/// Whether `candidate` is `requested`, or refines it by further components.
pub open spec fn matches_of(requested: Seq<u32>, candidate: Seq<u32>) -> bool {
    requested.is_prefix_of(candidate)
}

/// Whether two versions differ in a component that both of them give.
pub open spec fn conflicts_of(requested: Seq<u32>, candidate: Seq<u32>) -> bool {
    exists|i: int|
        0 <= i < requested.len() && i < candidate.len() && #[trigger] requested[i] != candidate[i]
}

/// The tier of a result that speaks of the given versions.
pub open spec fn tier_of(requested: Seq<u32>, candidates: Seq<Seq<u32>>) -> VersionTier {
    if exists|i: int|
        0 <= i < candidates.len() && matches_of(requested, #[trigger] candidates[i]) {
        VersionTier::Match
    } else if exists|i: int|
        0 <= i < candidates.len() && conflicts_of(requested, #[trigger] candidates[i]) {
        VersionTier::Mismatch
    } else {
        VersionTier::Neutral
    }
}

/// Further digits make a number no smaller.
proof fn lemma_decimal_grows(digits: Seq<char>, n: int)
    requires
        0 <= n <= digits.len(),
        forall|i: int| 0 <= i < digits.len() ==> is_digit(#[trigger] digits[i]),
    ensures
        decimal(digits.take(n)) <= decimal(digits),
    decreases digits.len(),
{
    if n == digits.len() {
        assert(digits.take(n) =~= digits);
    } else {
        lemma_decimal_grows(digits.drop_last(), n);
        assert(digits.drop_last().take(n) =~= digits.take(n));
    }
}

/// The number that a text writes, where it is one that fits in 32 bits.
pub fn parse_number(part: &str) -> (res: Option<u32>)
    ensures
        res is Some <==> is_number(part@),
        res is Some ==> res->0 == decimal(part@),
{
    if part.is_empty() {
        return None;
    }
    let mut value: u32 = 0;
    assert(part@.take(0) =~= Seq::empty());
    for c in it: part.chars()
        invariant
            it.seq() == part@,
            forall|i: int| 0 <= i < it.index() ==> is_digit(#[trigger] part@[i]),
            value == decimal(part@.take(it.index() as int)),
    {
        assert(c == part@[it.index() as int]);
        if !('0' <= c && c <= '9') {
            return None;
        }
        let next: u64 = value as u64 * 10 + (c as u32 - '0' as u32) as u64;
        proof {
            let here = part@.take(it.index() + 1);
            assert(here.drop_last() =~= part@.take(it.index() as int));
            assert(here.last() == c);
            assert(next == decimal(here));
            if next > u32::MAX && is_number(part@) {
                lemma_decimal_grows(part@, it.index() + 1);
            }
        }
        if next > u32::MAX as u64 {
            return None;
        }
        value = next as u32;
    }
    assert(part@.take(part@.len() as int) =~= part@);
    Some(value)
}

/// The version that a token writes as numbers with dots between them.
pub fn bare_version(token: &str) -> (res: Option<Version>)
    ensures
        components(res) == bare_of(token@),
{
    let parts = split(token, Separator::Char('.'));
    let ghost all = pieces(token@, Separator::Char('.'));
    if parts.len() > 3 {
        return None;
    }
    let mut numbers: Vec<u32> = Vec::new();
    let mut i: usize = 0;
    while i < parts.len()
        invariant
            i <= parts@.len(),
            texts(parts@) == all,
            all == pieces(token@, Separator::Char('.')),
            numbers@.len() == i,
            forall|j: int| 0 <= j < i ==> is_number(#[trigger] all[j]),
            forall|j: int| 0 <= j < i ==> #[trigger] numbers@[j] == decimal(all[j]),
        decreases parts@.len() - i,
    {
        assert(all[i as int] == parts@[i as int]@);
        match parse_number(parts[i].as_str()) {
            Some(number) => {
                numbers.push(number);
            },
            None => {
                return None;
            },
        }
        i = i + 1;
    }
    proof {
        crate::text::lemma_pieces(token@, Separator::Char('.'));
        assert(numbers@ =~= all.map_values(|part: Seq<char>| decimal(part) as u32));
    }
    if 1900 <= numbers[0] && numbers[0] <= 2099 {
        return None;
    }
    Some(Version(numbers))
}

/// The version that a token writes with a `v` before it.
pub fn explicit_version(token: &str) -> (res: Option<Version>)
    ensures
        components(res) == explicit_of(token@),
{
    if token.is_empty() || token.get_char(0) != 'v' {
        return None;
    }
    let rest = token.substring_char(1, token.unicode_len());
    assert(rest@ =~= token@.drop_first());
    bare_version(rest)
}

/// The version that the token at an index marks as one.
pub(crate) fn marked_version(tokens: &[String], index: usize) -> (res: Option<Version>)
    requires
        index < tokens@.len(),
    ensures
        components(res) == marked_of(texts(tokens@), index as int),
{
    let token = tokens[index].as_str();
    match explicit_version(token) {
        Some(version) => Some(version),
        None => if same_text(token, "version") && index + 1 < tokens.len() {
            bare_version(tokens[index + 1].as_str())
        } else {
            None
        },
    }
}

/// The version that stands at an index.
pub fn version_at(tokens: &[String], index: usize, allow_bare: bool) -> (res: Option<Version>)
    ensures
        components(res) == version_at_of(texts(tokens@), index as int, allow_bare),
{
    if index >= tokens.len() {
        return None;
    }
    match marked_version(tokens, index) {
        Some(version) => Some(version),
        None => if allow_bare {
            bare_version(tokens[index].as_str())
        } else {
            None
        },
    }
}

/// The first version that stands at an index or at one of the two after it.
pub fn version_near(tokens: &[String], index: usize, allow_bare: bool) -> (res: Option<Version>)
    ensures
        components(res) == version_near_of(texts(tokens@), index as int, allow_bare),
{
    let mut step: usize = 0;
    while step < 3 && index < tokens.len() && step < tokens.len() - index
        invariant
            step <= 3,
            version_near_of(texts(tokens@), index as int, allow_bare) == first_version(
                texts(tokens@),
                index + step,
                index + 3,
                allow_bare,
            ),
        decreases 3 - step,
    {
        let version = version_at(tokens, index + step, allow_bare);
        if version.is_some() {
            return version;
        }
        step = step + 1;
    }
    proof {
        reveal_with_fuel(first_version, 4);
    }
    None
}

/// Adds the versions that are marked as such to a list.
pub fn collect_explicit_versions(tokens: &[String], output: &mut Vec<Version>)
    ensures
        all_components(final(output)@) == all_components(old(output)@) + marked_versions(
            texts(tokens@),
            tokens@.len(),
        ),
{
    let mut index: usize = 0;
    let ghost start = all_components(output@);
    assert(start =~= start + marked_versions(texts(tokens@), 0));
    while index < tokens.len()
        invariant
            index <= tokens@.len(),
            all_components(output@) == start + marked_versions(texts(tokens@), index as nat),
        decreases tokens@.len() - index,
    {
        let ghost before = all_components(output@);
        match marked_version(tokens, index) {
            Some(version) => {
                let ghost found = version@;
                output.push(version);
                assert(all_components(output@) =~= before.push(found));
            },
            None => {},
        }
        index = index + 1;
        assert(all_components(output@) =~= start + marked_versions(texts(tokens@), index as nat));
    }
}

/// Whether `candidate` is `requested`, or refines it by further components.
pub fn version_matches(requested: &Version, candidate: &Version) -> (res: bool)
    ensures
        res == matches_of(requested@, candidate@),
{
    if candidate.0.len() < requested.0.len() {
        return false;
    }
    let mut i: usize = 0;
    while i < requested.0.len()
        invariant
            i <= requested@.len() <= candidate@.len(),
            forall|j: int| 0 <= j < i ==> requested@[j] == candidate@[j],
        decreases requested@.len() - i,
    {
        if requested.0[i] != candidate.0[i] {
            assert(candidate@.subrange(0, requested@.len() as int)[i as int] != requested@[i as int]);
            return false;
        }
        i = i + 1;
    }
    assert(candidate@.subrange(0, requested@.len() as int) =~= requested@);
    true
}

/// Whether two versions differ in a component that both of them give.
pub fn version_conflicts(requested: &Version, candidate: &Version) -> (res: bool)
    ensures
        res == conflicts_of(requested@, candidate@),
{
    let mut i: usize = 0;
    while i < requested.0.len() && i < candidate.0.len()
        invariant
            i <= requested@.len(),
            i <= candidate@.len(),
            forall|j: int| 0 <= j < i ==> requested@[j] == candidate@[j],
        decreases requested@.len() - i,
    {
        if requested.0[i] != candidate.0[i] {
            return true;
        }
        i = i + 1;
    }
    false
}

/// The tier of a result that speaks of the given versions.
pub fn classify_versions(requested: &Version, candidates: &[Version]) -> (res: VersionTier)
    ensures
        res == tier_of(requested@, all_components(candidates@)),
{
    let ghost all = all_components(candidates@);
    let mut conflict = false;
    let mut i: usize = 0;
    while i < candidates.len()
        invariant
            i <= candidates@.len(),
            all == all_components(candidates@),
            forall|j: int| 0 <= j < i ==> !matches_of(requested@, #[trigger] all[j]),
            conflict == exists|j: int| 0 <= j < i && conflicts_of(requested@, #[trigger] all[j]),
        decreases candidates@.len() - i,
    {
        assert(all[i as int] == candidates@[i as int]@);
        if version_matches(requested, &candidates[i]) {
            return VersionTier::Match;
        }
        if version_conflicts(requested, &candidates[i]) {
            conflict = true;
        }
        i = i + 1;
    }
    if conflict {
        VersionTier::Mismatch
    } else {
        VersionTier::Neutral
    }
}

}
