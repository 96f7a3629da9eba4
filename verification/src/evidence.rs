//! What a single result says: the versions that it speaks of, how many of the
//! search terms it holds, and when it was published.

use vstd::prelude::*;
use vstd::utf8::{encode_utf8, is_char_boundary};

use crate::intent::{IntentView, QueryIntent};
use crate::text::{
    all_phrase_starts, contains_text, indices, lemma_phrase_starts, phrase_positions, same_text,
    texts, tokens, tokens_of,
};
use crate::version::{
    all_components, bare_of, bare_version, collect_explicit_versions, components, explicit_of,
    explicit_version, marked_versions, version_at, version_at_of, Version,
};
use crate::weburl::{parse_url, url_parts_of, UrlParts, UrlPartsView};

verus! {

/// The versions, bare ones too, that stand at the indices from `from` up to,
/// but not including, `to`.
pub open spec fn versions_between(tokens: Seq<Seq<char>>, from: int, to: int) -> Seq<Seq<u32>>
    decreases to - from,
{
    if from >= to {
        Seq::empty()
    } else {
        let before = versions_between(tokens, from, to - 1);
        match version_at_of(tokens, to - 1, true) {
            Some(version) => before.push(version),
            None => before,
        }
    }
}

/// The versions that stand at one of the two indices before an occurrence of a
/// phrase of `length` tokens, and then at one of the three after it.
pub open spec fn versions_around(tokens: Seq<Seq<char>>, start: int, length: nat) -> Seq<Seq<u32>> {
    versions_between(tokens, if start < 2 {
        0
    } else {
        start - 2
    }, start) + versions_between(tokens, start + length, start + length + 3)
}

/// The versions around each of some occurrences of a phrase.
pub open spec fn versions_around_all(
    tokens: Seq<Seq<char>>,
    starts: Seq<int>,
    length: nat,
) -> Seq<Seq<u32>>
    decreases starts.len(),
{
    if starts.len() == 0 {
        Seq::empty()
    } else {
        versions_around_all(tokens, starts.drop_last(), length) + versions_around(
            tokens,
            starts.last(),
            length,
        )
    }
}

/// The versions that a text speaks of: for an official page those that are
/// marked as versions, wherever they stand, and for any page those that stand
/// around the name of the entity.
pub open spec fn text_versions(
    text: Seq<char>,
    entity: Seq<Seq<char>>,
    is_authority: bool,
) -> Seq<Seq<u32>> {
    let tokens = tokens_of(text);
    let marked = if is_authority {
        marked_versions(tokens, tokens.len())
    } else {
        Seq::empty()
    };
    marked + versions_around_all(tokens, all_phrase_starts(tokens, entity), entity.len())
}

/// The version that a path segment writes: one with a `v` before it, one with a
/// dot in it, or any that comes directly after a segment that announces it.
pub open spec fn segment_version(segments: Seq<Seq<char>>, index: int) -> Option<Seq<u32>> {
    let announced = index > 0 && (segments[index - 1] == "version"@ || segments[index - 1]
        == "versions"@);
    match explicit_of(segments[index]) {
        Some(version) => Some(version),
        None => if segments[index].contains('.') || announced {
            bare_of(segments[index])
        } else {
            None
        },
    }
}

/// The versions that the path segments at the indices below `bound` write.
pub open spec fn segment_versions(segments: Seq<Seq<char>>, bound: nat) -> Seq<Seq<u32>>
    decreases bound,
{
    if bound == 0 {
        Seq::empty()
    } else {
        let before = segment_versions(segments, (bound - 1) as nat);
        match segment_version(segments, bound - 1) {
            Some(version) => before.push(version),
            None => before,
        }
    }
}

/// The versions that the path of an address writes.
pub open spec fn path_versions_of(parts: UrlPartsView) -> Seq<Seq<u32>> {
    segment_versions(parts.segments_or_empty(), parts.segments_or_empty().len())
}

/// The versions that a result speaks of, given what its address parses to.
pub open spec fn versions_with(
    title: Seq<char>,
    content: Seq<char>,
    parts: Option<UrlPartsView>,
    entity: Seq<Seq<char>>,
    is_authority: bool,
) -> Seq<Seq<u32>> {
    let path = match parts {
        Some(parts) if is_authority => path_versions_of(parts),
        _ => Seq::empty(),
    };
    text_versions(title, entity, is_authority) + text_versions(content, entity, is_authority) + path
}

/// The versions that a result speaks of.
pub open spec fn candidates_of(
    title: Seq<char>,
    url: Seq<char>,
    content: Seq<char>,
    intent: IntentView,
    is_authority: bool,
) -> Seq<Seq<u32>> {
    versions_with(title, content, url_parts_of(url), intent.entity, is_authority)
}

/// What one term is worth: four where the title holds it, two where the address
/// does, one where the excerpt does.
pub open spec fn term_weight(
    term: Seq<char>,
    title: Seq<Seq<char>>,
    url: Seq<Seq<char>>,
    content: Seq<Seq<char>>,
) -> nat {
    (if title.contains(term) {
        4nat
    } else {
        0
    }) + (if url.contains(term) {
        2nat
    } else {
        0
    }) + (if content.contains(term) {
        1nat
    } else {
        0
    })
}

/// What some terms are worth together.
pub open spec fn total_weight(
    terms: Seq<Seq<char>>,
    title: Seq<Seq<char>>,
    url: Seq<Seq<char>>,
    content: Seq<Seq<char>>,
) -> nat
    decreases terms.len(),
{
    if terms.len() == 0 {
        0
    } else {
        total_weight(terms.drop_last(), title, url, content) + term_weight(
            terms.last(),
            title,
            url,
            content,
        )
    }
}

/// How well a result covers some search terms.
pub open spec fn lexical_of(
    terms: Seq<Seq<char>>,
    title: Seq<char>,
    url: Seq<char>,
    content: Seq<char>,
) -> nat {
    total_weight(terms, tokens_of(title), tokens_of(url), tokens_of(content))
}

/// Whether a byte is an ASCII decimal digit.
pub open spec fn is_digit_byte(b: u8) -> bool {
    '0' as u8 <= b <= '9' as u8
}

/// The number that the ASCII digits among some bytes write, read in a row.
pub open spec fn digits_value(bytes: Seq<u8>) -> nat
    decreases bytes.len(),
{
    if bytes.len() == 0 {
        0
    } else if is_digit_byte(bytes.last()) {
        digits_value(bytes.drop_last()) * 10 + (bytes.last() - '0' as u8) as nat
    } else {
        digits_value(bytes.drop_last())
    }
}

/// Whether a text starts with ten bytes that have the hyphens of an ISO 8601
/// date.
pub open spec fn starts_with_date(value: Seq<char>) -> bool {
    let bytes = encode_utf8(value);
    &&& bytes.len() >= 10
    &&& is_char_boundary(bytes, 10)
    &&& bytes[4] == '-' as u8
    &&& bytes[7] == '-' as u8
}

/// A date as the number that its digits write, so that a later date is a
/// greater number; zero for what is no date.
pub open spec fn date_of(value: Option<Seq<char>>) -> nat {
    match value {
        Some(text) if starts_with_date(text) => digits_value(encode_utf8(text).take(10)),
        _ => 0,
    }
}

/// Adds the versions that stand at the indices from `from` up to, but not
/// including, `from + count`.
fn collect_versions(tokens: &[String], from: usize, count: usize, output: &mut Vec<Version>)
    ensures
        all_components(final(output)@) == all_components(old(output)@) + versions_between(
            texts(tokens@),
            from as int,
            from + count,
        ),
{
    let ghost all = texts(tokens@);
    let ghost start = all_components(output@);
    let mut step: usize = 0;
    assert(start =~= start + versions_between(all, from as int, from as int));
    while step < count
        invariant
            step <= count,
            all == texts(tokens@),
            all_components(output@) == start + versions_between(all, from as int, from + step),
        decreases count - step,
    {
        let ghost before = all_components(output@);
        if from < tokens.len() && step < tokens.len() - from {
            match version_at(tokens, from + step, true) {
                Some(version) => {
                    let ghost found = version@;
                    output.push(version);
                    assert(all_components(output@) =~= before.push(found));
                },
                None => {},
            }
        }
        step = step + 1;
        assert(all_components(output@) =~= start + versions_between(all, from as int, from + step));
    }
}

/// Adds the versions that a text speaks of.
fn collect_text_versions(
    text: &str,
    entity: &[String],
    is_authority: bool,
    output: &mut Vec<Version>,
)
    ensures
        all_components(final(output)@) == all_components(old(output)@) + text_versions(
            text@,
            texts(entity@),
            is_authority,
        ),
{
    let text_tokens = tokens(text);
    let ghost all = texts(text_tokens@);
    let ghost name = texts(entity@);
    let ghost before = all_components(output@);
    if is_authority {
        collect_explicit_versions(text_tokens.as_slice(), output);
    }
    let ghost marked = all_components(output@);
    assert(marked =~= before + (if is_authority {
        marked_versions(all, all.len())
    } else {
        Seq::empty()
    }));
    let starts = phrase_positions(text_tokens.as_slice(), entity);
    let ghost all_starts = indices(starts@);
    let mut i: usize = 0;
    proof {
        lemma_phrase_starts(all, name, all.len());
        assert(marked =~= marked + versions_around_all(all, all_starts.take(0), name.len()));
    }
    while i < starts.len()
        invariant
            i <= starts@.len(),
            all == texts(text_tokens@),
            name == texts(entity@),
            all_starts == indices(starts@),
            forall|at: int|
                #[trigger] all_starts.contains(at) ==> 0 <= at && at + name.len() <= all.len(),
            all_components(output@) == marked + versions_around_all(
                all,
                all_starts.take(i as int),
                name.len(),
            ),
        decreases starts@.len() - i,
    {
        let start: usize = starts[i];
        let ghost so_far = all_components(output@);
        proof {
            assert(all_starts[i as int] == start);
            assert(all_starts.contains(all_starts[i as int]));
            assert(text_tokens.len() == all.len());
            assert(all_starts.take(i + 1).drop_last() =~= all_starts.take(i as int));
            assert(all_starts.take(i + 1).last() == start);
        }
        let first: usize = if start < 2 {
            0
        } else {
            start - 2
        };
        collect_versions(text_tokens.as_slice(), first, start - first, output);
        collect_versions(text_tokens.as_slice(), start + entity.len(), 3, output);
        proof {
            assert(all_components(output@) =~= so_far + versions_around(
                all,
                start as int,
                name.len(),
            ));
            assert(all_components(output@) =~= marked + versions_around_all(
                all,
                all_starts.take(i + 1),
                name.len(),
            ));
        }
        i = i + 1;
    }
    proof {
        assert(all_starts.take(all_starts.len() as int) =~= all_starts);
        assert(all_components(output@) =~= before + text_versions(text@, name, is_authority));
    }
}

/// Whether a text holds a dot.
fn has_dot(text: &str) -> (res: bool)
    ensures
        res == text@.contains('.'),
{
    for c in it: text.chars()
        invariant
            it.seq() == text@,
            forall|i: int| 0 <= i < it.index() ==> #[trigger] text@[i] != '.',
    {
        if c == '.' {
            assert(text@[it.index() as int] == '.');
            return true;
        }
    }
    false
}

/// The versions that the path of an address writes.
pub fn path_versions(parts: &UrlParts) -> (res: Vec<Version>)
    ensures
        all_components(res@) == path_versions_of(parts@),
{
    let mut found: Vec<Version> = Vec::new();
    assert(all_components(found@) =~= Seq::empty());
    match &parts.segments {
        Some(segments) => {
            let ghost all = texts(segments@);
            let mut i: usize = 0;
            while i < segments.len()
                invariant
                    i <= segments@.len(),
                    all == texts(segments@),
                    all_components(found@) == segment_versions(all, i as nat),
                decreases segments@.len() - i,
            {
                let ghost before = all_components(found@);
                let segment = segments[i].as_str();
                assert(segment@ == all[i as int]);
                let version = match explicit_version(segment) {
                    Some(version) => Some(version),
                    None => {
                        let announced = i > 0 && (same_text(segments[i - 1].as_str(), "version")
                            || same_text(segments[i - 1].as_str(), "versions"));
                        if has_dot(segment) || announced {
                            bare_version(segment)
                        } else {
                            None
                        }
                    },
                };
                assert(components(version) == segment_version(all, i as int));
                match version {
                    Some(version) => {
                        let ghost text = version@;
                        found.push(version);
                        assert(all_components(found@) =~= before.push(text));
                    },
                    None => {},
                }
                i = i + 1;
            }
        },
        None => {},
    }
    found
}

/// The versions that a result speaks of, given what its address parses to.
pub fn candidate_versions_parts(
    title: &str,
    content: &str,
    parts: Option<&UrlParts>,
    intent: &QueryIntent<'_>,
    is_authority: bool,
) -> (res: Vec<Version>)
    ensures
        all_components(res@) == versions_with(
            title@,
            content@,
            match parts {
                Some(parts) => Some(parts@),
                None => None,
            },
            intent@.entity,
            is_authority,
        ),
{
    let mut found: Vec<Version> = Vec::new();
    let entity = intent.entity_tokens.as_slice();
    assert(all_components(found@) =~= Seq::empty());
    collect_text_versions(title, entity, is_authority, &mut found);
    collect_text_versions(content, entity, is_authority, &mut found);
    let ghost text_part = all_components(found@);
    proof {
        assert(text_part =~= text_versions(title@, intent@.entity, is_authority) + text_versions(
            content@,
            intent@.entity,
            is_authority,
        ));
        assert(text_part =~= text_part + Seq::<Seq<u32>>::empty());
    }
    if is_authority {
        match parts {
            Some(parts) => {
                let mut more = path_versions(parts);
                let ghost path_part = all_components(more@);
                found.append(&mut more);
                assert(all_components(found@) =~= text_part + path_part);
            },
            None => {},
        }
    }
    found
}

/// The versions that a result speaks of.
pub fn candidate_versions(
    title: &str,
    url: &str,
    content: &str,
    intent: &QueryIntent<'_>,
    is_authority: bool,
) -> (res: Vec<Version>)
    ensures
        all_components(res@) == candidates_of(title@, url@, content@, intent@, is_authority),
{
    let parts = if is_authority {
        parse_url(url)
    } else {
        None
    };
    candidate_versions_parts(title, content, parts.as_ref(), intent, is_authority)
}

/// How well a result covers some search terms.
///
/// The sum is taken in 128 bits, where no number of terms makes it overflow.
pub fn lexical_score(terms: &[String], title: &str, url: &str, content: &str) -> (res: u128)
    ensures
        res == lexical_of(texts(terms@), title@, url@, content@),
{
    let title_tokens = tokens(title);
    let url_tokens = tokens(url);
    let content_tokens = tokens(content);
    let ghost all = texts(terms@);
    let mut score: u128 = 0;
    let mut i: usize = 0;
    while i < terms.len()
        invariant
            i <= terms@.len(),
            all == texts(terms@),
            score <= 7 * i,
            score == total_weight(
                all.take(i as int),
                texts(title_tokens@),
                texts(url_tokens@),
                texts(content_tokens@),
            ),
        decreases terms@.len() - i,
    {
        proof {
            assert(all.take(i + 1).drop_last() =~= all.take(i as int));
            assert(all.take(i + 1).last() == terms@[i as int]@);
        }
        let term = terms[i].as_str();
        if contains_text(title_tokens.as_slice(), term) {
            score = score + 4;
        }
        if contains_text(url_tokens.as_slice(), term) {
            score = score + 2;
        }
        if contains_text(content_tokens.as_slice(), term) {
            score = score + 1;
        }
        i = i + 1;
    }
    assert(all.take(all.len() as int) =~= all);
    score
}

/// What the number stays below that the digits among the first `n` bytes of a
/// date write.
pub open spec fn date_limit(n: int) -> nat {
    if n <= 0 {
        1
    } else if n <= 1 {
        10
    } else if n <= 2 {
        100
    } else if n <= 3 {
        1_000
    } else if n <= 5 {
        10_000
    } else if n <= 6 {
        100_000
    } else if n <= 8 {
        1_000_000
    } else if n <= 9 {
        10_000_000
    } else {
        100_000_000
    }
}

/// A date has at most eight digits.
pub proof fn lemma_date_digits(bytes: Seq<u8>, n: int)
    requires
        0 <= n <= 10 <= bytes.len(),
        bytes[4] == '-' as u8,
        bytes[7] == '-' as u8,
    ensures
        digits_value(bytes.take(n)) < date_limit(n),
    decreases n,
{
    if n > 0 {
        lemma_date_digits(bytes, n - 1);
        assert(bytes.take(n).drop_last() =~= bytes.take(n - 1));
        assert(bytes.take(n).last() == bytes[n - 1]);
    }
}

/// A date as the number that its digits write, or zero for what is no date.
pub fn parse_date(value: Option<&str>) -> (res: u32)
    ensures
        res == date_of(match value {
            Some(text) => Some(text@),
            None => None,
        }),
{
    let text = match value {
        Some(text) => text,
        None => {
            return 0;
        },
    };
    let bytes = text.as_bytes();
    if bytes.len() < 10 || !text.is_char_boundary(10) || bytes[4] != '-' as u8 || bytes[7]
        != '-' as u8 {
        return 0;
    }
    let mut number: u32 = 0;
    let mut i: usize = 0;
    assert(bytes@.take(0) =~= Seq::empty());
    while i < 10
        invariant
            i <= 10 <= bytes@.len(),
            number == digits_value(bytes@.take(i as int)),
            bytes@[4] == '-' as u8,
            bytes@[7] == '-' as u8,
        decreases 10 - i,
    {
        proof {
            assert(bytes@.take(i + 1).drop_last() =~= bytes@.take(i as int));
            assert(bytes@.take(i + 1).last() == bytes@[i as int]);
            lemma_date_digits(bytes@, i + 1);
        }
        let b: u8 = bytes[i];
        if '0' as u8 <= b && b <= '9' as u8 {
            number = number * 10 + (b - '0' as u8) as u32;
        }
        i = i + 1;
    }
    number
}

}
