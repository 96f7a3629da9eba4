//! Laws of what values stand for: every list keeps its items, each in its
//! place, and every record keeps its fields.

use vstd::prelude::*;

use crate::authority::{entry_text, entry_texts, Authority};
use crate::client::SearxngResult;
use crate::intent::QueryIntent;
use crate::ranking::{key_views, RankKey};
use crate::technical::{optional_text, referents, rows_in};
use crate::text::{indices, text_or_empty, texts, words};
use crate::version::{all_components, components, Version};
use crate::weburl::{parts_text, UrlParts};

verus! {

/// A list of strings stands for their texts, in their order.
pub proof fn law_strings_keep_their_places(strings: Seq<String>)
    ensures
        texts(strings).len() == strings.len(),
        forall|i: int| 0 <= i < strings.len() ==> #[trigger] texts(strings)[i] == strings[i]@,
{
}

/// A list of string slices stands for their texts, in their order.
pub proof fn law_words_keep_their_places(strs: Seq<&str>)
    ensures
        words(strs).len() == strs.len(),
        forall|i: int| 0 <= i < strs.len() ==> #[trigger] words(strs)[i] == strs[i]@,
{
}

/// A list of machine integers stands for the same integers, in their order.
pub proof fn law_indices_keep_their_places(numbers: Seq<usize>)
    ensures
        indices(numbers).len() == numbers.len(),
        forall|i: int| 0 <= i < numbers.len() ==> #[trigger] indices(numbers)[i] == numbers[i],
{
}

/// A version stands for its components, and a list of versions for theirs.
pub proof fn law_versions_keep_their_components(version: Version, versions: Seq<Version>)
    ensures
        version@ == version.0@,
        components(Some(version)) == Some(version.0@),
        components(None) is None,
        all_components(versions).len() == versions.len(),
        forall|i: int|
            0 <= i < versions.len() ==> #[trigger] all_components(versions)[i] == versions[i].0@,
{
}

/// An optional text is the text, or empty where there is none.
pub proof fn law_optional_texts(s: String)
    ensures
        text_or_empty(Some(s)) == s@,
        text_or_empty(None).len() == 0,
        optional_text(Some(s)) == Some(s@),
        optional_text(None) is None,
{
}

/// A key keeps each of its fields, and a list of keys keeps its keys.
pub proof fn law_keys_keep_their_fields(key: RankKey, keys: Seq<RankKey>)
    ensures
        key@.version == key.version,
        key@.authority == key.authority,
        key@.lexical == key.lexical,
        key@.freshness == key.freshness,
        key@.upstream == key.upstream,
        key_views(keys).len() == keys.len(),
        forall|i: int| 0 <= i < keys.len() ==> #[trigger] key_views(keys)[i] == keys[i]@,
{
}

/// A query's intent keeps each of its fields, and is well formed exactly if no
/// two of its terms are the same.
pub proof fn law_intents_keep_their_fields(intent: QueryIntent<'_>)
    ensures
        intent.authority is Some ==> intent@.authority == Some(intent.authority->0@),
        intent.authority is None ==> intent@.authority is None,
        intent.version is Some ==> intent@.version == Some((intent.version->0).0@),
        intent.version is None ==> intent@.version is None,
        intent@.entity.len() == intent.entity_tokens@.len(),
        forall|i: int|
            0 <= i < intent@.entity.len() ==> #[trigger] intent@.entity[i]
                == intent.entity_tokens@[i]@,
        intent@.terms.len() == intent.terms@.len(),
        forall|i: int|
            0 <= i < intent@.terms.len() ==> #[trigger] intent@.terms[i] == intent.terms@[i]@,
        intent.wf() <==> forall|i: int, j: int|
            0 <= i < j < intent.terms@.len() ==> (#[trigger] intent.terms@[i])@ != (
            #[trigger] intent.terms@[j])@,
{
    let terms = intent@.terms;
    assert forall|i: int| 0 <= i < terms.len() implies #[trigger] terms[i]
        == intent.terms@[i]@ by {}
    if intent.wf() {
        assert forall|i: int, j: int| 0 <= i < j < intent.terms@.len() implies (
        #[trigger] intent.terms@[i])@ != (#[trigger] intent.terms@[j])@ by {
            assert(terms[i] != terms[j]);
        }
    }
    if forall|i: int, j: int|
        0 <= i < j < intent.terms@.len() ==> (#[trigger] intent.terms@[i])@ != (
        #[trigger] intent.terms@[j])@ {
        assert forall|i: int, j: int|
            0 <= i < terms.len() && 0 <= j < terms.len() && i != j implies terms[i] != terms[j] by {
            if i < j {
                assert(intent.terms@[i]@ != intent.terms@[j]@);
            } else {
                assert(intent.terms@[j]@ != intent.terms@[i]@);
            }
        }
    }
}

/// An entry keeps its aliases, its domains and its repositories.
pub proof fn law_entries_keep_their_fields(entry: Authority, table: Seq<Authority>)
    ensures
        entry_text(Some(&entry)) == Some(entry@),
        entry_text(None) is None,
        entry@.aliases.len() == entry.aliases@.len(),
        forall|i: int|
            0 <= i < entry.aliases@.len() ==> #[trigger] entry@.aliases[i] == entry.aliases@[i]@,
        entry@.domains.len() == entry.domains@.len(),
        forall|i: int|
            0 <= i < entry.domains@.len() ==> #[trigger] entry@.domains[i] == entry.domains@[i]@,
        entry@.github_repos.len() == entry.github_repos@.len(),
        forall|i: int|
            0 <= i < entry.github_repos@.len() ==> #[trigger] entry@.github_repos[i] == (
                entry.github_repos@[i].0@,
                entry.github_repos@[i].1@,
            ),
        entry_texts(table).len() == table.len(),
        forall|i: int| 0 <= i < table.len() ==> #[trigger] entry_texts(table)[i] == table[i]@,
{
}

/// The parts of an address keep the host and the segments.
pub proof fn law_parts_keep_their_fields(parts: UrlParts)
    ensures
        parts_text(Some(parts)) == Some(parts@),
        parts_text(None) is None,
        parts.host is Some ==> parts@.host == Some(parts.host->0@) && parts@.host_or_empty()
            == parts.host->0@,
        parts.host is None ==> parts@.host is None && parts@.host_or_empty().len() == 0,
        parts.segments is Some ==> {
            &&& parts@.segments == Some(parts@.segments_or_empty())
            &&& parts@.segments_or_empty().len() == parts.segments->0@.len()
            &&& forall|i: int|
                0 <= i < parts.segments->0@.len() ==> #[trigger] parts@.segments_or_empty()[i]
                    == parts.segments->0@[i]@
        },
        parts.segments is None ==> parts@.segments is None && parts@.segments_or_empty().len() == 0,
{
}

/// Results in an order stand where the order puts them, and references stand
/// for what they refer to.
pub proof fn law_rows_keep_their_places(
    rows: Seq<SearxngResult>,
    order: Seq<int>,
    refs: Seq<&SearxngResult>,
)
    ensures
        rows_in(rows, order).len() == order.len(),
        forall|p: int|
            0 <= p < order.len() ==> #[trigger] rows_in(rows, order)[p] == rows[order[p]],
        referents(refs).len() == refs.len(),
        forall|p: int| 0 <= p < refs.len() ==> #[trigger] referents(refs)[p] == *refs[p],
{
}

}
