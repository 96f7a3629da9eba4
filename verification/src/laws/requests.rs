//! Laws of how a query is read, one for each thing that it may ask for.

use vstd::prelude::*;
use vstd::utf8::encode_utf8;

use crate::authority::{authority_table, longest_alias, named_authority, named_entry, AuthorityView};
use crate::intent::{
    distinct, first_marked, intent_of, known_version, last_items, marked_request, search_term,
    search_terms, stop_words, version_after,
};
use crate::laws::queries::{law_longest_alias, law_named_entry};
use crate::laws::runs::{law_all_phrase_starts, occurs_at};
use crate::laws::tokens::law_tokens_ignore_case;
use crate::laws::versions::{law_first_version, law_no_first_version};
use crate::text::{all_phrase_starts, has_phrase, lowered, tokens_of};
use crate::version::{bare_of, explicit_of, marked_of, version_at_of};

verus! {

/// Whether a word is too common to say what a query is about.
pub open spec fn common(word: Seq<char>) -> bool {
    ||| word == "a"@
    ||| word == "an"@
    ||| word == "and"@
    ||| word == "current"@
    ||| word == "documentation"@
    ||| word == "docs"@
    ||| word == "for"@
    ||| word == "how"@
    ||| word == "in"@
    ||| word == "latest"@
    ||| word == "official"@
    ||| word == "or"@
    ||| word == "the"@
    ||| word == "to"@
    ||| word == "version"@
    ||| word == "with"@
}

/// A token is a search term exactly if it is not too common and writes no
/// version, neither a bare one nor one after a `v`.
pub proof fn law_search_term(token: Seq<char>)
    ensures
        search_term(token) <==> !common(token) && explicit_of(token) is None && bare_of(token) is None,
{
    let list = stop_words();
    if common(token) {
        assert(list[0] == "a"@ && list[1] == "an"@ && list[2] == "and"@ && list[3] == "current"@);
        assert(list[4] == "documentation"@ && list[5] == "docs"@ && list[6] == "for"@);
        assert(list[7] == "how"@ && list[8] == "in"@ && list[9] == "latest"@);
        assert(list[10] == "official"@ && list[11] == "or"@ && list[12] == "the"@);
        assert(list[13] == "to"@ && list[14] == "version"@ && list[15] == "with"@);
        assert(list.contains(token));
    }
    if list.contains(token) {
        let k = choose|k: int| 0 <= k < list.len() && list[k] == token;
        assert(common(token));
    }
}

/// The search terms among some tokens are the tokens without all others.
pub proof fn law_search_terms(tokens: Seq<Seq<char>>)
    ensures
        search_terms(tokens) == tokens.filter(|t: Seq<char>| search_term(t)),
    decreases tokens.len(),
{
    reveal(Seq::filter);
    if tokens.len() > 0 {
        law_search_terms(tokens.drop_last());
    } else {
        assert(tokens =~= Seq::empty());
    }
}

/// What is kept of two lists in a row is what is kept of the first and, of what
/// is kept of the second, all that the first does not hold.
pub proof fn law_distinct(a: Seq<Seq<char>>, b: Seq<Seq<char>>)
    ensures
        distinct(a + b) == distinct(a) + distinct(b).filter(|t: Seq<char>| !a.contains(t)),
    decreases b.len(),
{
    reveal(Seq::filter);
    let new = |t: Seq<char>| !a.contains(t);
    if b.len() == 0 {
        assert(a + b =~= a);
        assert(distinct(b) =~= Seq::<Seq<char>>::empty());
        assert(distinct(b).filter(new) =~= Seq::<Seq<char>>::empty());
        assert(distinct(a) + distinct(b).filter(new) =~= distinct(a));
    } else {
        let rest = b.drop_last();
        let t = b.last();
        law_distinct(a, rest);
        assert((a + b).drop_last() =~= a + rest);
        assert((a + b).last() == t);
        lemma_kept(a + rest);
        lemma_kept(rest);
        assert((a + rest).contains(t) <==> a.contains(t) || rest.contains(t)) by {
            if a.contains(t) {
                let k = choose|k: int| 0 <= k < a.len() && a[k] == t;
                assert((a + rest)[k] == t);
            }
            if rest.contains(t) {
                let k = choose|k: int| 0 <= k < rest.len() && rest[k] == t;
                assert((a + rest)[a.len() + k] == t);
            }
            if (a + rest).contains(t) {
                let k = choose|k: int| 0 <= k < (a + rest).len() && (a + rest)[k] == t;
                if k >= a.len() {
                    assert(rest[k - a.len()] == t);
                }
            }
        }
        assert(distinct(a + rest).contains(t) <==> a.contains(t) || rest.contains(t));
        if !rest.contains(t) {
            assert(distinct(b) == distinct(rest).push(t));
            assert(distinct(b).drop_last() =~= distinct(rest));
            assert(distinct(b).last() == t);
            assert(new(t) <==> !a.contains(t));
        }
        assert(distinct(a + b) =~= distinct(a) + distinct(b).filter(new));
    }
}

/// A list of one item is kept whole, and nothing is kept of an empty one.
pub proof fn law_distinct_of_one(t: Seq<char>)
    ensures
        distinct(seq![t]) == seq![t],
        distinct(Seq::empty()) == Seq::<Seq<char>>::empty(),
{
    let one = seq![t];
    assert(one.drop_last() =~= Seq::empty());
    assert(distinct(one.drop_last()) =~= Seq::<Seq<char>>::empty());
    assert(distinct(one) =~= one);
}

/// What is kept of a list holds what the list holds.
proof fn lemma_kept(list: Seq<Seq<char>>)
    ensures
        forall|t: Seq<char>| #[trigger] distinct(list).contains(t) <==> list.contains(t),
{
    crate::laws::queries::lemma_distinct(list);
}

/// The last items of a list are the end of it: as many as were asked for, or
/// all of a list that has no more.
pub proof fn law_last_items(front: Seq<Seq<char>>, back: Seq<Seq<char>>)
    ensures
        last_items(front + back, back.len() as int) == back,
        forall|n: int| n >= back.len() ==> #[trigger] last_items(back, n) == back,
{
    let all = front + back;
    if all.len() <= back.len() {
        assert(all =~= back);
    } else {
        assert(all.skip(all.len() - back.len()) =~= back);
    }
}

/// Whether a version stands at an index that is one of the three after a phrase
/// that starts at `at`.
pub open spec fn follows(
    tokens: Seq<Seq<char>>,
    phrase: Seq<Seq<char>>,
    at: int,
    i: int,
) -> bool {
    &&& occurs_at(tokens, phrase, at)
    &&& at + phrase.len() <= i < at + phrase.len() + 3
    &&& version_at_of(tokens, i, true) is Some
}

/// Whether no version follows a phrase.
pub open spec fn unfollowed(tokens: Seq<Seq<char>>, phrase: Seq<Seq<char>>) -> bool {
    forall|at: int, i: int| !#[trigger] follows(tokens, phrase, at, i)
}

/// Whether no version follows any of some aliases.
pub open spec fn all_unfollowed(tokens: Seq<Seq<char>>, aliases: Seq<Seq<char>>) -> bool {
    forall|a: int|
        0 <= a < aliases.len() ==> unfollowed(tokens, tokens_of(#[trigger] aliases[a]))
}

/// Whether the version at `i` is the first to follow the first occurrence that
/// one follows of the first alias that one follows: the one at `a`, which
/// starts at `at`.
pub open spec fn first_to_follow(
    tokens: Seq<Seq<char>>,
    aliases: Seq<Seq<char>>,
    a: int,
    at: int,
    i: int,
) -> bool {
    let phrase = tokens_of(aliases[a]);
    &&& 0 <= a < aliases.len()
    &&& all_unfollowed(tokens, aliases.take(a))
    &&& follows(tokens, phrase, at, i)
    &&& forall|earlier: int, j: int| earlier < at ==> !#[trigger] follows(tokens, phrase, earlier, j)
    &&& forall|j: int| j < i ==> !#[trigger] follows(tokens, phrase, at, j)
}

/// Where no version follows any of some occurrences, none is found after them.
proof fn lemma_none_after(tokens: Seq<Seq<char>>, phrase: Seq<Seq<char>>, starts: Seq<int>)
    requires
        forall|k: int| 0 <= k < starts.len() ==> #[trigger] occurs_at(tokens, phrase, starts[k]),
        forall|k: int, i: int|
            0 <= k < starts.len() ==> !#[trigger] follows(tokens, phrase, starts[k], i),
    ensures
        version_after(tokens, starts, phrase.len()) is None,
    decreases starts.len(),
{
    if starts.len() > 0 {
        let from = starts[0] + phrase.len();
        assert(occurs_at(tokens, phrase, starts[0]));
        assert forall|j: int| from <= j < from + 3 implies #[trigger] version_at_of(
            tokens,
            j,
            true,
        ) is None by {
            assert(!follows(tokens, phrase, starts[0], j));
        }
        law_no_first_version(tokens, from, from + 3, true);
        let rest = starts.drop_first();
        assert forall|k: int| 0 <= k < rest.len() implies #[trigger] occurs_at(
            tokens,
            phrase,
            rest[k],
        ) by {
            assert(occurs_at(tokens, phrase, starts[k + 1]));
        }
        assert forall|k: int, i: int| 0 <= k < rest.len() implies !#[trigger] follows(
            tokens,
            phrase,
            rest[k],
            i,
        ) by {
            assert(!follows(tokens, phrase, starts[k + 1], i));
        }
        lemma_none_after(tokens, phrase, rest);
    }
}

/// The first version after the first occurrence that one follows is the one
/// that is found.
proof fn lemma_found_after(
    tokens: Seq<Seq<char>>,
    phrase: Seq<Seq<char>>,
    starts: Seq<int>,
    k: int,
    i: int,
)
    requires
        0 <= k < starts.len(),
        forall|m: int| 0 <= m < starts.len() ==> #[trigger] occurs_at(tokens, phrase, starts[m]),
        follows(tokens, phrase, starts[k], i),
        forall|m: int, j: int| 0 <= m < k ==> !#[trigger] follows(tokens, phrase, starts[m], j),
        forall|j: int| j < i ==> !#[trigger] follows(tokens, phrase, starts[k], j),
    ensures
        version_after(tokens, starts, phrase.len()) == version_at_of(tokens, i, true),
    decreases starts.len(),
{
    let from = starts[0] + phrase.len();
    if k == 0 {
        assert forall|j: int| from <= j < i implies #[trigger] version_at_of(
            tokens,
            j,
            true,
        ) is None by {
            assert(!follows(tokens, phrase, starts[0], j));
        }
        law_first_version(tokens, from, from + 3, true, i);
    } else {
        assert(occurs_at(tokens, phrase, starts[0]));
        assert forall|j: int| from <= j < from + 3 implies #[trigger] version_at_of(
            tokens,
            j,
            true,
        ) is None by {
            assert(!follows(tokens, phrase, starts[0], j));
        }
        law_no_first_version(tokens, from, from + 3, true);
        let rest = starts.drop_first();
        assert(rest[k - 1] == starts[k]);
        assert forall|m: int| 0 <= m < rest.len() implies #[trigger] occurs_at(
            tokens,
            phrase,
            rest[m],
        ) by {
            assert(occurs_at(tokens, phrase, starts[m + 1]));
        }
        assert forall|m: int, j: int| 0 <= m < k - 1 implies !#[trigger] follows(
            tokens,
            phrase,
            rest[m],
            j,
        ) by {
            assert(!follows(tokens, phrase, starts[m + 1], j));
        }
        lemma_found_after(tokens, phrase, rest, k - 1, i);
    }
}

/// The starts of a phrase are occurrences of it.
proof fn lemma_starts_occur(tokens: Seq<Seq<char>>, phrase: Seq<Seq<char>>)
    ensures
        forall|k: int|
            0 <= k < all_phrase_starts(tokens, phrase).len() ==> #[trigger] occurs_at(
                tokens,
                phrase,
                all_phrase_starts(tokens, phrase)[k],
            ),
{
    law_all_phrase_starts(tokens, phrase);
    let starts = all_phrase_starts(tokens, phrase);
    assert forall|k: int| 0 <= k < starts.len() implies #[trigger] occurs_at(
        tokens,
        phrase,
        starts[k],
    ) by {
        assert(starts.contains(starts[k]));
    }
}

/// Where no version follows an alias of a project, none is found by its name.
pub proof fn law_no_known_version(tokens: Seq<Seq<char>>, aliases: Seq<Seq<char>>)
    requires
        all_unfollowed(tokens, aliases),
    ensures
        known_version(tokens, aliases) is None,
    decreases aliases.len(),
{
    if aliases.len() > 0 {
        let alias = tokens_of(aliases[0]);
        lemma_starts_occur(tokens, alias);
        assert(unfollowed(tokens, alias));
        lemma_none_after(tokens, alias, all_phrase_starts(tokens, alias));
        let rest = aliases.drop_first();
        assert forall|a: int| 0 <= a < rest.len() implies unfollowed(
            tokens,
            tokens_of(#[trigger] rest[a]),
        ) by {
            assert(rest[a] == aliases[a + 1]);
        }
        law_no_known_version(tokens, rest);
    }
}

/// The version of a known project is the first one that follows its name, and
/// the name is the alias that it follows.
pub proof fn law_known_version(
    tokens: Seq<Seq<char>>,
    aliases: Seq<Seq<char>>,
    a: int,
    at: int,
    i: int,
)
    requires
        first_to_follow(tokens, aliases, a, at, i),
    ensures
        known_version(tokens, aliases) == Some(
            (tokens_of(aliases[a]), version_at_of(tokens, i, true)->0),
        ),
    decreases aliases.len(),
{
    let alias = tokens_of(aliases[0]);
    let starts = all_phrase_starts(tokens, alias);
    lemma_starts_occur(tokens, alias);
    law_all_phrase_starts(tokens, alias);
    if a == 0 {
        assert(starts.contains(at));
        let k = choose|k: int| 0 <= k < starts.len() && starts[k] == at;
        assert forall|m: int, j: int| 0 <= m < k implies !#[trigger] follows(
            tokens,
            alias,
            starts[m],
            j,
        ) by {
            assert(starts[m] < starts[k]);
        }
        lemma_found_after(tokens, alias, starts, k, i);
    } else {
        assert(aliases.take(a)[0] == aliases[0]);
        assert(unfollowed(tokens, alias));
        lemma_none_after(tokens, alias, starts);
        let rest = aliases.drop_first();
        assert(rest[a - 1] == aliases[a]);
        assert forall|b: int| 0 <= b < rest.take(a - 1).len() implies unfollowed(
            tokens,
            tokens_of(#[trigger] rest.take(a - 1)[b]),
        ) by {
            assert(rest.take(a - 1)[b] == aliases.take(a)[b + 1]);
        }
        law_known_version(tokens, rest, a - 1, at, i);
    }
}

/// The first marked index is the least one at which a version is marked.
pub proof fn law_first_marked(tokens: Seq<Seq<char>>, from: int, i: int)
    requires
        0 <= from <= i < tokens.len(),
        marked_of(tokens, i) is Some,
        forall|j: int| from <= j < i ==> #[trigger] marked_of(tokens, j) is None,
    ensures
        first_marked(tokens, from) == Some(i),
    decreases i - from,
{
    if from < i {
        assert(marked_of(tokens, from) is None);
        law_first_marked(tokens, from + 1, i);
    }
}

/// Where no version is marked there is no first marked index.
pub proof fn law_none_marked(tokens: Seq<Seq<char>>, from: int)
    requires
        forall|j: int| from <= j < tokens.len() ==> #[trigger] marked_of(tokens, j) is None,
    ensures
        first_marked(tokens, from) is None,
    decreases tokens.len() - from,
{
    if from < tokens.len() {
        assert(marked_of(tokens, from) is None);
        law_none_marked(tokens, from + 1);
    }
}

/// Tokens ask for the first version that they mark, of the last two search
/// terms before it, or of the only one, or of none.
pub proof fn law_marked_request(
    tokens: Seq<Seq<char>>,
    i: int,
    front: Seq<Seq<char>>,
    name: Seq<Seq<char>>,
)
    requires
        0 <= i < tokens.len(),
        marked_of(tokens, i) is Some,
        forall|j: int| 0 <= j < i ==> #[trigger] marked_of(tokens, j) is None,
        tokens.take(i).filter(|t: Seq<char>| search_term(t)) == front + name,
        name.len() == 2 || (name.len() < 2 && front.len() == 0),
    ensures
        marked_request(tokens) == (name, marked_of(tokens, i)),
{
    law_first_marked(tokens, 0, i);
    law_search_terms(tokens.take(i));
    law_last_items(front, name);
    if name.len() < 2 {
        assert(front + name =~= name);
    }
}

/// Tokens that mark no version ask for none, and of nothing.
pub proof fn law_no_marked_request(tokens: Seq<Seq<char>>)
    requires
        forall|j: int| 0 <= j < tokens.len() ==> #[trigger] marked_of(tokens, j) is None,
    ensures
        marked_request(tokens).0.len() == 0,
        marked_request(tokens).1 is None,
{
    law_none_marked(tokens, 0);
}

/// A text and its lower case form name the same project.
proof fn lemma_named_in_any_case(text: Seq<char>, table: Seq<AuthorityView>)
    ensures
        named_entry(lowered(text), table) == named_entry(text, table),
    decreases table.len(),
{
    if table.len() > 0 {
        lemma_named_in_any_case(text, table.drop_last());
        assert forall|aliases: Seq<Seq<char>>| #[trigger]
            longest_alias(lowered(text), aliases) == longest_alias(text, aliases) by {
            lemma_alias_in_any_case(text, aliases);
        }
    }
}

/// A text and its lower case form hold the same aliases.
proof fn lemma_alias_in_any_case(text: Seq<char>, aliases: Seq<Seq<char>>)
    ensures
        longest_alias(lowered(text), aliases) == longest_alias(text, aliases),
    decreases aliases.len(),
{
    if aliases.len() > 0 {
        lemma_alias_in_any_case(text, aliases.drop_last());
        law_tokens_ignore_case(text, text);
        assert(has_phrase(lowered(text), aliases.last()) == has_phrase(text, aliases.last()));
    }
}

/// A query asks for what its own words name: the project that it names, and as
/// terms its search terms, each once.
pub proof fn law_intent_of_a_query(query: Seq<char>)
    ensures
        intent_of(query).authority == named_authority(query),
        intent_of(query).terms == distinct(
            tokens_of(query).filter(|t: Seq<char>| search_term(t)),
        ),
{
    lemma_named_in_any_case(query, authority_table());
    law_tokens_ignore_case(query, query);
    law_search_terms(tokens_of(query));
}

/// Whether the project that a query names, if it names one, is nowhere in it
/// followed by a version.
pub open spec fn names_no_project_version(query: Seq<char>) -> bool {
    named_authority(query) matches Some(entry) ==> all_unfollowed(tokens_of(query), entry.aliases)
}

/// A query that names a known project asks for the version that follows the
/// name first, as one of that name.
pub proof fn law_project_version_is_requested(query: Seq<char>, a: int, at: int, i: int)
    requires
        named_authority(query) is Some,
        first_to_follow(tokens_of(query), named_authority(query)->0.aliases, a, at, i),
    ensures
        intent_of(query).version == version_at_of(tokens_of(query), i, true),
        intent_of(query).entity == tokens_of(named_authority(query)->0.aliases[a]),
{
    law_intent_of_a_query(query);
    law_tokens_ignore_case(query, query);
    law_known_version(tokens_of(query), named_authority(query)->0.aliases, a, at, i);
}

/// Whatever project a query names, it asks for a version if it marks one.
pub proof fn law_marked_version_is_never_lost(query: Seq<char>, i: int)
    requires
        0 <= i < tokens_of(query).len(),
        marked_of(tokens_of(query), i) is Some,
    ensures
        intent_of(query).version is Some,
{
    law_tokens_ignore_case(query, query);
    let tokens = tokens_of(query);
    if first_marked(tokens, 0) is None {
        lemma_marked_is_found(tokens, 0, i);
    } else {
        lemma_found_is_marked(tokens, 0);
    }
}

/// Where a version is marked, a first one is found.
proof fn lemma_marked_is_found(tokens: Seq<Seq<char>>, from: int, i: int)
    requires
        0 <= from <= i < tokens.len(),
        marked_of(tokens, i) is Some,
    ensures
        first_marked(tokens, from) is Some,
    decreases i - from,
{
    if from < i && marked_of(tokens, from) is None {
        lemma_marked_is_found(tokens, from + 1, i);
    }
}

/// A version is marked at the index that is found.
proof fn lemma_found_is_marked(tokens: Seq<Seq<char>>, from: int)
    requires
        first_marked(tokens, from) is Some,
    ensures
        marked_of(tokens, first_marked(tokens, from)->0) is Some,
    decreases tokens.len() - from,
{
    if from < tokens.len() && marked_of(tokens, from) is None {
        lemma_found_is_marked(tokens, from + 1);
    }
}

/// A query, whatever project it names, that has no version after the name asks
/// for the first version that it marks.  What it asks it of are the last two
/// search terms before it, or the only one, or none.
pub proof fn law_first_marked_version_is_requested(
    query: Seq<char>,
    i: int,
    front: Seq<Seq<char>>,
    name: Seq<Seq<char>>,
)
    requires
        names_no_project_version(query),
        0 <= i < tokens_of(query).len(),
        marked_of(tokens_of(query), i) is Some,
        forall|j: int| 0 <= j < i ==> #[trigger] marked_of(tokens_of(query), j) is None,
        tokens_of(query).take(i).filter(|t: Seq<char>| search_term(t)) == front + name,
        name.len() == 2 || (name.len() < 2 && front.len() == 0),
    ensures
        intent_of(query).version == marked_of(tokens_of(query), i),
        intent_of(query).entity == name,
{
    let tokens = tokens_of(query);
    law_intent_of_a_query(query);
    law_tokens_ignore_case(query, query);
    if named_authority(query) is Some {
        law_no_known_version(tokens, named_authority(query)->0.aliases);
    }
    law_marked_request(tokens, i, front, name);
}

/// A query that has no version after the name of a project, and marks none,
/// asks for no version.
pub proof fn law_nothing_is_requested(query: Seq<char>)
    requires
        names_no_project_version(query),
        forall|j: int|
            0 <= j < tokens_of(query).len() ==> #[trigger] marked_of(tokens_of(query), j) is None,
    ensures
        intent_of(query).version is None,
        intent_of(query).entity.len() == 0,
{
    let tokens = tokens_of(query);
    law_intent_of_a_query(query);
    law_tokens_ignore_case(query, query);
    if named_authority(query) is Some {
        law_no_known_version(tokens, named_authority(query)->0.aliases);
    }
    law_no_marked_request(tokens);
}

/// A text names the project of which it holds the longest alias, by bytes, and
/// of several such projects the last of the table.
pub proof fn law_named_project(text: Seq<char>, k: int, a: int)
    requires
        0 <= k < authority_table().len(),
        0 <= a < authority_table()[k].aliases.len(),
        has_phrase(text, authority_table()[k].aliases[a]),
        forall|j: int, b: int|
            0 <= j < authority_table().len() && 0 <= b < authority_table()[j].aliases.len()
                && has_phrase(text, #[trigger] authority_table()[j].aliases[b]) ==> encode_utf8(
                authority_table()[j].aliases[b],
            ).len() < encode_utf8(authority_table()[k].aliases[a]).len() || (encode_utf8(
                authority_table()[j].aliases[b],
            ).len() == encode_utf8(authority_table()[k].aliases[a]).len() && j <= k),
    ensures
        named_authority(text) == Some(authority_table()[k]),
{
    let table = authority_table();
    law_named_entry(text, table);
    law_longest_alias(text, table[k].aliases);
    assert(has_phrase(text, table[k].aliases[a]));
    let best = named_entry(text, table)->0;
    if best != k {
        law_longest_alias(text, table[best].aliases);
        let b = choose|b: int|
            0 <= b < table[best].aliases.len() && has_phrase(
                text,
                #[trigger] table[best].aliases[b],
            ) && encode_utf8(table[best].aliases[b]).len() == longest_alias(
                text,
                table[best].aliases,
            )->0;
        assert(has_phrase(text, table[best].aliases[b]));
    }
}

/// A text that holds no alias names no project.
pub proof fn law_no_named_project(text: Seq<char>)
    requires
        forall|j: int, b: int|
            0 <= j < authority_table().len() && 0 <= b < authority_table()[j].aliases.len()
                ==> !has_phrase(text, #[trigger] authority_table()[j].aliases[b]),
    ensures
        named_authority(text) is None,
{
    let table = authority_table();
    law_named_entry(text, table);
    if named_entry(text, table) is Some {
        let best = named_entry(text, table)->0;
        law_longest_alias(text, table[best].aliases);
        let b = choose|b: int|
            0 <= b < table[best].aliases.len() && has_phrase(
                text,
                #[trigger] table[best].aliases[b],
            );
        assert(!has_phrase(text, table[best].aliases[b]));
    }
}

}
