//! Laws of what a query asks for.

use vstd::prelude::*;

use crate::authority::{longest_alias, named_authority, named_entry, AuthorityView};
use crate::intent::{
    distinct, first_marked, intent_of, known_version, marked_request, search_term, search_terms,
    stop_words, version_after,
};
use crate::text::{
    all_phrase_starts, has_phrase, lemma_phrase_starts, lowered, phrase_at, tokens_of,
};
use crate::version::{first_version, marked_of, version_at_of, version_near_of};

verus! {

/// Queries that differ only in the case of ASCII letters ask for the same.
pub proof fn law_query_ignores_case(a: Seq<char>, b: Seq<char>)
    requires
        lowered(a) == lowered(b),
    ensures
        intent_of(a) == intent_of(b),
{
}

/// What is kept of a sequence occurs in it, once.
pub proof fn lemma_distinct(list: Seq<Seq<char>>)
    ensures
        distinct(list).no_duplicates(),
        forall|t: Seq<char>| #[trigger] distinct(list).contains(t) <==> list.contains(t),
    decreases list.len(),
{
    if list.len() > 0 {
        let rest = list.drop_last();
        lemma_distinct(rest);
        let before = distinct(rest);
        let after = distinct(list);
        assert forall|t: Seq<char>| #[trigger] after.contains(t) <==> list.contains(t) by {
            if after.contains(t) {
                let k = choose|k: int| 0 <= k < after.len() && after[k] == t;
                if k < before.len() {
                    assert(before[k] == t);
                    assert(before.contains(t));
                    let m = choose|m: int| 0 <= m < rest.len() && rest[m] == t;
                    assert(list[m] == t);
                } else {
                    assert(list[list.len() - 1] == t);
                }
            }
            if list.contains(t) {
                let m = choose|m: int| 0 <= m < list.len() && list[m] == t;
                if m < rest.len() {
                    assert(rest[m] == t);
                    assert(before.contains(t));
                    let k = choose|k: int| 0 <= k < before.len() && before[k] == t;
                    assert(after[k] == t);
                } else if before.contains(t) {
                    let k = choose|k: int| 0 <= k < before.len() && before[k] == t;
                    assert(after[k] == t);
                } else {
                    assert(after[before.len() as int] == t);
                }
            }
        }
    }
}

/// The search terms among some tokens are those of them that are search terms.
proof fn lemma_search_terms(tokens: Seq<Seq<char>>)
    ensures
        forall|t: Seq<char>| #[trigger]
            search_terms(tokens).contains(t) <==> tokens.contains(t) && search_term(t),
    decreases tokens.len(),
{
    if tokens.len() > 0 {
        let rest = tokens.drop_last();
        lemma_search_terms(rest);
        let before = search_terms(rest);
        let after = search_terms(tokens);
        assert forall|t: Seq<char>| #[trigger]
            after.contains(t) <==> tokens.contains(t) && search_term(t) by {
            if after.contains(t) {
                let k = choose|k: int| 0 <= k < after.len() && after[k] == t;
                if k < before.len() {
                    assert(before[k] == t);
                    assert(before.contains(t));
                    let m = choose|m: int| 0 <= m < rest.len() && rest[m] == t;
                    assert(tokens[m] == t);
                } else {
                    assert(tokens[tokens.len() - 1] == t);
                }
            }
            if tokens.contains(t) && search_term(t) {
                let m = choose|m: int| 0 <= m < tokens.len() && tokens[m] == t;
                if m < rest.len() {
                    assert(rest[m] == t);
                    assert(before.contains(t));
                    let k = choose|k: int| 0 <= k < before.len() && before[k] == t;
                    assert(after[k] == t);
                } else {
                    assert(after[before.len() as int] == t);
                }
            }
        }
    }
}

/// The terms of a query are its tokens that are neither stop words nor
/// versions, each of them once.
pub proof fn law_terms_of_a_query(query: Seq<char>)
    ensures
        intent_of(query).terms.no_duplicates(),
        forall|t: Seq<char>| #[trigger]
            intent_of(query).terms.contains(t) <==> tokens_of(query).contains(t) && search_term(t),
        forall|t: Seq<char>| #[trigger]
            intent_of(query).terms.contains(t) ==> !stop_words().contains(t),
{
    crate::laws::tokens::law_tokens_ignore_case(query, query);
    lemma_search_terms(tokens_of(query));
    lemma_distinct(search_terms(tokens_of(query)));
}

/// The longest alias is one of the aliases that a text names, and no other
/// alias that it names is longer.
pub proof fn law_longest_alias(text: Seq<char>, aliases: Seq<Seq<char>>)
    ensures
        longest_alias(text, aliases) is Some <==> exists|i: int|
            0 <= i < aliases.len() && has_phrase(text, #[trigger] aliases[i]),
        longest_alias(text, aliases) is Some ==> exists|i: int|
            0 <= i < aliases.len() && has_phrase(text, #[trigger] aliases[i])
                && vstd::utf8::encode_utf8(aliases[i]).len() == longest_alias(text, aliases)->0,
        forall|i: int|
            0 <= i < aliases.len() && has_phrase(text, #[trigger] aliases[i])
                ==> vstd::utf8::encode_utf8(aliases[i]).len() <= longest_alias(text, aliases)->0,
    decreases aliases.len(),
{
    if aliases.len() > 0 {
        let rest = aliases.drop_last();
        law_longest_alias(text, rest);
        assert forall|i: int| 0 <= i < rest.len() implies #[trigger] aliases[i] == rest[i] by {}
        if has_phrase(text, aliases.last()) {
            assert(has_phrase(text, aliases[aliases.len() - 1]));
        }
        if longest_alias(text, rest) is Some {
            let i = choose|i: int|
                0 <= i < rest.len() && has_phrase(text, #[trigger] rest[i])
                    && vstd::utf8::encode_utf8(rest[i]).len() == longest_alias(text, rest)->0;
            assert(has_phrase(text, aliases[i]));
        }
        assert forall|i: int|
            0 <= i < aliases.len() && has_phrase(text, #[trigger] aliases[i]) implies
            vstd::utf8::encode_utf8(aliases[i]).len() <= longest_alias(text, aliases)->0 by {
            if i < rest.len() {
                assert(has_phrase(text, rest[i]));
            }
        }
        if longest_alias(text, aliases) is None {
            assert forall|i: int| 0 <= i < aliases.len() implies !has_phrase(
                text,
                #[trigger] aliases[i],
            ) by {
                if i < rest.len() {
                    assert(!has_phrase(text, rest[i]));
                }
            }
        }
    }
}

/// A query names the project whose alias in it is the longest, and of several
/// such projects the last one; where it names none, no alias occurs in it.
pub proof fn law_named_entry(text: Seq<char>, table: Seq<AuthorityView>)
    ensures
        match named_entry(text, table) {
            Some(best) => {
                &&& 0 <= best < table.len()
                &&& longest_alias(text, table[best].aliases) is Some
                &&& forall|i: int|
                    0 <= i < table.len() && longest_alias(text, (#[trigger] table[i]).aliases) is Some
                        ==> {
                        let length = longest_alias(text, table[i].aliases)->0;
                        let longest = longest_alias(text, table[best].aliases)->0;
                        length < longest || (length == longest && i <= best)
                    }
            },
            None => forall|i: int|
                0 <= i < table.len() ==> longest_alias(text, (#[trigger] table[i]).aliases) is None,
        },
    decreases table.len(),
{
    if table.len() > 0 {
        let rest = table.drop_last();
        law_named_entry(text, rest);
        assert forall|i: int| 0 <= i < rest.len() implies #[trigger] table[i] == rest[i] by {}
    }
}

/// The first marked version is the first one, and it is marked.
proof fn lemma_first_marked(tokens: Seq<Seq<char>>, from: int)
    requires
        0 <= from,
    ensures
        match first_marked(tokens, from) {
            Some(index) => {
                &&& from <= index < tokens.len()
                &&& marked_of(tokens, index) is Some
                &&& forall|i: int| from <= i < index ==> marked_of(tokens, i) is None
            },
            None => forall|i: int| from <= i < tokens.len() ==> marked_of(tokens, i) is None,
        },
    decreases tokens.len() - from,
{
    if from < tokens.len() && marked_of(tokens, from) is None {
        lemma_first_marked(tokens, from + 1);
    }
}

/// A query that names no known project asks for a version only if it marks one
/// as such, and then for the first of these; bare numbers do not count.
pub proof fn law_unknown_project_needs_a_marked_version(query: Seq<char>)
    requires
        named_authority(lowered(query)) is None,
    ensures
        intent_of(query).authority is None,
        match intent_of(query).version {
            Some(version) => exists|i: int|
                0 <= i < tokens_of(query).len() && #[trigger] marked_of(tokens_of(query), i) == Some(
                    version,
                ) && forall|j: int|
                    0 <= j < i ==> #[trigger] marked_of(tokens_of(query), j) is None,
            None => intent_of(query).entity.len() == 0 && forall|i: int|
                0 <= i < tokens_of(query).len() ==> #[trigger] marked_of(tokens_of(query), i) is None,
        },
{
    crate::laws::tokens::law_tokens_ignore_case(query, query);
    lemma_first_marked(tokens_of(query), 0);
}

/// The entity of a version that is marked as such is made of at most two of the
/// search terms among the tokens.
pub proof fn law_marked_entity(tokens: Seq<Seq<char>>)
    ensures
        marked_request(tokens).0.len() <= 2,
        forall|t: Seq<char>| #[trigger]
            marked_request(tokens).0.contains(t) ==> tokens.contains(t) && search_term(t),
{
    lemma_first_marked(tokens, 0);
    let entity = marked_request(tokens).0;
    match first_marked(tokens, 0) {
        Some(index) => {
            let head = tokens.take(index);
            let all = search_terms(head);
            lemma_search_terms(head);
            assert forall|t: Seq<char>| #[trigger] entity.contains(t) implies tokens.contains(t)
                && search_term(t) by {
                let k = choose|k: int| 0 <= k < entity.len() && entity[k] == t;
                if all.len() <= 2 {
                    assert(all[k] == t);
                } else {
                    assert(all[all.len() - 2 + k] == t);
                }
                assert(all.contains(t));
                let m = choose|m: int| 0 <= m < head.len() && head[m] == t;
                assert(tokens[m] == t);
            }
        },
        None => {},
    }
}

/// The first version of a range stands in it.
proof fn lemma_first_version(tokens: Seq<Seq<char>>, from: int, to: int)
    ensures
        first_version(tokens, from, to, true) is Some ==> exists|i: int|
            from <= i < to && #[trigger] version_at_of(tokens, i, true) == first_version(
                tokens,
                from,
                to,
                true,
            ),
    decreases to - from,
{
    if from < to && version_at_of(tokens, from, true) is None {
        lemma_first_version(tokens, from + 1, to);
    }
}

/// A version after an occurrence of a phrase stands at most three tokens after
/// the end of one.
proof fn lemma_version_after(tokens: Seq<Seq<char>>, starts: Seq<int>, length: nat)
    ensures
        version_after(tokens, starts, length) is Some ==> exists|k: int, i: int|
            0 <= k < starts.len() && #[trigger] starts[k] + length <= i < starts[k] + length + 3
                && #[trigger] version_at_of(tokens, i, true) == version_after(
                tokens,
                starts,
                length,
            ),
    decreases starts.len(),
{
    if starts.len() > 0 {
        let found = version_after(tokens, starts, length);
        let first = starts[0] + length;
        if version_near_of(tokens, first, true) is Some {
            lemma_first_version(tokens, first, first + 3);
            let i = choose|i: int|
                first <= i < first + 3 && #[trigger] version_at_of(tokens, i, true)
                    == first_version(tokens, first, first + 3, true);
            assert(version_at_of(tokens, i, true) == found);
        } else {
            let rest = starts.drop_first();
            lemma_version_after(tokens, rest, length);
            if found is Some {
                let (k, i) = choose|k: int, i: int|
                    0 <= k < rest.len() && #[trigger] rest[k] + length <= i < rest[k] + length + 3
                        && #[trigger] version_at_of(tokens, i, true) == version_after(
                        tokens,
                        rest,
                        length,
                    );
                assert(starts[k + 1] == rest[k]);
                assert(version_at_of(tokens, i, true) == found);
            }
        }
    }
}

/// Whether a phrase is one of some aliases.
pub open spec fn is_alias(aliases: Seq<Seq<char>>, phrase: Seq<Seq<char>>) -> bool {
    exists|a: int| 0 <= a < aliases.len() && tokens_of(#[trigger] aliases[a]) == phrase
}

/// Whether a version stands at one of the three indices after an occurrence of
/// a phrase.
pub open spec fn stands_after(
    tokens: Seq<Seq<char>>,
    phrase: Seq<Seq<char>>,
    version: Seq<u32>,
) -> bool {
    exists|start: int, i: int| #[trigger]
        phrase_at(tokens, phrase, start) && start + phrase.len() <= i < start + phrase.len() + 3
            && #[trigger] version_at_of(tokens, i, true) == Some(version)
}

/// The version that a query asks of a known project stands at most three tokens
/// after the name of the project, which is the entity that it is bound to.
pub proof fn law_known_version_follows_its_name(
    tokens: Seq<Seq<char>>,
    aliases: Seq<Seq<char>>,
)
    ensures
        known_version(tokens, aliases) matches Some((entity, version)) ==> is_alias(aliases, entity)
            && stands_after(tokens, entity, version),
    decreases aliases.len(),
{
    if aliases.len() > 0 {
        let alias = tokens_of(aliases[0]);
        let starts = all_phrase_starts(tokens, alias);
        match version_after(tokens, starts, alias.len()) {
            Some(version) => {
                lemma_version_after(tokens, starts, alias.len());
                lemma_phrase_starts(tokens, alias, tokens.len());
                let (k, i) = choose|k: int, i: int|
                    0 <= k < starts.len() && #[trigger] starts[k] + alias.len() <= i < starts[k]
                        + alias.len() + 3 && #[trigger] version_at_of(tokens, i, true)
                        == version_after(tokens, starts, alias.len());
                assert(starts.contains(starts[k]));
                assert(phrase_at(tokens, alias, starts[k]));
                assert(stands_after(tokens, alias, version));
            },
            None => {
                let rest = aliases.drop_first();
                law_known_version_follows_its_name(tokens, rest);
                if let Some((entity, _)) = known_version(tokens, rest) {
                    let a = choose|a: int|
                        0 <= a < rest.len() && tokens_of(#[trigger] rest[a]) == entity;
                    assert(aliases[a + 1] == rest[a]);
                    assert(is_alias(aliases, entity));
                }
            },
        }
    }
}

}
