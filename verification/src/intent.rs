//! What a query asks for: a project, a version of something, and terms.

use vstd::prelude::*;

use crate::authority::{entry_text, find_authority, named_authority, Authority, AuthorityView};
use crate::text::{
    all_phrase_starts, contains_text, contains_word, indices, lemma_phrase_starts, lowered,
    normalize, phrase_positions, texts, tokens, tokens_of, words,
};
use crate::version::{
    bare_of, bare_version, components, explicit_of, explicit_version, marked_of, marked_version,
    version_near, version_near_of, Version,
};

verus! {

/// What a query asks for.
pub struct QueryIntent<'a> {
    /// The known project that it names.
    pub authority: Option<&'a Authority>,
    /// The name of the thing that the version is a version of, as tokens.
    pub entity_tokens: Vec<String>,
    /// The version that it names.
    pub version: Option<Version>,
    /// Its search terms, none of them twice.
    pub terms: Vec<String>,
}

/// The text of a [`QueryIntent`].
pub struct IntentView {
    pub authority: Option<AuthorityView>,
    pub entity: Seq<Seq<char>>,
    pub version: Option<Seq<u32>>,
    pub terms: Seq<Seq<char>>,
}

impl<'a> View for QueryIntent<'a> {
    type V = IntentView;

    open spec fn view(&self) -> IntentView {
        IntentView {
            authority: entry_text(self.authority),
            entity: texts(self.entity_tokens@),
            version: components(self.version),
            terms: texts(self.terms@),
        }
    }
}

/// The words that say nothing of what a query is about.
pub open spec fn stop_words() -> Seq<Seq<char>> {
    seq![
        "a"@,
        "an"@,
        "and"@,
        "current"@,
        "documentation"@,
        "docs"@,
        "for"@,
        "how"@,
        "in"@,
        "latest"@,
        "official"@,
        "or"@,
        "the"@,
        "to"@,
        "version"@,
        "with"@,
    ]
}

/// Whether a token says what a query is about: it is no stop word and no
/// version.
pub open spec fn search_term(token: Seq<char>) -> bool {
    &&& !stop_words().contains(token)
    &&& explicit_of(token) is None
    &&& bare_of(token) is None
}

/// The search terms among some tokens, in their order.
pub open spec fn search_terms(tokens: Seq<Seq<char>>) -> Seq<Seq<char>>
    decreases tokens.len(),
{
    if tokens.len() == 0 {
        Seq::empty()
    } else {
        let before = search_terms(tokens.drop_last());
        if search_term(tokens.last()) {
            before.push(tokens.last())
        } else {
            before
        }
    }
}

/// A sequence of texts without those that occurred before.
pub open spec fn distinct(list: Seq<Seq<char>>) -> Seq<Seq<char>>
    decreases list.len(),
{
    if list.len() == 0 {
        Seq::empty()
    } else {
        let before = distinct(list.drop_last());
        if before.contains(list.last()) {
            before
        } else {
            before.push(list.last())
        }
    }
}

/// The last `n` items of a sequence, or all of a shorter one.
pub open spec fn last_items(list: Seq<Seq<char>>, n: int) -> Seq<Seq<char>> {
    if list.len() <= n {
        list
    } else {
        list.skip(list.len() - n)
    }
}

/// The first version that stands near the end of an occurrence of a phrase of
/// `length` tokens.
pub open spec fn version_after(
    tokens: Seq<Seq<char>>,
    starts: Seq<int>,
    length: nat,
) -> Option<Seq<u32>>
    decreases starts.len(),
{
    if starts.len() == 0 {
        None
    } else {
        match version_near_of(tokens, starts[0] + length, true) {
            Some(version) => Some(version),
            None => version_after(tokens, starts.drop_first(), length),
        }
    }
}

/// The first of some aliases that has a version after it, as tokens, and that
/// version.
pub open spec fn known_version(
    tokens: Seq<Seq<char>>,
    aliases: Seq<Seq<char>>,
) -> Option<(Seq<Seq<char>>, Seq<u32>)>
    decreases aliases.len(),
{
    if aliases.len() == 0 {
        None
    } else {
        let alias = tokens_of(aliases[0]);
        match version_after(tokens, all_phrase_starts(tokens, alias), alias.len()) {
            Some(version) => Some((alias, version)),
            None => known_version(tokens, aliases.drop_first()),
        }
    }
}

/// The first index, from `from` on, at which a version is marked as such.
pub open spec fn first_marked(tokens: Seq<Seq<char>>, from: int) -> Option<int>
    decreases tokens.len() - from,
{
    if from >= tokens.len() {
        None
    } else if marked_of(tokens, from) is Some {
        Some(from)
    } else {
        first_marked(tokens, from + 1)
    }
}

/// The first version that is marked as such, and the last two search terms
/// before it.
pub open spec fn marked_request(tokens: Seq<Seq<char>>) -> (Seq<Seq<char>>, Option<Seq<u32>>) {
    match first_marked(tokens, 0) {
        Some(index) => (
            last_items(search_terms(tokens.take(index)), 2),
            marked_of(tokens, index),
        ),
        None => (Seq::empty(), None),
    }
}

/// The version that a query asks for and the name of what it is a version of:
/// one after the name of a known project, or else the first one that is marked
/// as a version.
pub open spec fn requested_version(
    tokens: Seq<Seq<char>>,
    authority: Option<AuthorityView>,
) -> (Seq<Seq<char>>, Option<Seq<u32>>) {
    let known = match authority {
        Some(entry) => known_version(tokens, entry.aliases),
        None => None,
    };
    match known {
        Some((entity, version)) => (entity, Some(version)),
        None => marked_request(tokens),
    }
}

/// What a query asks for.
pub open spec fn intent_of(query: Seq<char>) -> IntentView {
    let text = lowered(query);
    let tokens = tokens_of(text);
    let authority = named_authority(text);
    let request = requested_version(tokens, authority);
    IntentView {
        authority,
        entity: request.0,
        version: request.1,
        terms: distinct(search_terms(tokens)),
    }
}

/// Whether a token says what a query is about.
pub fn is_search_term(token: &str) -> (res: bool)
    ensures
        res == search_term(token@),
{
    let list: [&str; 16] = [
        "a",
        "an",
        "and",
        "current",
        "documentation",
        "docs",
        "for",
        "how",
        "in",
        "latest",
        "official",
        "or",
        "the",
        "to",
        "version",
        "with",
    ];
    assert(words(list@) =~= stop_words());
    !contains_word(list.as_slice(), token) && explicit_version(token).is_none() && bare_version(
        token,
    ).is_none()
}

/// The first of the aliases of a project that has a version after it, as
/// tokens, and that version.
pub fn parse_known_version(query_tokens: &[String], entry: &Authority) -> (res: Option<
    (Vec<String>, Version),
>)
    ensures
        match (res, known_version(texts(query_tokens@), entry@.aliases)) {
            (Some(found), Some(wanted)) => texts(found.0@) == wanted.0 && found.1@ == wanted.1,
            (None, None) => true,
            _ => false,
        },
{
    let ghost all = texts(query_tokens@);
    let ghost aliases = entry@.aliases;
    let mut i: usize = 0;
    assert(aliases.skip(0) =~= aliases);
    while i < entry.aliases.len()
        invariant
            i <= entry.aliases@.len(),
            all == texts(query_tokens@),
            aliases == entry@.aliases,
            known_version(all, aliases) == known_version(all, aliases.skip(i as int)),
        decreases entry.aliases@.len() - i,
    {
        let ghost rest = aliases.skip(i as int);
        proof {
            assert(rest[0] == entry.aliases@[i as int]@);
            assert(rest.drop_first() =~= aliases.skip(i + 1));
        }
        let alias_tokens = tokens(entry.aliases[i]);
        let starts = phrase_positions(query_tokens, alias_tokens.as_slice());
        let ghost alias = texts(alias_tokens@);
        let ghost all_starts = indices(starts@);
        proof {
            assert(all_starts.skip(0) =~= all_starts);
            lemma_phrase_starts(all, alias, all.len());
        }
        let mut k: usize = 0;
        while k < starts.len()
            invariant
                k <= starts@.len(),
                i < entry.aliases@.len(),
                all == texts(query_tokens@),
                alias == texts(alias_tokens@),
                aliases == entry@.aliases,
                rest == aliases.skip(i as int),
                rest.len() > 0,
                alias == tokens_of(rest[0]),
                known_version(all, aliases) == known_version(all, rest),
                all_starts == indices(starts@),
                all_starts == all_phrase_starts(all, alias),
                forall|at: int|
                    #[trigger] all_starts.contains(at) ==> 0 <= at && at + alias.len()
                        <= all.len(),
                version_after(all, all_starts, alias.len()) == version_after(
                    all,
                    all_starts.skip(k as int),
                    alias.len(),
                ),
            decreases starts@.len() - k,
        {
            let ghost later = all_starts.skip(k as int);
            proof {
                assert(later[0] == starts@[k as int]);
                assert(later.drop_first() =~= all_starts.skip(k + 1));
                assert(all_starts[k as int] == starts@[k as int]);
                assert(all_starts.contains(all_starts[k as int]));
                assert(query_tokens.len() == all.len());
            }
            let after: usize = starts[k] + alias_tokens.len();
            match version_near(query_tokens, after, true) {
                Some(version) => {
                    return Some((alias_tokens, version));
                },
                None => {},
            }
            k = k + 1;
        }
        i = i + 1;
    }
    None
}

/// The last two search terms before an index.
fn terms_before(tokens: &[String], end: usize) -> (res: Vec<String>)
    requires
        end <= tokens@.len(),
    ensures
        texts(res@) == last_items(search_terms(texts(tokens@).take(end as int)), 2),
{
    let ghost all = texts(tokens@);
    let ghost wanted = search_terms(all.take(end as int));
    let mut found: Vec<String> = Vec::new();
    let mut i: usize = end;
    assert(texts(found@) =~= Seq::empty());
    assert(last_items(wanted, 2) =~= last_items(wanted, 2) + texts(found@));
    while i > 0 && found.len() < 2
        invariant
            i <= end <= tokens@.len(),
            all == texts(tokens@),
            wanted == search_terms(all.take(end as int)),
            found@.len() <= 2,
            last_items(wanted, 2) == last_items(
                search_terms(all.take(i as int)),
                2 - found@.len(),
            ) + texts(found@),
        decreases i,
    {
        let ghost here = all.take(i as int);
        let ghost before = texts(found@);
        i = i - 1;
        proof {
            assert(here.drop_last() =~= all.take(i as int));
            assert(here.last() == tokens@[i as int]@);
        }
        if is_search_term(tokens[i].as_str()) {
            let term = tokens[i].clone();
            found.insert(0, term);
            proof {
                assert(texts(found@) =~= seq![here.last()] + before);
                let rest = search_terms(all.take(i as int));
                assert(last_items(rest.push(here.last()), 2 - before.len()) =~= last_items(
                    rest,
                    2 - before.len() - 1,
                ).push(here.last()));
                assert(last_items(wanted, 2) =~= last_items(rest, 2 - found@.len()) + texts(found@));
            }
        }
    }
    proof {
        if i == 0 {
            assert(search_terms(all.take(0)) =~= Seq::empty());
        }
        assert(last_items(search_terms(all.take(i as int)), 2 - found@.len()).len() == 0);
        assert(last_items(wanted, 2) =~= texts(found@));
    }
    found
}

/// The first version that is marked as such, and the last two search terms
/// before it.
pub fn parse_explicit_version(tokens: &[String]) -> (res: (Vec<String>, Option<Version>))
    ensures
        (texts(res.0@), components(res.1)) == marked_request(texts(tokens@)),
{
    let mut index: usize = 0;
    while index < tokens.len()
        invariant
            index <= tokens@.len(),
            first_marked(texts(tokens@), 0) == first_marked(texts(tokens@), index as int),
        decreases tokens@.len() - index,
    {
        let version = marked_version(tokens, index);
        if version.is_some() {
            let entity = terms_before(tokens, index);
            return (entity, version);
        }
        index = index + 1;
    }
    let none: Vec<String> = Vec::new();
    assert(texts(none@) =~= Seq::empty());
    (none, None)
}

/// The search terms among some tokens, each of them once.
fn collect_terms(tokens: &[String]) -> (res: Vec<String>)
    ensures
        texts(res@) == distinct(search_terms(texts(tokens@))),
{
    let ghost all = texts(tokens@);
    let mut res: Vec<String> = Vec::new();
    let mut i: usize = 0;
    assert(texts(res@) =~= distinct(search_terms(all.take(0))));
    while i < tokens.len()
        invariant
            i <= tokens@.len(),
            all == texts(tokens@),
            texts(res@) == distinct(search_terms(all.take(i as int))),
        decreases tokens@.len() - i,
    {
        let ghost here = all.take(i + 1);
        let ghost before = search_terms(all.take(i as int));
        proof {
            assert(here.drop_last() =~= all.take(i as int));
            assert(here.last() == tokens@[i as int]@);
            assert(before.push(here.last()).drop_last() =~= before);
        }
        if is_search_term(tokens[i].as_str()) {
            if !contains_text(res.as_slice(), tokens[i].as_str()) {
                let ghost so_far = texts(res@);
                res.push(tokens[i].clone());
                assert(texts(res@) =~= so_far.push(here.last()));
            }
        }
        i = i + 1;
    }
    assert(all.take(all.len() as int) =~= all);
    res
}

impl<'a> QueryIntent<'a> {
    /// No search term is listed twice.
    pub open spec fn wf(&self) -> bool {
        self@.terms.no_duplicates()
    }

    /// Reads what a query asks for.
    pub fn parse(query: &str) -> (res: QueryIntent<'static>)
        ensures
            res@ == intent_of(query@),
            res.wf(),
    {
        proof {
            crate::laws::queries::law_terms_of_a_query(query@);
        }
        let normalized = normalize(query);
        let all = tokens(normalized.as_str());
        let authority = find_authority(normalized.as_str());
        let known = match authority {
            Some(entry) => parse_known_version(all.as_slice(), entry),
            None => None,
        };
        let (entity_tokens, version) = match known {
            Some((entity, version)) => (entity, Some(version)),
            None => parse_explicit_version(all.as_slice()),
        };
        let terms = collect_terms(all.as_slice());
        QueryIntent { authority, entity_tokens, version, terms }
    }
}

}
