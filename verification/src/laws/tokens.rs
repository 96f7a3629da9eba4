//! Laws of tokens and phrases.

use vstd::prelude::*;

use crate::text::{
    has_phrase, is_token_char, lemma_pieces, lower, lowered, phrase_at, pieces, tokens_of, trimmed,
    without_outer_dots, Separator,
};

verus! {

/// A text in lower case stays as it is when it is put in lower case.
pub proof fn law_lowering_twice_changes_nothing(s: Seq<char>)
    ensures
        lowered(lowered(s)) == lowered(s),
{
    assert(lowered(lowered(s)) =~= lowered(s));
}

/// Texts that differ only in the case of ASCII letters have the same tokens.
pub proof fn law_tokens_ignore_case(a: Seq<char>, b: Seq<char>)
    requires
        lowered(a) == lowered(b),
    ensures
        tokens_of(a) == tokens_of(b),
        tokens_of(lowered(a)) == tokens_of(a),
{
    law_lowering_twice_changes_nothing(a);
}

/// Texts with a character between each two that follow one another.
pub open spec fn joined(parts: Seq<Seq<char>>, sep: char) -> Seq<char>
    decreases parts.len(),
{
    if parts.len() == 0 {
        Seq::empty()
    } else if parts.len() == 1 {
        parts[0]
    } else {
        joined(parts.drop_last(), sep) + seq![sep] + parts.last()
    }
}

/// The pieces between the occurrences of a character make the text again when
/// that character is put between them, and none of them holds it.
pub proof fn law_pieces_join_to_the_text(s: Seq<char>, sep: char)
    ensures
        joined(pieces(s, Separator::Char(sep)), sep) == s,
        forall|i: int|
            0 <= i < pieces(s, Separator::Char(sep)).len() ==> !(#[trigger] pieces(
                s,
                Separator::Char(sep),
            )[i]).contains(sep),
    decreases s.len(),
{
    let by = Separator::Char(sep);
    let parts = pieces(s, by);
    lemma_pieces(s, by);
    assert forall|i: int| 0 <= i < parts.len() implies !(#[trigger] parts[i]).contains(sep) by {
        if parts[i].contains(sep) {
            let j = choose|j: int| 0 <= j < parts[i].len() && parts[i][j] == sep;
            assert(!by.cuts(parts[i][j]));
        }
    }
    if s.len() == 0 {
        assert(joined(parts, sep) =~= s);
    } else {
        let rest = s.drop_last();
        let before = pieces(rest, by);
        law_pieces_join_to_the_text(rest, sep);
        lemma_pieces(rest, by);
        assert(rest.push(s.last()) =~= s);
        if by.cuts(s.last()) {
            assert(parts.drop_last() =~= before);
            assert(joined(parts, sep) =~= s);
        } else if before.len() == 1 {
            assert(joined(parts, sep) =~= s);
        } else {
            assert(parts.drop_last() =~= before.drop_last());
            assert(joined(parts, sep) =~= joined(before, sep).push(s.last()));
        }
    }
}

/// What is left of a text without its outer dots is a part of it that neither
/// starts nor ends with a dot.
pub proof fn lemma_without_outer_dots(s: Seq<char>)
    ensures
        without_outer_dots(s).len() > 0 ==> without_outer_dots(s)[0] != '.' && without_outer_dots(
            s,
        ).last() != '.',
        forall|i: int|
            0 <= i < without_outer_dots(s).len() ==> s.contains(#[trigger] without_outer_dots(s)[i]),
    decreases s.len(),
{
    if s.len() > 0 && s[0] == '.' {
        lemma_without_outer_dots(s.drop_first());
        assert forall|i: int| 0 <= i < without_outer_dots(s).len() implies s.contains(
            #[trigger] without_outer_dots(s)[i],
        ) by {
            let c = without_outer_dots(s)[i];
            assert(s.drop_first().contains(c));
            let k = choose|k: int| 0 <= k < s.drop_first().len() && s.drop_first()[k] == c;
            assert(s[k + 1] == c);
        }
    } else if s.len() > 0 && s.last() == '.' {
        lemma_without_outer_dots(s.drop_last());
        assert forall|i: int| 0 <= i < without_outer_dots(s).len() implies s.contains(
            #[trigger] without_outer_dots(s)[i],
        ) by {
            let c = without_outer_dots(s)[i];
            assert(s.drop_last().contains(c));
            let k = choose|k: int| 0 <= k < s.drop_last().len() && s.drop_last()[k] == c;
            assert(s[k] == c);
        }
    }
}

/// Whether a text has the shape of a token: lower case letters, digits and
/// dots, of which none is the first or the last character.
pub open spec fn token_shaped(t: Seq<char>) -> bool {
    &&& t.len() > 0
    &&& t[0] != '.'
    &&& t.last() != '.'
    &&& forall|i: int|
        0 <= i < t.len() ==> is_token_char(#[trigger] t[i]) && lower(t[i]) == t[i]
}

/// Trimmed pieces of token characters have the shape of tokens.
proof fn lemma_trimmed_shape(parts: Seq<Seq<char>>)
    requires
        forall|i: int, j: int|
            #![trigger parts[i][j]]
            0 <= i < parts.len() && 0 <= j < parts[i].len() ==> is_token_char(parts[i][j]) && lower(
                parts[i][j],
            ) == parts[i][j],
    ensures
        forall|i: int| 0 <= i < trimmed(parts).len() ==> token_shaped(#[trigger] trimmed(parts)[i]),
    decreases parts.len(),
{
    if parts.len() > 0 {
        let rest = parts.drop_last();
        assert forall|i: int, j: int|
            #![trigger rest[i][j]]
            0 <= i < rest.len() && 0 <= j < rest[i].len() implies is_token_char(rest[i][j])
            && lower(rest[i][j]) == rest[i][j] by {
            assert(rest[i][j] == parts[i][j]);
        }
        lemma_trimmed_shape(rest);
        let last = parts.last();
        let part = without_outer_dots(last);
        lemma_without_outer_dots(last);
        if part.len() > 0 {
            assert forall|i: int| 0 <= i < part.len() implies is_token_char(#[trigger] part[i])
                && lower(part[i]) == part[i] by {
                assert(last.contains(part[i]));
                let k = choose|k: int| 0 <= k < last.len() && last[k] == part[i];
                assert(is_token_char(parts[parts.len() - 1][k]));
            }
            assert(token_shaped(part));
        }
        assert forall|i: int| 0 <= i < trimmed(parts).len() implies token_shaped(
            #[trigger] trimmed(parts)[i],
        ) by {
            if i < trimmed(rest).len() {
                assert(trimmed(parts)[i] == trimmed(rest)[i]);
            }
        }
    }
}

/// Every piece of a text holds only characters of the text.
proof fn lemma_pieces_hold_the_text(s: Seq<char>, sep: Separator)
    ensures
        forall|i: int, j: int|
            #![trigger pieces(s, sep)[i][j]]
            0 <= i < pieces(s, sep).len() && 0 <= j < pieces(s, sep)[i].len() ==> s.contains(
                pieces(s, sep)[i][j],
            ),
    decreases s.len(),
{
    if s.len() > 0 {
        let rest = s.drop_last();
        lemma_pieces_hold_the_text(rest, sep);
        lemma_pieces(rest, sep);
        let before = pieces(rest, sep);
        let after = pieces(s, sep);
        assert forall|i: int, j: int|
            #![trigger after[i][j]]
            0 <= i < after.len() && 0 <= j < after[i].len() implies s.contains(after[i][j]) by {
            if i < before.len() && j < before[i].len() {
                assert(after[i][j] == before[i][j]);
                assert(rest.contains(before[i][j]));
                let k = choose|k: int| 0 <= k < rest.len() && rest[k] == before[i][j];
                assert(s[k] == before[i][j]);
            } else {
                assert(after[i][j] == s.last());
                assert(s[s.len() - 1] == s.last());
            }
        }
    }
}

/// Every token has the shape of one.
pub proof fn law_tokens_are_token_shaped(s: Seq<char>)
    ensures
        forall|i: int| 0 <= i < tokens_of(s).len() ==> token_shaped(#[trigger] tokens_of(s)[i]),
{
    let text = lowered(s);
    let parts = pieces(text, Separator::Punctuation);
    lemma_pieces(text, Separator::Punctuation);
    lemma_pieces_hold_the_text(text, Separator::Punctuation);
    assert forall|i: int, j: int|
        #![trigger parts[i][j]]
        0 <= i < parts.len() && 0 <= j < parts[i].len() implies is_token_char(parts[i][j]) && lower(
        parts[i][j],
    ) == parts[i][j] by {
        assert(!Separator::Punctuation.cuts(parts[i][j]));
        assert(text.contains(parts[i][j]));
        let k = choose|k: int| 0 <= k < text.len() && text[k] == parts[i][j];
        assert(text[k] == lower(s[k]));
    }
    lemma_trimmed_shape(parts);
}

/// A token is its own only token.
pub proof fn law_token_is_its_own_token(t: Seq<char>)
    requires
        token_shaped(t),
    ensures
        tokens_of(t) == seq![t],
{
    assert(lowered(t) =~= t);
    crate::laws::versions::lemma_uncut(t, Separator::Punctuation);
    let parts = seq![t];
    assert(parts.drop_last() =~= Seq::empty());
    assert(trimmed(parts.drop_last()) =~= Seq::<Seq<char>>::empty());
    assert(without_outer_dots(t) == t);
    assert(trimmed(parts) =~= seq![t]);
}

/// A text that has tokens holds itself as a phrase, and one that has none is
/// held nowhere.
pub proof fn law_phrase_of_itself(s: Seq<char>, other: Seq<char>)
    ensures
        tokens_of(s).len() > 0 ==> has_phrase(s, s),
        tokens_of(s).len() == 0 ==> !has_phrase(other, s),
{
    let all = tokens_of(s);
    if all.len() > 0 {
        assert(all.subrange(0, all.len() as int) =~= all);
        assert(phrase_at(all, all, 0));
    }
}

}
