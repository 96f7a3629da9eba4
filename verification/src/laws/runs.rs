//! Laws of characters, pieces and tokens, by the numbers of the characters.

use vstd::prelude::*;

use crate::laws::versions::lemma_uncut;
use crate::text::{
    all_phrase_starts, has_phrase, is_digit, is_token_char, lemma_phrase_starts, lemma_pieces,
    lower, lowered, phrase_at, pieces, tokens_of, trimmed,
    without_outer_dots, Separator,
};

verus! {

/// The number of a character.
pub open spec fn code(c: char) -> int {
    c as u32 as int
}

/// Whether the number is that of a decimal digit.
pub open spec fn digit_code(n: int) -> bool {
    48 <= n <= 57
}

/// Whether the number is that of a letter, a digit or a dot.
pub open spec fn token_code(n: int) -> bool {
    digit_code(n) || 65 <= n <= 90 || 97 <= n <= 122 || n == 46
}

/// The number of the lower case form of a character.
pub open spec fn lower_code(n: int) -> int {
    if 65 <= n <= 90 {
        n + 32
    } else {
        n
    }
}

/// Whether a text is cut at a character: at any that is no letter, digit or dot,
/// or at one given character.
pub open spec fn separates(sep: Separator, c: char) -> bool {
    match sep {
        Separator::Punctuation => !token_code(code(c)),
        Separator::Char(x) => code(x) == code(c),
    }
}

/// The digits are the characters 48 to 57; tokens hold digits, ASCII letters of
/// either case and dots.
pub proof fn law_character_classes(c: char)
    ensures
        is_digit(c) <==> digit_code(code(c)),
        is_token_char(c) <==> token_code(code(c)),
        forall|sep: Separator| #[trigger] sep.cuts(c) <==> separates(sep, c),
{
}

/// Lowering moves the letters `A` to `Z` by 32 and changes nothing else.
pub proof fn law_lowering(s: Seq<char>)
    ensures
        lowered(s).len() == s.len(),
        forall|i: int|
            0 <= i < s.len() ==> code(#[trigger] lowered(s)[i]) == lower_code(code(s[i])),
{
}

/// A text is cut at each separator: the pieces on both sides are those of the
/// two texts around it.
pub proof fn law_pieces_at_a_separator(a: Seq<char>, c: char, b: Seq<char>, sep: Separator)
    requires
        separates(sep, c),
    ensures
        pieces(a + seq![c] + b, sep) == pieces(a, sep) + pieces(b, sep),
    decreases b.len(),
{
    let s = a + seq![c] + b;
    law_character_classes(c);
    lemma_pieces(a, sep);
    lemma_pieces(b, sep);
    if b.len() == 0 {
        assert(s.drop_last() =~= a);
        assert(s.last() == c);
        assert(b =~= Seq::empty());
        assert(pieces(s, sep) =~= pieces(a, sep) + pieces(b, sep));
    } else {
        let rest = b.drop_last();
        law_pieces_at_a_separator(a, c, rest, sep);
        lemma_pieces(rest, sep);
        assert(s.drop_last() =~= a + seq![c] + rest);
        assert(s.last() == b.last());
        assert(pieces(s, sep) =~= pieces(a, sep) + pieces(b, sep));
    }
}

/// A text without a separator is its own only piece.
pub proof fn law_uncut_text_is_one_piece(s: Seq<char>, sep: Separator)
    requires
        forall|i: int| 0 <= i < s.len() ==> !separates(sep, #[trigger] s[i]),
    ensures
        pieces(s, sep) == seq![s],
{
    assert forall|i: int| 0 <= i < s.len() implies !sep.cuts(#[trigger] s[i]) by {
        law_character_classes(s[i]);
    }
    lemma_uncut(s, sep);
}

/// A text that is nothing but `n` dots.
pub open spec fn dots(n: nat) -> Seq<char> {
    Seq::new(n, |i: int| '.')
}

/// Removing the outer dots takes dots from both ends, and as many as there are.
pub proof fn law_outer_dots(m: nat, core: Seq<char>, n: nat)
    requires
        core.len() > 0 ==> code(core[0]) != 46 && code(core.last()) != 46,
    ensures
        without_outer_dots(dots(m) + core + dots(n)) == core,
    decreases m + n,
{
    let s = dots(m) + core + dots(n);
    if m > 0 {
        law_outer_dots((m - 1) as nat, core, n);
        assert(s[0] == '.');
        assert(s.drop_first() =~= dots((m - 1) as nat) + core + dots(n));
    } else if n > 0 {
        law_outer_dots(m, core, (n - 1) as nat);
        assert(s.last() == '.');
        assert(s.drop_last() =~= dots(m) + core + dots((n - 1) as nat));
        if core.len() == 0 {
            assert(s[0] == '.');
            assert(s.drop_first() =~= dots(m) + core + dots((n - 1) as nat));
        } else {
            assert(s[0] == core[0]);
        }
    } else {
        assert(s =~= core);
    }
}

/// Trimming goes piece by piece.
proof fn lemma_trimmed_concat(a: Seq<Seq<char>>, b: Seq<Seq<char>>)
    ensures
        trimmed(a + b) == trimmed(a) + trimmed(b),
    decreases b.len(),
{
    if b.len() == 0 {
        assert(a + b =~= a);
        assert(trimmed(a) + trimmed(b) =~= trimmed(a));
    } else {
        lemma_trimmed_concat(a, b.drop_last());
        assert((a + b).drop_last() =~= a + b.drop_last());
        assert((a + b).last() == b.last());
        assert(trimmed(a + b) =~= trimmed(a) + trimmed(b));
    }
}

/// The tokens on both sides of a character that no token may hold are those of
/// the two texts around it.
pub proof fn law_tokens_around_a_separator(a: Seq<char>, c: char, b: Seq<char>)
    requires
        !token_code(code(c)),
    ensures
        tokens_of(a + seq![c] + b) == tokens_of(a) + tokens_of(b),
{
    let sep = Separator::Punctuation;
    assert(lowered(a + seq![c] + b) =~= lowered(a) + seq![c] + lowered(b));
    law_pieces_at_a_separator(lowered(a), c, lowered(b), sep);
    lemma_trimmed_concat(pieces(lowered(a), sep), pieces(lowered(b), sep));
}

/// A run of letters, digits and dots is one token: the run in lower case,
/// without the dots around it.  A run of dots is no token.
pub proof fn law_token_of_a_run(m: nat, core: Seq<char>, n: nat)
    requires
        forall|i: int| 0 <= i < core.len() ==> token_code(code(#[trigger] core[i])),
        core.len() > 0 ==> code(core[0]) != 46 && code(core.last()) != 46,
    ensures
        core.len() == 0 ==> tokens_of(dots(m) + core + dots(n)).len() == 0,
        core.len() > 0 ==> {
            let found = tokens_of(dots(m) + core + dots(n));
            &&& found.len() == 1
            &&& found[0].len() == core.len()
            &&& forall|i: int|
                0 <= i < core.len() ==> code(#[trigger] found[0][i]) == lower_code(code(core[i]))
        },
{
    let sep = Separator::Punctuation;
    let s = dots(m) + core + dots(n);
    let low = lowered(core);
    assert(lowered(s) =~= dots(m) + low + dots(n));
    assert forall|i: int| 0 <= i < lowered(s).len() implies token_code(
        code(#[trigger] lowered(s)[i]),
    ) by {
        if m <= i < m + core.len() {
            assert(s[i] == core[i - m]);
        } else {
            assert(s[i] == '.');
        }
    }
    law_uncut_text_is_one_piece(lowered(s), sep);
    if core.len() > 0 {
        assert(low[0] == lower(core[0]));
        assert(low.last() == lower(core.last()));
    }
    law_outer_dots(m, low, n);
    let parts = seq![lowered(s)];
    assert(parts.drop_last() =~= Seq::empty());
    assert(trimmed(parts.drop_last()) =~= Seq::<Seq<char>>::empty());
    assert(parts.last() == lowered(s));
    if core.len() > 0 {
        assert(trimmed(parts) =~= seq![low]);
    } else {
        assert(trimmed(parts) =~= Seq::<Seq<char>>::empty());
    }
}

/// Whether a sequence of texts is made of three.
pub open spec fn made_of(
    whole: Seq<Seq<char>>,
    before: Seq<Seq<char>>,
    middle: Seq<Seq<char>>,
    after: Seq<Seq<char>>,
) -> bool {
    whole == before + middle + after
}

/// Whether a phrase of at least one text occurs in a row in a sequence of texts,
/// with `at` texts before it.
pub open spec fn occurs_at(whole: Seq<Seq<char>>, phrase: Seq<Seq<char>>, at: int) -> bool {
    phrase.len() > 0 && exists|before: Seq<Seq<char>>, after: Seq<Seq<char>>|
        before.len() == at && #[trigger] made_of(whole, before, phrase, after)
}

/// A phrase starts at an index exactly where the sequence is made of so many
/// texts, the phrase, and further texts.
pub proof fn law_phrase_at(whole: Seq<Seq<char>>, phrase: Seq<Seq<char>>, at: int)
    ensures
        phrase_at(whole, phrase, at) <==> occurs_at(whole, phrase, at),
{
    if phrase_at(whole, phrase, at) {
        let before = whole.take(at);
        let after = whole.skip(at + phrase.len());
        assert forall|i: int| 0 <= i < phrase.len() implies whole[at + i] == #[trigger] phrase[i] by {
            assert(whole.subrange(at, at + phrase.len())[i] == phrase[i]);
        }
        assert(whole =~= before + phrase + after);
        assert(made_of(whole, before, phrase, after));
    }
    if occurs_at(whole, phrase, at) {
        let (before, after) = choose|before: Seq<Seq<char>>, after: Seq<Seq<char>>|
            before.len() == at && #[trigger] made_of(whole, before, phrase, after);
        assert(whole.subrange(at, at + phrase.len()) =~= phrase);
    }
}

/// The starts of a phrase are all the places where it occurs, each once and in
/// ascending order.
pub proof fn law_all_phrase_starts(whole: Seq<Seq<char>>, phrase: Seq<Seq<char>>)
    ensures
        forall|at: int| #[trigger]
            all_phrase_starts(whole, phrase).contains(at) <==> occurs_at(whole, phrase, at),
        forall|p: int, q: int|
            0 <= p < q < all_phrase_starts(whole, phrase).len() ==> all_phrase_starts(
                whole,
                phrase,
            )[p] < all_phrase_starts(whole, phrase)[q],
{
    lemma_phrase_starts(whole, phrase, whole.len());
    assert forall|at: int| #[trigger]
        all_phrase_starts(whole, phrase).contains(at) <==> occurs_at(whole, phrase, at) by {
        law_phrase_at(whole, phrase, at);
    }
}

/// A text holds a phrase exactly if the tokens of the phrase, of which there
/// are some, stand in a row anywhere among its tokens.
pub proof fn law_phrase_anywhere(value: Seq<char>, phrase: Seq<char>)
    ensures
        has_phrase(value, phrase) <==> tokens_of(phrase).len() > 0 && exists|
            before: Seq<Seq<char>>,
            after: Seq<Seq<char>>,
        | #[trigger]
            made_of(tokens_of(value), before, tokens_of(phrase), after),
{
    let all = tokens_of(value);
    let p = tokens_of(phrase);
    if has_phrase(value, phrase) {
        let at = choose|at: int| phrase_at(all, p, at);
        law_phrase_at(all, p, at);
        let (before, after) = choose|before: Seq<Seq<char>>, after: Seq<Seq<char>>|
            before.len() == at && #[trigger] made_of(all, before, p, after);
        assert(made_of(all, before, p, after));
    }
    if p.len() > 0 && exists|before: Seq<Seq<char>>, after: Seq<Seq<char>>| #[trigger]
        made_of(all, before, p, after) {
        let (before, after) = choose|before: Seq<Seq<char>>, after: Seq<Seq<char>>| #[trigger]
            made_of(all, before, p, after);
        assert(occurs_at(all, p, before.len() as int));
        law_phrase_at(all, p, before.len() as int);
    }
}

/// What a text holds as a phrase, every text holds that has further tokens
/// before or after the tokens of that text.
pub proof fn law_phrase_stays_in_longer_text(
    value: Seq<char>,
    phrase: Seq<char>,
    longer: Seq<char>,
    before: Seq<Seq<char>>,
    after: Seq<Seq<char>>,
)
    requires
        has_phrase(value, phrase),
        tokens_of(longer) == before + tokens_of(value) + after,
    ensures
        has_phrase(longer, phrase),
{
    let p = tokens_of(phrase);
    law_phrase_anywhere(value, phrase);
    let (b, a) = choose|b: Seq<Seq<char>>, a: Seq<Seq<char>>| #[trigger]
        made_of(tokens_of(value), b, p, a);
    assert(before + (b + p + a) + after =~= (before + b) + p + (a + after));
    assert(made_of(tokens_of(longer), before + b, p, a + after));
    law_phrase_anywhere(longer, phrase);
}

}
