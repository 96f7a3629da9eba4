//! Case folding, splitting into tokens, and phrases of tokens.

use vstd::prelude::*;
use vstd::utf8::*;

verus! {

/// An ASCII decimal digit.
pub open spec fn is_digit(c: char) -> bool {
    '0' <= c <= '9'
}

/// An ASCII letter or digit, or a dot: what a token may hold.
pub open spec fn is_token_char(c: char) -> bool {
    is_digit(c) || 'a' <= c <= 'z' || 'A' <= c <= 'Z' || c == '.'
}

/// The lower case form of an ASCII letter; every other character as it is.
pub open spec fn lower(c: char) -> char {
    if 'A' <= c <= 'Z' {
        (c as u32 + 32) as char
    } else {
        c
    }
}

/// A text with each of its characters in ASCII lower case.
pub open spec fn lowered(s: Seq<char>) -> Seq<char> {
    s.map_values(|c: char| lower(c))
}

/// What the strings of a sequence hold.
pub open spec fn texts(strings: Seq<String>) -> Seq<Seq<char>> {
    strings.map_values(|s: String| s@)
}

/// What the string slices of a sequence hold.
pub open spec fn words(strs: Seq<&str>) -> Seq<Seq<char>> {
    strs.map_values(|s: &str| s@)
}

/// What an optional text holds, where an absent one counts as empty.
pub open spec fn text_or_empty(s: Option<String>) -> Seq<char> {
    match s {
        Some(s) => s@,
        None => Seq::empty(),
    }
}

/// `str::to_ascii_lowercase` maps the ASCII letters `A` to `Z` to `a` to `z`
/// and leaves every other character as it is.
pub assume_specification[ str::to_ascii_lowercase ](s: &str) -> (res: String)
    ensures
        res@ == lowered(s@),
;

/// `String::push` appends one character.
pub assume_specification[ String::push ](s: &mut String, c: char)
    ensures
        final(s)@ == old(s)@.push(c),
;

/// Where a text is cut into pieces.
#[derive(Clone, Copy, Debug, PartialEq, Eq, Structural)]
pub enum Separator {
    /// At every character that no token may hold.
    Punctuation,
    /// At every occurrence of one character.
    Char(char),
}

impl Separator {
    /// Whether a text is cut at the character `c`.
    pub open spec fn cuts(self, c: char) -> bool {
        match self {
            Separator::Punctuation => !is_token_char(c),
            Separator::Char(sep) => c == sep,
        }
    }

    /// Whether a text is cut at the character `c`.
    pub fn cuts_at(self, c: char) -> (res: bool)
        ensures
            res == self.cuts(c),
    {
        match self {
            Separator::Punctuation => !(('0' <= c && c <= '9') || ('a' <= c && c <= 'z') || ('A'
                <= c && c <= 'Z') || c == '.'),
            Separator::Char(sep) => c == sep,
        }
    }
}

/// The pieces between the separators of a text.  `n` separators make `n + 1`
/// pieces, any of which may be empty.
pub open spec fn pieces(s: Seq<char>, sep: Separator) -> Seq<Seq<char>>
    decreases s.len(),
{
    if s.len() == 0 {
        seq![Seq::empty()]
    } else {
        let before = pieces(s.drop_last(), sep);
        if sep.cuts(s.last()) {
            before.push(Seq::empty())
        } else {
            before.drop_last().push(before.last().push(s.last()))
        }
    }
}

/// A text without the dots at its start and at its end.
pub open spec fn without_outer_dots(s: Seq<char>) -> Seq<char>
    decreases s.len(),
{
    if s.len() > 0 && s[0] == '.' {
        without_outer_dots(s.drop_first())
    } else if s.len() > 0 && s.last() == '.' {
        without_outer_dots(s.drop_last())
    } else {
        s
    }
}

/// Pieces of a text without their outer dots; those of which nothing is left
/// are dropped.
pub open spec fn trimmed(parts: Seq<Seq<char>>) -> Seq<Seq<char>>
    decreases parts.len(),
{
    if parts.len() == 0 {
        Seq::empty()
    } else {
        let before = trimmed(parts.drop_last());
        let part = without_outer_dots(parts.last());
        if part.len() == 0 {
            before
        } else {
            before.push(part)
        }
    }
}

/// The tokens of a text: its runs of letters, digits and dots, in lower case
/// and without outer dots.
pub open spec fn tokens_of(s: Seq<char>) -> Seq<Seq<char>> {
    trimmed(pieces(lowered(s), Separator::Punctuation))
}

/// Whether the phrase `needle` starts at index `at` of `haystack`.  The empty
/// phrase starts nowhere.
pub open spec fn phrase_at(haystack: Seq<Seq<char>>, needle: Seq<Seq<char>>, at: int) -> bool {
    &&& needle.len() > 0
    &&& 0 <= at
    &&& at + needle.len() <= haystack.len()
    &&& haystack.subrange(at, at + needle.len()) == needle
}

/// The indices below `bound` at which the phrase `needle` starts, ascending.
pub open spec fn phrase_starts(
    haystack: Seq<Seq<char>>,
    needle: Seq<Seq<char>>,
    bound: nat,
) -> Seq<int>
    decreases bound,
{
    if bound == 0 {
        Seq::empty()
    } else {
        let before = phrase_starts(haystack, needle, (bound - 1) as nat);
        if phrase_at(haystack, needle, bound - 1) {
            before.push(bound - 1)
        } else {
            before
        }
    }
}

/// Every index at which the phrase `needle` starts, ascending.
pub open spec fn all_phrase_starts(haystack: Seq<Seq<char>>, needle: Seq<Seq<char>>) -> Seq<int> {
    phrase_starts(haystack, needle, haystack.len())
}

/// Whether the tokens of `phrase` occur in a row among the tokens of `value`.
pub open spec fn has_phrase(value: Seq<char>, phrase: Seq<char>) -> bool {
    exists|at: int| phrase_at(tokens_of(value), tokens_of(phrase), at)
}

/// The machine integers of a sequence as mathematical ones.
pub open spec fn indices(s: Seq<usize>) -> Seq<int> {
    s.map_values(|i: usize| i as int)
}

/// Texts are equal exactly when their UTF-8 encodings are.
proof fn lemma_encoding_is_injective(a: Seq<char>, b: Seq<char>)
    ensures
        encode_utf8(a) == encode_utf8(b) ==> a == b,
{
    encode_utf8_decode_utf8(a);
    encode_utf8_decode_utf8(b);
}

/// Whether two strings hold the same text.
pub fn same_text(a: &str, b: &str) -> (res: bool)
    ensures
        res == (a@ == b@),
{
    let left = a.as_bytes();
    let right = b.as_bytes();
    proof {
        lemma_encoding_is_injective(a@, b@);
    }
    if left.len() != right.len() {
        return false;
    }
    let mut i: usize = 0;
    while i < left.len()
        invariant
            i <= left@.len(),
            left@.len() == right@.len(),
            left@ == encode_utf8(a@),
            right@ == encode_utf8(b@),
            forall|j: int| 0 <= j < i ==> left@[j] == right@[j],
        decreases left@.len() - i,
    {
        if left[i] != right[i] {
            return false;
        }
        i = i + 1;
    }
    assert(left@ =~= right@);
    true
}

/// Whether two lists of strings hold the same texts in the same order, where
/// `left` is read from index `from` on.
fn same_texts_from(left: &[String], from: usize, right: &[String]) -> (res: bool)
    requires
        from + right@.len() <= left@.len(),
    ensures
        res == (texts(left@).subrange(from as int, from + right@.len()) == texts(right@)),
{
    let mut i: usize = 0;
    while i < right.len()
        invariant
            i <= right@.len(),
            from + right@.len() <= left.len(),
            forall|j: int| 0 <= j < i ==> texts(left@)[from + j] == #[trigger] texts(right@)[j],
        decreases right@.len() - i,
    {
        if !same_text(left[from + i].as_str(), right[i].as_str()) {
            assert(texts(left@).subrange(from as int, from + right@.len())[i as int] != texts(
                right@,
            )[i as int]);
            return false;
        }
        i = i + 1;
    }
    assert(texts(left@).subrange(from as int, from + right@.len()) =~= texts(right@));
    true
}

/// Whether a text is one of a list of strings.
pub fn contains_text(list: &[String], value: &str) -> (res: bool)
    ensures
        res == texts(list@).contains(value@),
{
    let mut i: usize = 0;
    while i < list.len()
        invariant
            i <= list@.len(),
            forall|j: int| 0 <= j < i ==> #[trigger] texts(list@)[j] != value@,
        decreases list@.len() - i,
    {
        if same_text(list[i].as_str(), value) {
            assert(texts(list@)[i as int] == value@);
            return true;
        }
        i = i + 1;
    }
    false
}

/// Whether a text is one of a list of words.
pub fn contains_word(list: &[&str], value: &str) -> (res: bool)
    ensures
        res == words(list@).contains(value@),
{
    let mut i: usize = 0;
    while i < list.len()
        invariant
            i <= list@.len(),
            forall|j: int| 0 <= j < i ==> #[trigger] words(list@)[j] != value@,
        decreases list@.len() - i,
    {
        if same_text(list[i], value) {
            assert(words(list@)[i as int] == value@);
            return true;
        }
        i = i + 1;
    }
    false
}

/// A text in ASCII lower case.
pub fn normalize(value: &str) -> (res: String)
    ensures
        res@ == lowered(value@),
{
    value.to_ascii_lowercase()
}

/// A text cut at its separators.
pub fn split(value: &str, sep: Separator) -> (res: Vec<String>)
    ensures
        texts(res@) == pieces(value@, sep),
{
    let mut done: Vec<String> = Vec::new();
    let mut current = String::new();
    proof {
        assert(value@.take(0) =~= Seq::empty());
        assert(texts(done@).push(current@) =~= seq![Seq::empty()]);
    }
    for c in it: value.chars()
        invariant
            it.seq() == value@,
            texts(done@).push(current@) == pieces(value@.take(it.index() as int), sep),
    {
        let ghost before = texts(done@).push(current@);
        proof {
            let here = value@.take(it.index() + 1);
            assert(here.drop_last() =~= value@.take(it.index() as int));
            assert(here.last() == c);
            assert(before.drop_last() =~= texts(done@));
        }
        if sep.cuts_at(c) {
            let ghost old_done = texts(done@);
            let ghost piece = current@;
            done.push(current);
            current = String::new();
            assert(texts(done@) =~= old_done.push(piece));
        } else {
            current.push(c);
        }
    }
    assert(value@.take(value@.len() as int) =~= value@);
    let ghost old_done = texts(done@);
    let ghost piece = current@;
    done.push(current);
    assert(texts(done@) =~= old_done.push(piece));
    done
}

/// There is always a piece, and no piece holds a separator.
pub proof fn lemma_pieces(s: Seq<char>, sep: Separator)
    ensures
        pieces(s, sep).len() > 0,
        forall|i: int, j: int|
            #![trigger pieces(s, sep)[i][j]]
            0 <= i < pieces(s, sep).len() && 0 <= j < pieces(s, sep)[i].len() ==> !sep.cuts(
                pieces(s, sep)[i][j],
            ),
    decreases s.len(),
{
    if s.len() > 0 {
        lemma_pieces(s.drop_last(), sep);
        let before = pieces(s.drop_last(), sep);
        let after = pieces(s, sep);
        assert forall|i: int, j: int|
            #![trigger after[i][j]]
            0 <= i < after.len() && 0 <= j < after[i].len() implies !sep.cuts(after[i][j]) by {
            if i < before.len() - 1 {
                assert(after[i] == before[i]);
                assert(!sep.cuts(before[i][j]));
            } else if i == before.len() - 1 && j < before[i].len() {
                assert(!sep.cuts(before[i][j]));
            }
        }
    }
}

/// A text of ASCII characters without its outer dots.
fn trim_dots(value: &str) -> (res: String)
    requires
        value.is_ascii(),
    ensures
        res@ == without_outer_dots(value@),
{
    let mut start: usize = 0;
    let mut end: usize = value.unicode_len();
    proof {
        assert(value@.subrange(0, value@.len() as int) =~= value@);
    }
    while start < end && value.get_ascii(start) == '.' as u8
        invariant
            start <= end <= value@.len(),
            value.is_ascii(),
            without_outer_dots(value@.subrange(start as int, end as int)) == without_outer_dots(
                value@,
            ),
        decreases end - start,
    {
        proof {
            let rest = value@.subrange(start as int, end as int);
            assert(rest.drop_first() =~= value@.subrange(start + 1, end as int));
            assert(rest[0] == value@[start as int]);
        }
        start = start + 1;
    }
    while start < end && value.get_ascii(end - 1) == '.' as u8
        invariant
            start <= end <= value@.len(),
            value.is_ascii(),
            start < end ==> value@[start as int] != '.',
            without_outer_dots(value@.subrange(start as int, end as int)) == without_outer_dots(
                value@,
            ),
        decreases end - start,
    {
        proof {
            let rest = value@.subrange(start as int, end as int);
            assert(rest.drop_last() =~= value@.subrange(start as int, end - 1));
            assert(rest[0] == value@[start as int]);
            assert(rest.last() == value@[end - 1]);
        }
        end = end - 1;
    }
    value.substring_ascii(start, end).to_owned()
}

/// The tokens of a text.
pub fn tokens(value: &str) -> (res: Vec<String>)
    ensures
        texts(res@) == tokens_of(value@),
{
    let normalized = normalize(value);
    let parts = split(normalized.as_str(), Separator::Punctuation);
    let ghost all = pieces(normalized@, Separator::Punctuation);
    proof {
        lemma_pieces(normalized@, Separator::Punctuation);
    }
    let mut res: Vec<String> = Vec::new();
    let mut i: usize = 0;
    assert(texts(res@) =~= trimmed(all.take(0)));
    while i < parts.len()
        invariant
            i <= parts@.len(),
            texts(parts@) == all,
            forall|i: int, j: int|
                #![trigger all[i][j]]
                0 <= i < all.len() && 0 <= j < all[i].len() ==> is_token_char(all[i][j]),
            texts(res@) == trimmed(all.take(i as int)),
        decreases parts@.len() - i,
    {
        proof {
            assert(all[i as int] == parts@[i as int]@);
            assert(all.take(i + 1).drop_last() =~= all.take(i as int));
            assert forall|j: int| 0 <= j < parts@[i as int]@.len() implies is_token_char(
                #[trigger] parts@[i as int]@[j],
            ) by {
                assert(is_token_char(all[i as int][j]));
            }
        }
        let token = trim_dots(parts[i].as_str());
        if !token.as_str().is_empty() {
            let ghost before = texts(res@);
            let ghost text = token@;
            res.push(token);
            assert(texts(res@) =~= before.push(text));
        }
        i = i + 1;
    }
    assert(all.take(all.len() as int) =~= all);
    res
}

/// The indices at which a phrase starts.
pub fn phrase_positions(haystack: &[String], needle: &[String]) -> (res: Vec<usize>)
    ensures
        indices(res@) == all_phrase_starts(texts(haystack@), texts(needle@)),
{
    let mut res: Vec<usize> = Vec::new();
    let mut i: usize = 0;
    assert(indices(res@) =~= Seq::empty());
    while i < haystack.len()
        invariant
            i <= haystack@.len(),
            indices(res@) == phrase_starts(texts(haystack@), texts(needle@), i as nat),
        decreases haystack@.len() - i,
    {
        if needle.len() > 0 && needle.len() <= haystack.len() - i && same_texts_from(
            haystack,
            i,
            needle,
        ) {
            let ghost before = indices(res@);
            res.push(i);
            assert(indices(res@) =~= before.push(i as int));
        }
        i = i + 1;
    }
    res
}

/// The listed starts of a phrase are exactly the indices at which it starts,
/// each listed once and in ascending order.
pub proof fn lemma_phrase_starts(haystack: Seq<Seq<char>>, needle: Seq<Seq<char>>, bound: nat)
    ensures
        forall|at: int|
            #[trigger] phrase_starts(haystack, needle, bound).contains(at) <==> 0 <= at < bound
                && phrase_at(haystack, needle, at),
        forall|p: int, q: int|
            0 <= p < q < phrase_starts(haystack, needle, bound).len() ==> phrase_starts(
                haystack,
                needle,
                bound,
            )[p] < phrase_starts(haystack, needle, bound)[q],
    decreases bound,
{
    if bound > 0 {
        let last = bound - 1;
        lemma_phrase_starts(haystack, needle, last as nat);
        let before = phrase_starts(haystack, needle, last as nat);
        let after = phrase_starts(haystack, needle, bound);
        assert forall|at: int| #[trigger]
            after.contains(at) <==> 0 <= at < bound && phrase_at(haystack, needle, at) by {
            if before.contains(at) {
                let k = choose|k: int| 0 <= k < before.len() && before[k] == at;
                assert(after[k] == at);
            }
            if at == last && phrase_at(haystack, needle, at) {
                assert(after[after.len() - 1] == at);
            }
            if after.contains(at) {
                let k = choose|k: int| 0 <= k < after.len() && after[k] == at;
                if k < before.len() {
                    assert(before[k] == at);
                }
            }
        }
        assert forall|p: int, q: int| 0 <= p < q < after.len() implies after[p] < after[q] by {
            if q == before.len() {
                assert(before.contains(before[p]));
            }
        }
    }
}

/// Whether the tokens of `phrase` occur in a row among those of `value`.
pub fn contains_phrase(value: &str, phrase: &str) -> (res: bool)
    ensures
        res == has_phrase(value@, phrase@),
{
    let haystack = tokens(value);
    let needle = tokens(phrase);
    let found = phrase_positions(haystack.as_slice(), needle.as_slice());
    proof {
        let starts = all_phrase_starts(tokens_of(value@), tokens_of(phrase@));
        lemma_phrase_starts(tokens_of(value@), tokens_of(phrase@), tokens_of(value@).len());
        if starts.len() > 0 {
            assert(starts.contains(starts[0]));
        } else if has_phrase(value@, phrase@) {
            let at = choose|at: int| phrase_at(tokens_of(value@), tokens_of(phrase@), at);
            assert(starts.contains(at));
        }
    }
    found.len() > 0
}

}
