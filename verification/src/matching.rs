//! Matching a stored value against a query.

use vstd::prelude::*;

use crate::error::Failure;
use crate::error::StorageError;
use crate::error::outcome;
use crate::pattern::fault_message;
use crate::pattern::glob_matches;
use crate::pattern::law_literal_pattern;
use crate::pattern::literal_char;
use crate::pattern::match_pattern;
use crate::pattern::pattern_matches;
use crate::pattern::tokens_of;
use crate::text::Delimiter;
use crate::text::ascii_lower;
use crate::text::char_lists;
use crate::text::chars_of;
use crate::text::is_ascii_text;
use crate::text::lemma_piece_chars;
use crate::text::lemma_pieces_nonempty;
use crate::text::lowercase;
use crate::text::pieces;
use crate::text::same_chars;
use crate::text::split_pieces;
use crate::text::split_words;
use crate::text::to_lowercase;
use crate::text::words;

verus! {

/// The characters that make a query word a pattern.
pub open spec fn wildcard_char(c: char) -> bool {
    c == '*' || c == '?' || c == '+' || c == '[' || c == ']'
}

/// Whether a text holds pattern characters.
pub open spec fn has_wildcard(s: Seq<char>) -> bool {
    exists|i: int| 0 <= i < s.len() && wildcard_char(#[trigger] s[i])
}

/// Whether a text holds pattern characters.
pub fn contains_wildcard(s: &[char]) -> (b: bool)
    ensures
        b == has_wildcard(s@),
{
    let mut i: usize = 0;
    while i < s.len()
        invariant
            i <= s.len(),
            forall|j: int| 0 <= j < i ==> !wildcard_char(#[trigger] s@[j]),
        decreases s.len() - i,
    {
        let c = s[i];
        if c == '*' || c == '?' || c == '+' || c == '[' || c == ']' {
            proof {
                assert(wildcard_char(s@[i as int]));
            }
            return true;
        }
        i = i + 1;
    }
    false
}

/// Whether one of the stored words answers a query word: a pattern must match
/// one of them, a plain word must be one of them.
pub open spec fn any_word(stored: Seq<Seq<char>>, asked: Seq<char>) -> Result<bool, Failure> {
    if has_wildcard(asked) {
        match tokens_of(asked) {
            Ok(ts) => Ok(
                exists|i: int| 0 <= i < stored.len() && glob_matches(ts, #[trigger] stored[i]),
            ),
            Err(fault) => Err(Failure::InvalidArgument(fault_message(fault, asked))),
        }
    } else {
        Ok(stored.contains(asked))
    }
}

/// Whether every query word is answered. The words are tried in order, up to
/// the first that is malformed or has no answer.
pub open spec fn all_words(stored: Seq<Seq<char>>, asked: Seq<Seq<char>>) -> Result<bool, Failure>
    decreases asked.len(),
{
    if asked.len() == 0 {
        Ok(true)
    } else {
        match any_word(stored, asked[0]) {
            Ok(true) => all_words(stored, asked.drop_first()),
            other => other,
        }
    }
}

/// Whether a stored value answers a query value, word by word and without
/// regard to case.
pub open spec fn value_matches(stored: Seq<char>, asked: Seq<char>) -> Result<bool, Failure> {
    all_words(pieces(lowercase(stored), Delimiter::Word), words(lowercase(asked)))
}

fn find_word(stored: &[Vec<char>], asked: &[char]) -> (r: Result<bool, StorageError>)
    requires
        stored@.len() > 0,
    ensures
        outcome(r) == any_word(char_lists(stored@), asked@),
{
    let ghost all = char_lists(stored@);
    let wild = contains_wildcard(asked);
    let mut i: usize = 0;
    while i < stored.len()
        invariant
            i <= stored.len(),
            stored@.len() > 0,
            all == char_lists(stored@),
            wild == has_wildcard(asked@),
            wild && i > 0 ==> tokens_of(asked@) is Ok,
            wild ==> forall|j: int|
                0 <= j < i ==> !glob_matches(tokens_of(asked@).unwrap(), #[trigger] all[j]),
            !wild ==> forall|j: int| 0 <= j < i ==> #[trigger] all[j] != asked@,
        decreases stored.len() - i,
    {
        proof {
            assert(all[i as int] == stored@[i as int]@);
        }
        if wild {
            match match_pattern(&stored[i], asked) {
                Ok(true) => {
                    return Ok(true);
                },
                Ok(false) => {},
                Err(e) => {
                    return Err(e);
                },
            }
        } else if same_chars(&stored[i], asked) {
            return Ok(true);
        }
        i = i + 1;
    }
    Ok(false)
}

/// Whether a stored value answers a query value.
pub fn match_value(stored: &str, asked: &str) -> (r: Result<bool, StorageError>)
    ensures
        outcome(r) == value_matches(stored@, asked@),
        is_ascii_text(stored@) && is_ascii_text(asked@) ==> outcome(r) == all_words(
            pieces(ascii_lower(stored@), Delimiter::Word),
            words(ascii_lower(asked@)),
        ),
{
    let low_stored = chars_of(to_lowercase(stored).as_str());
    let low_asked = chars_of(to_lowercase(asked).as_str());
    let qs = split_words(&low_asked);
    let fs = split_pieces(&low_stored, Delimiter::Word);
    let ghost all_fs = char_lists(fs@);
    let ghost all_qs = char_lists(qs@);
    proof {
        lemma_pieces_nonempty(low_stored@, Delimiter::Word);
        assert(all_fs.len() == fs@.len());
        assert(all_qs.skip(0) =~= all_qs);
    }
    let mut i: usize = 0;
    while i < qs.len()
        invariant
            i <= qs.len(),
            fs@.len() > 0,
            all_fs == char_lists(fs@),
            all_qs == char_lists(qs@),
            all_words(all_fs, all_qs.skip(i as int)) == value_matches(stored@, asked@),
            is_ascii_text(stored@) ==> lowercase(stored@) == ascii_lower(stored@),
            is_ascii_text(asked@) ==> lowercase(asked@) == ascii_lower(asked@),
        decreases qs.len() - i,
    {
        proof {
            assert(all_qs.skip(i as int)[0] == qs@[i as int]@);
            assert(all_qs.skip(i as int).drop_first() =~= all_qs.skip(i + 1));
        }
        match find_word(&fs, &qs[i]) {
            Ok(true) => {},
            Ok(false) => {
                return Ok(false);
            },
            Err(e) => {
                return Err(e);
            },
        }
        i = i + 1;
    }
    proof {
        assert(all_qs.skip(i as int).len() == 0);
    }
    Ok(true)
}

/// The fault of the first malformed pattern among the query words.
pub open spec fn first_fault(asked: Seq<Seq<char>>) -> Option<Failure>
    decreases asked.len(),
{
    if asked.len() == 0 {
        None
    } else if has_wildcard(asked[0]) && tokens_of(asked[0]) is Err {
        Some(
            Failure::InvalidArgument(fault_message(tokens_of(asked[0])->Err_0, asked[0])),
        )
    } else {
        first_fault(asked.drop_first())
    }
}

/// The fault of the first malformed pattern in a query value.
pub open spec fn query_fault(asked: Seq<char>) -> Option<Failure> {
    first_fault(words(lowercase(asked)))
}

proof fn lemma_first_fault(stored: Seq<Seq<char>>, asked: Seq<Seq<char>>)
    ensures
        all_words(stored, asked) matches Err(e) ==> first_fault(asked) == Some(e),
        first_fault(asked) is Some ==> all_words(stored, asked) != Ok::<bool, Failure>(true),
    decreases asked.len(),
{
    if asked.len() > 0 {
        lemma_first_fault(stored, asked.drop_first());
    }
}

/// A malformed query value is answered by no stored value, and where it is
/// refused, it is refused for the same reason whatever the stored value.
pub proof fn lemma_query_fault(stored: Seq<char>, asked: Seq<char>)
    ensures
        value_matches(stored, asked) matches Err(e) ==> query_fault(asked) == Some(e),
        query_fault(asked) is Some ==> value_matches(stored, asked) != Ok::<bool, Failure>(true),
{
    lemma_first_fault(pieces(lowercase(stored), Delimiter::Word), words(lowercase(asked)));
}

// ---------------------------------------------------------------------------
// What holds of matching
// ---------------------------------------------------------------------------

/// A character that neither makes a word a pattern nor ends a stored word.
pub open spec fn word_char(c: char) -> bool {
    !wildcard_char(c) && c != ',' && c != ';' && c != ':'
}

/// What is stored is found by its own value, in any case, as long as the value
/// has neither pattern characters nor punctuation that ends a word in it.
pub proof fn law_value_finds_itself(stored: Seq<char>, asked: Seq<char>)
    requires
        lowercase(stored) == lowercase(asked),
        forall|i: int| 0 <= i < lowercase(asked).len() ==> word_char(#[trigger] lowercase(asked)[i]),
    ensures
        value_matches(stored, asked) == Ok::<bool, Failure>(true),
{
    let s = lowercase(asked);
    lemma_same_pieces(s);
    lemma_piece_chars(s, Delimiter::WhiteSpace);
    let have = pieces(s, Delimiter::Word);
    let keep = |w: Seq<char>| w.len() > 0;
    lemma_filtered(have, keep);
    assert forall|i: int| 0 <= i < words(s).len() implies have.contains(#[trigger] words(s)[i])
        && !has_wildcard(words(s)[i]) by {
        let w = words(s)[i];
        assert(have.contains(w));
        let k = choose|k: int| 0 <= k < have.len() && have[k] == w;
        if has_wildcard(w) {
            let j = choose|j: int| 0 <= j < w.len() && wildcard_char(#[trigger] w[j]);
            assert(pieces(s, Delimiter::WhiteSpace)[k][j] == w[j]);
            assert(s.contains(w[j]));
            let m = choose|m: int| 0 <= m < s.len() && s[m] == w[j];
            assert(word_char(s[m]));
        }
    }
    lemma_all_words(have, words(s));
}

proof fn lemma_same_pieces(s: Seq<char>)
    requires
        forall|i: int| 0 <= i < s.len() ==> word_char(#[trigger] s[i]),
    ensures
        pieces(s, Delimiter::WhiteSpace) == pieces(s, Delimiter::Word),
    decreases s.len(),
{
    if s.len() > 0 {
        let front = s.drop_last();
        assert forall|i: int| 0 <= i < front.len() implies word_char(#[trigger] front[i]) by {
            assert(word_char(s[i]));
        }
        lemma_same_pieces(front);
        assert(word_char(s[s.len() - 1]));
    }
}

proof fn lemma_filtered(all: Seq<Seq<char>>, keep: spec_fn(Seq<char>) -> bool)
    ensures
        forall|i: int| 0 <= i < all.filter(keep).len() ==> all.contains(#[trigger] all.filter(keep)[i]),
    decreases all.len(),
{
    reveal(Seq::filter);
    if all.len() > 0 {
        let front = all.drop_last();
        lemma_filtered(front, keep);
        assert(all[all.len() - 1] == all.last());
        assert forall|i: int| 0 <= i < all.filter(keep).len() implies all.contains(
            #[trigger] all.filter(keep)[i],
        ) by {
            if i < front.filter(keep).len() {
                assert(front.contains(front.filter(keep)[i]));
                let k = choose|k: int| 0 <= k < front.len() && front[k] == front.filter(keep)[i];
                assert(all[k] == front[k]);
            }
        }
    }
}

proof fn lemma_all_words(stored: Seq<Seq<char>>, asked: Seq<Seq<char>>)
    requires
        forall|i: int|
            0 <= i < asked.len() ==> stored.contains(#[trigger] asked[i]) && !has_wildcard(asked[i]),
    ensures
        all_words(stored, asked) == Ok::<bool, Failure>(true),
    decreases asked.len(),
{
    if asked.len() > 0 {
        let rest = asked.drop_first();
        assert forall|i: int| 0 <= i < rest.len() implies stored.contains(#[trigger] rest[i])
            && !has_wildcard(rest[i]) by {
            assert(stored.contains(asked[i + 1]));
        }
        lemma_all_words(stored, rest);
        assert(stored.contains(asked[0]));
    }
}

/// A word, taken as a pattern, matches one of the parts of a stored value.
pub open spec fn found_in(parts: Seq<Seq<char>>, word: Seq<char>) -> bool {
    exists|j: int|
        0 <= j < parts.len() && #[trigger] pattern_matches(parts[j], word) == Ok::<bool, Failure>(
            true,
        )
}

/// Values are matched without regard to case.
pub proof fn law_case_does_not_matter(
    stored: Seq<char>,
    asked: Seq<char>,
    other: Seq<char>,
    also: Seq<char>,
)
    requires
        lowercase(stored) == lowercase(other),
        lowercase(asked) == lowercase(also),
    ensures
        value_matches(stored, asked) == value_matches(other, also),
{
}

/// Every word that is asked for is found among the parts of a stored value.
pub open spec fn all_found(parts: Seq<Seq<char>>, ws: Seq<Seq<char>>) -> bool {
    forall|i: int| 0 <= i < ws.len() ==> found_in(parts, #[trigger] ws[i])
}

/// A value is matched word by word: it matches exactly where every word that is
/// asked for matches one of its words, each taken as a pattern, in whatever
/// order they stand.
pub proof fn law_word_by_word(stored: Seq<char>, asked: Seq<char>)
    ensures
        value_matches(stored, asked) == Ok::<bool, Failure>(true) <==> all_found(
            pieces(lowercase(stored), Delimiter::Word),
            words(lowercase(asked)),
        ),
{
    lemma_pieces_nonempty(lowercase(stored), Delimiter::Word);
    lemma_word_by_word(pieces(lowercase(stored), Delimiter::Word), words(lowercase(asked)));
}

proof fn lemma_word_by_word(parts: Seq<Seq<char>>, ws: Seq<Seq<char>>)
    requires
        parts.len() > 0,
    ensures
        all_words(parts, ws) == Ok::<bool, Failure>(true) <==> all_found(parts, ws),
    decreases ws.len(),
{
    if ws.len() > 0 {
        let rest = ws.drop_first();
        lemma_word_by_word(parts, rest);
        lemma_one_word(parts, ws[0]);
        if all_found(parts, ws) {
            assert forall|i: int| 0 <= i < rest.len() implies found_in(
                parts,
                #[trigger] rest[i],
            ) by {
                assert(rest[i] == ws[i + 1]);
            }
            assert(found_in(parts, ws[0]));
        }
        if all_words(parts, ws) == Ok::<bool, Failure>(true) {
            assert forall|i: int| 0 <= i < ws.len() implies found_in(parts, #[trigger] ws[i]) by {
                if i > 0 {
                    assert(rest[i - 1] == ws[i]);
                }
            }
        }
    }
}

/// The first word that is not found decides: it is refused where it is
/// malformed, and otherwise the value does not match.
pub proof fn law_first_word_not_found(stored: Seq<char>, asked: Seq<char>, i: int)
    requires
        0 <= i < words(lowercase(asked)).len(),
        !found_in(pieces(lowercase(stored), Delimiter::Word), words(lowercase(asked))[i]),
        all_found(pieces(lowercase(stored), Delimiter::Word), words(lowercase(asked)).take(i)),
    ensures
        value_matches(stored, asked) == (match pattern_matches(
            pieces(lowercase(stored), Delimiter::Word)[0],
            words(lowercase(asked))[i],
        ) {
            Err(f) => Err::<bool, Failure>(f),
            Ok(_) => Ok(false),
        }),
{
    lemma_pieces_nonempty(lowercase(stored), Delimiter::Word);
    lemma_first_not_found(
        pieces(lowercase(stored), Delimiter::Word),
        words(lowercase(asked)),
        i,
    );
}

proof fn lemma_first_not_found(parts: Seq<Seq<char>>, ws: Seq<Seq<char>>, i: int)
    requires
        parts.len() > 0,
        0 <= i < ws.len(),
        !found_in(parts, ws[i]),
        all_found(parts, ws.take(i)),
    ensures
        all_words(parts, ws) == (match pattern_matches(parts[0], ws[i]) {
            Err(f) => Err::<bool, Failure>(f),
            Ok(_) => Ok(false),
        }),
    decreases ws.len(),
{
    lemma_one_word(parts, ws[0]);
    if i > 0 {
        let rest = ws.drop_first();
        assert(ws.take(i)[0] == ws[0]);
        assert(found_in(parts, ws.take(i)[0]));
        assert(rest[i - 1] == ws[i]);
        assert forall|j: int| 0 <= j < rest.take(i - 1).len() implies found_in(
            parts,
            #[trigger] rest.take(i - 1)[j],
        ) by {
            assert(rest.take(i - 1)[j] == ws.take(i)[j + 1]);
        }
        lemma_first_not_found(parts, rest, i - 1);
    }
}

proof fn lemma_one_word(parts: Seq<Seq<char>>, word: Seq<char>)
    requires
        parts.len() > 0,
    ensures
        found_in(parts, word) ==> any_word(parts, word) == Ok::<bool, Failure>(true),
        !found_in(parts, word) ==> any_word(parts, word) == (if pattern_matches(
            parts[0],
            word,
        ) is Err {
            pattern_matches(parts[0], word)
        } else {
            Ok(false)
        }),
{
    if has_wildcard(word) {
        if tokens_of(word) is Ok {
            let ts = tokens_of(word)->Ok_0;
            if exists|i: int| 0 <= i < parts.len() && glob_matches(ts, #[trigger] parts[i]) {
                let i = choose|i: int| 0 <= i < parts.len() && glob_matches(ts, #[trigger] parts[i]);
                assert(pattern_matches(parts[i], word) == Ok::<bool, Failure>(true));
            }
        }
    } else {
        assert forall|i: int| 0 <= i < word.len() implies literal_char(#[trigger] word[i]) by {
            assert(!wildcard_char(word[i]));
        }
        assert forall|j: int| 0 <= j < parts.len() implies #[trigger] pattern_matches(
            parts[j],
            word,
        ) == Ok::<bool, Failure>(parts[j] == word) by {
            law_literal_pattern(word, parts[j]);
        }
        if parts.contains(word) {
            let j = choose|j: int| 0 <= j < parts.len() && parts[j] == word;
            assert(pattern_matches(parts[j], word) == Ok::<bool, Failure>(true));
        }
        assert(pattern_matches(parts[0], word) is Ok);
    }
}

/// Nothing that is asked for is found in every value.
pub proof fn law_blank_query(stored: Seq<char>, asked: Seq<char>)
    requires
        words(lowercase(asked)).len() == 0,
    ensures
        value_matches(stored, asked) == Ok::<bool, Failure>(true),
{
}

} // verus!
