//! The pattern language of queries: `*`, `+`, `?` and `[...]`.

use vstd::prelude::*;

use crate::error::Failure;
use crate::error::StorageError;
use crate::error::outcome;
use crate::text::copy_range;
use crate::text::text_of;

verus! {

/// One element of a pattern.
pub enum Token {
    /// One given character.
    Literal(char),
    /// Any characters, none included.
    Star,
    /// Any characters, at least one.
    Plus,
    /// Any one character.
    Question,
    /// One of the listed characters.
    OneOf(Vec<char>),
}

/// A `Token` as a value of the specification.
pub enum Glob {
    Literal(char),
    Star,
    Plus,
    Question,
    OneOf(Set<char>),
}

impl View for Token {
    type V = Glob;

    open spec fn view(&self) -> Glob {
        match self {
            Token::Literal(c) => Glob::Literal(*c),
            Token::Star => Glob::Star,
            Token::Plus => Glob::Plus,
            Token::Question => Glob::Question,
            Token::OneOf(cs) => Glob::OneOf(cs@.to_set()),
        }
    }
}

/// The model of a list of tokens.
pub open spec fn globs(ts: Seq<Token>) -> Seq<Glob> {
    ts.map_values(|t: Token| t@)
}

/// How a pattern can be malformed.
#[derive(Debug, Clone, Copy)]
pub enum PatternFault {
    /// A `[` that no `]` closes.
    Unclosed,
    /// A `[]` with nothing in it.
    EmptySet,
    /// A `]` that closes nothing.
    Stray,
}

/// The position of the first `]`, or the length where there is none.
pub open spec fn closing(p: Seq<char>) -> int
    decreases p.len(),
{
    if p.len() == 0 {
        0
    } else if p[0] == ']' {
        0
    } else {
        1 + closing(p.drop_first())
    }
}

/// The tokens `ts` followed by those of `rest`, unless `rest` is malformed.
pub open spec fn followed_by(
    ts: Seq<Glob>,
    rest: Result<Seq<Glob>, PatternFault>,
) -> Result<Seq<Glob>, PatternFault> {
    match rest {
        Ok(more) => Ok(ts + more),
        Err(fault) => Err(fault),
    }
}

/// The token of a character that is no bracket.
pub open spec fn plain_glob(c: char) -> Glob {
    if c == '*' {
        Glob::Star
    } else if c == '+' {
        Glob::Plus
    } else if c == '?' {
        Glob::Question
    } else {
        Glob::Literal(c)
    }
}

/// The tokens that a pattern stands for, or the first fault in it.
pub open spec fn tokens_of(p: Seq<char>) -> Result<Seq<Glob>, PatternFault>
    decreases p.len(),
{
    if p.len() == 0 {
        Ok(Seq::empty())
    } else if p[0] == '[' {
        let inside = p.drop_first();
        let close = closing(inside);
        if close >= inside.len() {
            Err(PatternFault::Unclosed)
        } else if close <= 0 {
            Err(PatternFault::EmptySet)
        } else {
            followed_by(
                seq![Glob::OneOf(inside.take(close).to_set())],
                tokens_of(inside.skip(close + 1)),
            )
        }
    } else if p[0] == ']' {
        Err(PatternFault::Stray)
    } else {
        followed_by(seq![plain_glob(p[0])], tokens_of(p.drop_first()))
    }
}

/// Whether a stretch of characters satisfies one token.
pub open spec fn accepts(t: Glob, stretch: Seq<char>) -> bool {
    match t {
        Glob::Literal(c) => stretch.len() == 1 && stretch[0] == c,
        Glob::Star => true,
        Glob::Plus => stretch.len() >= 1,
        Glob::Question => stretch.len() == 1,
        Glob::OneOf(set) => stretch.len() == 1 && set.contains(stretch[0]),
    }
}

/// Whether a word can be cut into stretches, one for each token, each of which
/// satisfies its token.
pub open spec fn glob_matches(ts: Seq<Glob>, word: Seq<char>) -> bool
    decreases ts.len(),
{
    if ts.len() == 0 {
        word.len() == 0
    } else {
        exists|k: int|
            0 <= k <= word.len() && #[trigger] accepts(ts.last(), word.skip(k)) && glob_matches(
                ts.drop_last(),
                word.take(k),
            )
    }
}

/// The message about a malformed pattern.
pub open spec fn fault_message(fault: PatternFault, pattern: Seq<char>) -> Seq<char> {
    match fault {
        PatternFault::Unclosed => "Unclosed bracket in pattern '"@ + pattern + "'"@,
        PatternFault::EmptySet => "Empty bracket set in pattern '"@ + pattern + "'"@,
        PatternFault::Stray => "Stray ']' with no preceding '[' in pattern '"@ + pattern + "'"@,
    }
}

/// What matching a word against a pattern gives.
pub open spec fn pattern_matches(word: Seq<char>, pattern: Seq<char>) -> Result<bool, Failure> {
    match tokens_of(pattern) {
        Ok(ts) => Ok(glob_matches(ts, word)),
        Err(fault) => Err(Failure::InvalidArgument(fault_message(fault, pattern))),
    }
}

proof fn lemma_closing(p: Seq<char>, i: int)
    requires
        0 <= i <= p.len(),
        forall|j: int| 0 <= j < i ==> p[j] != ']',
    ensures
        closing(p) == i + closing(p.skip(i)),
    decreases i,
{
    if i == 0 {
        assert(p.skip(0) =~= p);
    } else {
        assert(p.drop_first().skip(i - 1) =~= p.skip(i));
        assert forall|j: int| 0 <= j < i - 1 implies p.drop_first()[j] != ']' by {
            assert(p[j + 1] != ']');
        }
        lemma_closing(p.drop_first(), i - 1);
    }
}

/// The exact message about a malformed pattern.
fn fault_text(fault: PatternFault, pattern: &[char]) -> (m: String)
    ensures
        m@ == fault_message(fault, pattern@),
{
    let mut m = match fault {
        PatternFault::Unclosed => "Unclosed bracket in pattern '".to_string(),
        PatternFault::EmptySet => "Empty bracket set in pattern '".to_string(),
        PatternFault::Stray => "Stray ']' with no preceding '[' in pattern '".to_string(),
    };
    m.append(text_of(pattern).as_str());
    m.append("'");
    m
}

fn plain_token(c: char) -> (t: Token)
    ensures
        t@ == plain_glob(c),
{
    if c == '*' {
        Token::Star
    } else if c == '+' {
        Token::Plus
    } else if c == '?' {
        Token::Question
    } else {
        Token::Literal(c)
    }
}

/// Reads a pattern into its tokens.
pub fn parse_pattern(p: &[char]) -> (r: Result<Vec<Token>, PatternFault>)
    ensures
        match r {
            Ok(ts) => tokens_of(p@) == Ok::<Seq<Glob>, PatternFault>(globs(ts@)),
            Err(fault) => tokens_of(p@) == Err::<Seq<Glob>, PatternFault>(fault),
        },
{
    let mut ts: Vec<Token> = Vec::new();
    let mut i: usize = 0;
    proof {
        assert(p@.skip(0) =~= p@);
        assert(followed_by(globs(ts@), tokens_of(p@)) == tokens_of(p@)) by {
            if let Ok(more) = tokens_of(p@) {
                assert(globs(ts@) + more =~= more);
            }
        }
    }
    while i < p.len()
        invariant
            i <= p.len(),
            tokens_of(p@) == followed_by(globs(ts@), tokens_of(p@.skip(i as int))),
        decreases p.len() - i,
    {
        let c = p[i];
        let ghost rest = p@.skip(i as int);
        let ghost before = globs(ts@);
        proof {
            assert(rest[0] == c);
            assert(rest.drop_first() =~= p@.skip(i + 1));
        }
        if c == '[' {
            let mut j: usize = i + 1;
            while j < p.len() && p[j] != ']'
                invariant
                    i < j <= p.len(),
                    forall|k: int| i < k < j ==> p@[k] != ']',
                decreases p.len() - j,
            {
                j = j + 1;
            }
            let ghost inside = rest.drop_first();
            proof {
                assert forall|k: int| 0 <= k < j - i - 1 implies inside[k] != ']' by {
                    assert(inside[k] == p@[i + 1 + k]);
                }
                lemma_closing(inside, j - i - 1);
                if j < p@.len() {
                    assert(inside.skip(j - i - 1)[0] == p@[j as int]);
                }
                assert(closing(inside) == j - i - 1);
            }
            if j >= p.len() {
                return Err(PatternFault::Unclosed);
            }
            if j == i + 1 {
                return Err(PatternFault::EmptySet);
            }
            let set = copy_range(p, i + 1, j);
            proof {
                assert(inside.take(j - i - 1) =~= p@.subrange(i + 1, j as int));
                assert(inside.skip(j - i) =~= p@.skip(j + 1));
            }
            let t = Token::OneOf(set);
            let ghost g = t@;
            proof {
                lemma_globs_push(ts@, t);
            }
            ts.push(t);
            i = j + 1;
            proof {
                lemma_followed(before, g, tokens_of(p@.skip(i as int)));
            }
        } else if c == ']' {
            return Err(PatternFault::Stray);
        } else {
            let t = plain_token(c);
            let ghost g = t@;
            proof {
                lemma_globs_push(ts@, t);
            }
            ts.push(t);
            i = i + 1;
            proof {
                lemma_followed(before, g, tokens_of(p@.skip(i as int)));
            }
        }
    }
    proof {
        assert(p@.skip(i as int).len() == 0);
        assert(globs(ts@) + Seq::<Glob>::empty() =~= globs(ts@));
    }
    Ok(ts)
}

proof fn lemma_globs_push(ts: Seq<Token>, t: Token)
    ensures
        globs(ts.push(t)) == globs(ts).push(t@),
{
    assert(globs(ts.push(t)) =~= globs(ts).push(t@));
}

proof fn lemma_followed(before: Seq<Glob>, g: Glob, rest: Result<Seq<Glob>, PatternFault>)
    ensures
        followed_by(before, followed_by(seq![g], rest)) == followed_by(before.push(g), rest),
{
    if let Ok(more) = rest {
        assert(before + (seq![g] + more) =~= before.push(g) + more);
    }
}

/// How a match of one more character builds on the matches before it.
proof fn lemma_last_character(ts: Seq<Glob>, word: Seq<char>)
    requires
        ts.len() > 0,
        word.len() > 0,
    ensures
        glob_matches(ts, word) == match ts.last() {
            Glob::Literal(c) => glob_matches(ts.drop_last(), word.drop_last()) && word.last() == c,
            Glob::Question => glob_matches(ts.drop_last(), word.drop_last()),
            Glob::OneOf(set) => glob_matches(ts.drop_last(), word.drop_last()) && set.contains(
                word.last(),
            ),
            Glob::Star => glob_matches(ts.drop_last(), word) || glob_matches(ts, word.drop_last()),
            Glob::Plus => glob_matches(ts.drop_last(), word.drop_last()) || glob_matches(
                ts,
                word.drop_last(),
            ),
        },
{
    let t = ts.last();
    let n = word.len() as int;
    let front = word.drop_last();
    assert(word.take(n) =~= word);
    assert(word.take(n - 1) =~= front);
    assert(word.skip(n - 1).len() == 1 && word.skip(n - 1)[0] == word.last());
    assert(word.skip(n).len() == 0);
    assert(front.take(n - 1) =~= front);
    assert(front.skip(n - 1).len() == 0);
    assert forall|k: int| 0 <= k <= n - 1 implies front.take(k) =~= word.take(k) && front.skip(
        k,
    ).len() == n - 1 - k by {}
    // Left to right: the stretch of the last token is known.
    if glob_matches(ts, word) {
        let k = choose|k: int|
            0 <= k <= n && #[trigger] accepts(t, word.skip(k)) && glob_matches(
                ts.drop_last(),
                word.take(k),
            );
        if k < n {
            match t {
                Glob::Star => {
                    assert(accepts(t, front.skip(k)));
                    assert(glob_matches(ts, front));
                },
                Glob::Plus => {
                    if k < n - 1 {
                        assert(accepts(t, front.skip(k)));
                        assert(glob_matches(ts, front));
                    }
                },
                _ => {
                    assert(word.skip(k).len() == 1);
                    assert(k == n - 1);
                },
            }
        }
    }
    // Right to left.
    match t {
        Glob::Star => {
            if glob_matches(ts.drop_last(), word) {
                assert(accepts(t, word.skip(n)));
            }
            if glob_matches(ts, front) {
                let k = choose|k: int|
                    0 <= k <= front.len() && #[trigger] accepts(t, front.skip(k)) && glob_matches(
                        ts.drop_last(),
                        front.take(k),
                    );
                assert(accepts(t, word.skip(k)));
            }
        },
        Glob::Plus => {
            if glob_matches(ts.drop_last(), front) {
                assert(accepts(t, word.skip(n - 1)));
            }
            if glob_matches(ts, front) {
                let k = choose|k: int|
                    0 <= k <= front.len() && #[trigger] accepts(t, front.skip(k)) && glob_matches(
                        ts.drop_last(),
                        front.take(k),
                    );
                assert(accepts(t, word.skip(k)));
            }
        },
        Glob::Literal(c) => {
            if word.last() == c {
                assert(accepts(t, word.skip(n - 1)));
            }
        },
        Glob::Question => {
            assert(accepts(t, word.skip(n - 1)));
        },
        Glob::OneOf(set) => {
            if set.contains(word.last()) {
                assert(accepts(t, word.skip(n - 1)));
            }
        },
    }
}

/// An empty word is matched by stars only.
proof fn lemma_empty_word(ts: Seq<Glob>)
    requires
        ts.len() > 0,
    ensures
        glob_matches(ts, Seq::empty()) == (ts.last() is Star && glob_matches(
            ts.drop_last(),
            Seq::empty(),
        )),
{
    let e = Seq::<char>::empty();
    assert(e.skip(0) =~= e && e.take(0) =~= e);
    if ts.last() is Star {
        assert(accepts(ts.last(), e.skip(0)));
    }
}

fn char_listed(cs: &[char], c: char) -> (b: bool)
    ensures
        b == cs@.to_set().contains(c),
{
    let mut i: usize = 0;
    while i < cs.len()
        invariant
            i <= cs.len(),
            forall|j: int| 0 <= j < i ==> cs@[j] != c,
        decreases cs.len() - i,
    {
        if cs[i] == c {
            proof {
                assert(cs@.contains(c));
            }
            return true;
        }
        i = i + 1;
    }
    false
}

/// Whether a word matches a list of tokens. The word is read character by
/// character; for each prefix of it, one row says which prefixes of the
/// tokens match.
pub fn match_tokens(ts: &[Token], word: &[char]) -> (b: bool)
    ensures
        b == glob_matches(globs(ts@), word@),
{
    let ghost gs = globs(ts@);
    let mut row: Vec<bool> = Vec::new();
    row.push(true);
    let mut j: usize = 0;
    proof {
        assert(gs.take(0).len() == 0);
    }
    while j < ts.len()
        invariant
            j <= ts.len(),
            gs == globs(ts@),
            row@.len() == j + 1,
            forall|x: int|
                0 <= x <= j ==> #[trigger] row@[x] == glob_matches(gs.take(x), Seq::empty()),
        decreases ts.len() - j,
    {
        let star = match &ts[j] {
            Token::Star => true,
            _ => false,
        };
        proof {
            assert(gs.take(j + 1).drop_last() =~= gs.take(j as int));
            assert(gs.take(j + 1).last() == ts@[j as int]@);
            lemma_empty_word(gs.take(j + 1));
        }
        let above = row[j];
        row.push(star && above);
        j = j + 1;
    }
    let mut i: usize = 0;
    proof {
        assert(word@.take(0) =~= Seq::empty());
    }
    while i < word.len()
        invariant
            i <= word.len(),
            gs == globs(ts@),
            row@.len() == ts@.len() + 1,
            forall|x: int|
                0 <= x <= ts@.len() ==> #[trigger] row@[x] == glob_matches(
                    gs.take(x),
                    word@.take(i as int),
                ),
        decreases word.len() - i,
    {
        let c = word[i];
        let ghost longer = word@.take(i + 1);
        proof {
            assert(longer.drop_last() =~= word@.take(i as int));
            assert(longer.last() == c);
        }
        let mut next: Vec<bool> = Vec::new();
        next.push(false);
        let mut j: usize = 0;
        proof {
            assert(gs.take(0).len() == 0);
        }
        while j < ts.len()
            invariant
                j <= ts.len(),
                i < word@.len(),
                gs == globs(ts@),
                longer == word@.take(i + 1),
                longer.drop_last() == word@.take(i as int),
                longer.len() > 0,
                longer.last() == c,
                row@.len() == ts@.len() + 1,
                next@.len() == j + 1,
                forall|x: int|
                    0 <= x <= ts@.len() ==> #[trigger] row@[x] == glob_matches(
                        gs.take(x),
                        word@.take(i as int),
                    ),
                forall|x: int|
                    0 <= x <= j ==> #[trigger] next@[x] == glob_matches(gs.take(x), longer),
            decreases ts.len() - j,
        {
            proof {
                assert(gs.take(j + 1).drop_last() =~= gs.take(j as int));
                assert(gs.take(j + 1).last() == ts@[j as int]@);
                lemma_last_character(gs.take(j + 1), longer);
                assert(row@[j as int] == glob_matches(gs.take(j as int), word@.take(i as int)));
                assert(row@[j + 1] == glob_matches(gs.take(j + 1), word@.take(i as int)));
                assert(next@[j as int] == glob_matches(gs.take(j as int), longer));
            }
            let b = match &ts[j] {
                Token::Literal(l) => row[j] && c == *l,
                Token::Question => row[j],
                Token::OneOf(set) => row[j] && char_listed(set, c),
                Token::Star => next[j] || row[j + 1],
                Token::Plus => row[j] || row[j + 1],
            };
            next.push(b);
            j = j + 1;
        }
        row = next;
        i = i + 1;
    }
    proof {
        assert(gs.take(ts@.len() as int) =~= gs);
        assert(word@.take(word@.len() as int) =~= word@);
    }
    row[ts.len()]
}

/// Matches a word against a pattern; a malformed pattern is an error.
pub fn match_pattern(word: &[char], pattern: &[char]) -> (r: Result<bool, StorageError>)
    ensures
        outcome(r) == pattern_matches(word@, pattern@),
{
    match parse_pattern(pattern) {
        Ok(ts) => Ok(match_tokens(&ts, word)),
        Err(fault) => Err(StorageError::InvalidArgument(fault_text(fault, pattern))),
    }
}

// ---------------------------------------------------------------------------
// What holds of patterns
// ---------------------------------------------------------------------------

/// A pattern of two parts matches a word exactly when the word can be cut in
/// two, so that each part matches its piece.
pub proof fn law_parts(a: Seq<Glob>, b: Seq<Glob>, word: Seq<char>)
    ensures
        glob_matches(a + b, word) <==> exists|k: int|
            0 <= k <= word.len() && #[trigger] glob_matches(a, word.take(k)) && glob_matches(
                b,
                word.skip(k),
            ),
    decreases b.len(),
{
    if b.len() == 0 {
        assert(a + b =~= a);
        assert(word.take(word.len() as int) =~= word);
        assert(word.skip(word.len() as int).len() == 0);
        if exists|k: int|
            0 <= k <= word.len() && #[trigger] glob_matches(a, word.take(k)) && glob_matches(
                b,
                word.skip(k),
            ) {
            let k = choose|k: int|
                0 <= k <= word.len() && #[trigger] glob_matches(a, word.take(k)) && glob_matches(
                    b,
                    word.skip(k),
                );
            assert(word.skip(k).len() == 0);
            assert(k == word.len());
        }
    } else {
        let front = b.drop_last();
        assert((a + b).drop_last() =~= a + front);
        assert((a + b).last() == b.last());
        if glob_matches(a + b, word) {
            let m = choose|m: int|
                0 <= m <= word.len() && #[trigger] accepts(b.last(), word.skip(m)) && glob_matches(
                    a + front,
                    word.take(m),
                );
            law_parts(a, front, word.take(m));
            let k = choose|k: int|
                0 <= k <= m && #[trigger] glob_matches(a, word.take(m).take(k)) && glob_matches(
                    front,
                    word.take(m).skip(k),
                );
            assert(word.take(m).take(k) =~= word.take(k));
            assert(word.skip(k).skip(m - k) =~= word.skip(m));
            assert(word.skip(k).take(m - k) =~= word.take(m).skip(k));
            assert(accepts(b.last(), word.skip(k).skip(m - k)));
            assert(glob_matches(b, word.skip(k)));
            assert(glob_matches(a, word.take(k)));
        }
        if exists|k: int|
            0 <= k <= word.len() && #[trigger] glob_matches(a, word.take(k)) && glob_matches(
                b,
                word.skip(k),
            ) {
            let k = choose|k: int|
                0 <= k <= word.len() && #[trigger] glob_matches(a, word.take(k)) && glob_matches(
                    b,
                    word.skip(k),
                );
            let rest = word.skip(k);
            let j = choose|j: int|
                0 <= j <= rest.len() && #[trigger] accepts(b.last(), rest.skip(j)) && glob_matches(
                    front,
                    rest.take(j),
                );
            let m = k + j;
            assert(rest.skip(j) =~= word.skip(m));
            assert(word.take(m).take(k) =~= word.take(k));
            assert(word.take(m).skip(k) =~= rest.take(j));
            law_parts(a, front, word.take(m));
            assert(glob_matches(a, word.take(m).take(k)));
            assert(accepts((a + b).last(), word.skip(m)));
            assert(glob_matches((a + b).drop_last(), word.take(m)));
        }
    }
}

proof fn lemma_one_token(t: Glob, word: Seq<char>)
    ensures
        glob_matches(seq![t], word) == accepts(t, word),
{
    assert(seq![t].drop_last() =~= Seq::empty());
    assert(seq![t].last() == t);
    assert(word.skip(0) =~= word);
    assert(word.take(0).len() == 0);
    if glob_matches(seq![t], word) {
        let k = choose|k: int|
            0 <= k <= word.len() && #[trigger] accepts(t, word.skip(k)) && glob_matches(
                Seq::empty(),
                word.take(k),
            );
        assert(word.take(k).len() == 0);
        assert(word.skip(k) =~= word);
    }
    if accepts(t, word) {
        assert(accepts(seq![t].last(), word.skip(0)));
        assert(glob_matches(seq![t].drop_last(), word.take(0)));
    }
}

/// A star matches every word, a plus every word but the empty one, and a
/// question mark every word of one character.
pub proof fn law_wildcards(word: Seq<char>)
    ensures
        pattern_matches(word, "*"@) == Ok::<bool, Failure>(true),
        pattern_matches(word, "+"@) == Ok::<bool, Failure>(word.len() >= 1),
        pattern_matches(word, "?"@) == Ok::<bool, Failure>(word.len() == 1),
{
    reveal_strlit("*");
    reveal_strlit("+");
    reveal_strlit("?");
    lemma_one_token(Glob::Star, word);
    lemma_one_token(Glob::Plus, word);
    lemma_one_token(Glob::Question, word);
    assert("*"@.drop_first() =~= Seq::empty());
    assert("+"@.drop_first() =~= Seq::empty());
    assert("?"@.drop_first() =~= Seq::empty());
    assert(tokens_of(Seq::empty()) == Ok::<Seq<Glob>, PatternFault>(Seq::empty()));
    assert(seq![Glob::Star] + Seq::<Glob>::empty() =~= seq![Glob::Star]);
    assert(seq![Glob::Plus] + Seq::<Glob>::empty() =~= seq![Glob::Plus]);
    assert(seq![Glob::Question] + Seq::<Glob>::empty() =~= seq![Glob::Question]);
}

/// A character that stands for itself in a pattern.
pub open spec fn literal_char(c: char) -> bool {
    c != '*' && c != '+' && c != '?' && c != '[' && c != ']'
}

/// A pattern of characters that stand for themselves matches the word that it
/// is, and no other.
pub proof fn law_literal_pattern(pattern: Seq<char>, word: Seq<char>)
    requires
        forall|i: int| 0 <= i < pattern.len() ==> literal_char(#[trigger] pattern[i]),
    ensures
        pattern_matches(word, pattern) == Ok::<bool, Failure>(word == pattern),
{
    lemma_literal_tokens(pattern);
    lemma_literals(pattern, word);
}

/// The tokens of characters that stand for themselves.
pub open spec fn spelled(p: Seq<char>) -> Seq<Glob> {
    Seq::new(p.len(), |i: int| plain_glob(p[i]))
}

proof fn lemma_literal_tokens(p: Seq<char>)
    requires
        forall|i: int| 0 <= i < p.len() ==> literal_char(#[trigger] p[i]),
    ensures
        tokens_of(p) == Ok::<Seq<Glob>, PatternFault>(spelled(p)),
    decreases p.len(),
{
    if p.len() == 0 {
        assert(spelled(p) =~= Seq::empty());
    } else {
        assert(literal_char(p[0]));
        let rest = p.drop_first();
        assert forall|i: int| 0 <= i < rest.len() implies literal_char(#[trigger] rest[i]) by {
            assert(literal_char(p[i + 1]));
        }
        lemma_literal_tokens(rest);
        assert(seq![plain_glob(p[0])] + spelled(rest) =~= spelled(p));
    }
}

proof fn lemma_literals(p: Seq<char>, word: Seq<char>)
    requires
        forall|i: int| 0 <= i < p.len() ==> literal_char(#[trigger] p[i]),
    ensures
        glob_matches(spelled(p), word) == (word == p),
    decreases p.len(),
{
    let ts = spelled(p);
    if p.len() == 0 {
        if word.len() == 0 {
            assert(word =~= p);
        }
    } else {
        let front = p.drop_last();
        assert forall|i: int| 0 <= i < front.len() implies literal_char(#[trigger] front[i]) by {
            assert(literal_char(p[i]));
        }
        assert(literal_char(p[p.len() - 1]));
        assert(ts.drop_last() =~= spelled(front));
        if glob_matches(ts, word) {
            let k = choose|k: int|
                0 <= k <= word.len() && #[trigger] accepts(ts.last(), word.skip(k)) && glob_matches(
                    ts.drop_last(),
                    word.take(k),
                );
            lemma_literals(front, word.take(k));
            assert(word.skip(k).len() == 1);
            assert(word.skip(k)[0] == word[k]);
            assert(word =~= word.take(k).push(word[k]));
            assert(p =~= p.drop_last().push(p.last()));
        }
        if word == p {
            let k = word.len() - 1;
            lemma_literals(front, word.take(k));
            assert(word.take(k) =~= p.drop_last());
            assert(word.skip(k)[0] == p.last());
            assert(accepts(ts.last(), word.skip(k)));
        }
    }
}

/// How a pattern is held against a word, from its first character on. A
/// character that stands for itself takes the same character off the word, a
/// question mark any one, a list in brackets one that it lists; a star takes
/// off any number of characters, a plus any number but none. What is left of
/// the pattern has to match what is left of the word, and nothing matches the
/// empty word only.
pub proof fn law_pattern_from_start(c: char, rest: Seq<char>, word: Seq<char>)
    ensures
        pattern_matches(word, Seq::empty()) == Ok::<bool, Failure>(word.len() == 0),
        pattern_matches(word, rest) is Ok ==> {
            &&& literal_char(c) ==> pattern_matches(word, seq![c] + rest) == Ok::<bool, Failure>(
                word.len() > 0 && word[0] == c && pattern_matches(word.skip(1), rest) == Ok::<
                    bool,
                    Failure,
                >(true),
            )
            &&& pattern_matches(word, seq!['?'] + rest) == Ok::<bool, Failure>(
                word.len() > 0 && pattern_matches(word.skip(1), rest) == Ok::<bool, Failure>(true),
            )
            &&& pattern_matches(word, seq!['*'] + rest) == Ok::<bool, Failure>(
                exists|k: int|
                    0 <= k <= word.len() && #[trigger] pattern_matches(word.skip(k), rest) == Ok::<
                        bool,
                        Failure,
                    >(true),
            )
            &&& pattern_matches(word, seq!['+'] + rest) == Ok::<bool, Failure>(
                exists|k: int|
                    1 <= k <= word.len() && #[trigger] pattern_matches(word.skip(k), rest) == Ok::<
                        bool,
                        Failure,
                    >(true),
            )
        },
{
    if pattern_matches(word, rest) is Ok {
        let ts = tokens_of(rest)->Ok_0;
        lemma_first_token(c, rest);
        lemma_first_token('?', rest);
        lemma_first_token('*', rest);
        lemma_first_token('+', rest);
        if literal_char(c) {
            lemma_one_character(Glob::Literal(c), ts, word);
        }
        lemma_one_character(Glob::Question, ts, word);
        lemma_stretch(Glob::Star, ts, word);
        lemma_stretch(Glob::Plus, ts, word);
        assert forall|k: int| 0 <= k <= word.len() implies (#[trigger] pattern_matches(
            word.skip(k),
            rest,
        ) == Ok::<bool, Failure>(true)) == glob_matches(ts, word.skip(k)) by {}
        if exists|k: int| 0 <= k <= word.len() && #[trigger] glob_matches(ts, word.skip(k)) {
            let k = choose|k: int| 0 <= k <= word.len() && #[trigger] glob_matches(ts, word.skip(k));
            assert(pattern_matches(word.skip(k), rest) == Ok::<bool, Failure>(true));
        }
        if exists|k: int| 1 <= k <= word.len() && #[trigger] glob_matches(ts, word.skip(k)) {
            let k = choose|k: int| 1 <= k <= word.len() && #[trigger] glob_matches(ts, word.skip(k));
            assert(pattern_matches(word.skip(k), rest) == Ok::<bool, Failure>(true));
        }
    }
}

/// A list in brackets takes one character off the word, which has to be among
/// those that it lists; what follows it has to match what is left.
pub proof fn law_bracket_list(list: Seq<char>, rest: Seq<char>, word: Seq<char>)
    requires
        list.len() > 0,
        !list.contains(']'),
    ensures
        pattern_matches(word, rest) is Ok ==> pattern_matches(
            word,
            seq!['['] + list + seq![']'] + rest,
        ) == Ok::<bool, Failure>(
            word.len() > 0 && list.contains(word[0]) && pattern_matches(word.skip(1), rest) == Ok::<
                bool,
                Failure,
            >(true),
        ),
        tokens_of(rest) matches Err(f) ==> tokens_of(seq!['['] + list + seq![']'] + rest) == Err::<
            Seq<Glob>,
            PatternFault,
        >(f),
{
    let p = seq!['['] + list + seq![']'] + rest;
    let inside = p.drop_first();
    let n = list.len() as int;
    assert forall|j: int| 0 <= j < n implies inside[j] != ']' by {
        assert(inside[j] == list[j]);
        assert(list.contains(list[j]));
    }
    lemma_closing(inside, n);
    assert(inside.skip(n)[0] == ']');
    assert(closing(inside) == n);
    assert(inside.take(n) =~= list);
    assert(inside.skip(n + 1) =~= rest);
    let t = Glob::OneOf(list.to_set());
    if pattern_matches(word, rest) is Ok {
        let ts = tokens_of(rest)->Ok_0;
        lemma_one_character(t, ts, word);
        if word.len() > 0 {
            assert(list.to_set().contains(word[0]) == list.contains(word[0]));
        }
    }
}

/// Which patterns are refused, and with which words: one with a `[` that is not
/// closed, one with nothing between brackets, and one with a `]` that closes
/// nothing. The first of these from the start on decides.
pub proof fn law_malformed_pattern(c: char, rest: Seq<char>, word: Seq<char>)
    ensures
        !rest.contains(']') ==> pattern_matches(word, seq!['['] + rest) == Err::<bool, Failure>(
            Failure::InvalidArgument(
                "Unclosed bracket in pattern '"@ + (seq!['['] + rest) + "'"@,
            ),
        ),
        pattern_matches(word, seq!['[', ']'] + rest) == Err::<bool, Failure>(
            Failure::InvalidArgument(
                "Empty bracket set in pattern '"@ + (seq!['[', ']'] + rest) + "'"@,
            ),
        ),
        pattern_matches(word, seq![']'] + rest) == Err::<bool, Failure>(
            Failure::InvalidArgument(
                "Stray ']' with no preceding '[' in pattern '"@ + (seq![']'] + rest) + "'"@,
            ),
        ),
        c != '[' && c != ']' ==> (tokens_of(rest) matches Err(f) ==> tokens_of(seq![c] + rest)
            == Err::<Seq<Glob>, PatternFault>(f)),
        c != '[' && c != ']' ==> (pattern_matches(word, seq![c] + rest) is Ok <==> pattern_matches(
            word,
            rest,
        ) is Ok),
{
    let open = seq!['['] + rest;
    assert(open.drop_first() =~= rest);
    if !rest.contains(']') {
        assert forall|j: int| 0 <= j < rest.len() implies rest[j] != ']' by {
            assert(rest.contains(rest[j]));
        }
        lemma_closing(rest, rest.len() as int);
    }
    let empty = seq!['[', ']'] + rest;
    assert(empty.drop_first()[0] == ']');
    if c != '[' && c != ']' {
        lemma_first_token(c, rest);
    }
}

/// Whether a pattern is refused does not depend on the word that it is held
/// against.
pub proof fn law_refused_for_itself(pattern: Seq<char>, a: Seq<char>, b: Seq<char>)
    ensures
        pattern_matches(a, pattern) is Err <==> pattern_matches(b, pattern) is Err,
        pattern_matches(a, pattern) is Err ==> pattern_matches(a, pattern) == pattern_matches(
            b,
            pattern,
        ),
{
}

proof fn lemma_first_token(c: char, rest: Seq<char>)
    ensures
        c != '[' && c != ']' ==> tokens_of(seq![c] + rest) == followed_by(
            seq![plain_glob(c)],
            tokens_of(rest),
        ),
{
    assert((seq![c] + rest).drop_first() =~= rest);
}

proof fn lemma_stretch(t: Glob, ts: Seq<Glob>, word: Seq<char>)
    requires
        t is Star || t is Plus,
    ensures
        glob_matches(seq![t] + ts, word) <==> exists|k: int|
            (if t is Star {
                0int
            } else {
                1int
            }) <= k <= word.len() && #[trigger] glob_matches(ts, word.skip(k)),
{
    law_parts(seq![t], ts, word);
    assert forall|k: int| 0 <= k <= word.len() implies #[trigger] glob_matches(
        seq![t],
        word.take(k),
    ) == (t is Star || k >= 1) by {
        lemma_one_token(t, word.take(k));
    }
    if exists|k: int|
        (if t is Star {
            0int
        } else {
            1int
        }) <= k <= word.len() && #[trigger] glob_matches(ts, word.skip(k)) {
        let k = choose|k: int|
            (if t is Star {
                0int
            } else {
                1int
            }) <= k <= word.len() && #[trigger] glob_matches(ts, word.skip(k));
        assert(glob_matches(seq![t], word.take(k)));
    }
}

proof fn lemma_one_character(t: Glob, ts: Seq<Glob>, word: Seq<char>)
    requires
        !(t is Star) && !(t is Plus),
    ensures
        glob_matches(seq![t] + ts, word) <==> word.len() > 0 && accepts(t, seq![word[0]])
            && glob_matches(ts, word.skip(1)),
{
    law_parts(seq![t], ts, word);
    assert forall|k: int| 0 <= k <= word.len() implies #[trigger] glob_matches(
        seq![t],
        word.take(k),
    ) == (k == 1 && accepts(t, seq![word[0]])) by {
        lemma_one_token(t, word.take(k));
        if k == 1 {
            assert(word.take(1) =~= seq![word[0]]);
        }
    }
    if word.len() > 0 && accepts(t, seq![word[0]]) && glob_matches(ts, word.skip(1)) {
        assert(glob_matches(seq![t], word.take(1)));
    }
}

} // verus!
