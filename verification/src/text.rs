//! Characters and strings: the small operations that the rest of the library
//! is written with. A string is modelled by the sequence of its characters.

use vstd::prelude::*;

verus! {

/// Appending a character to a `String`.
///
/// `String::push` appends the character to the end of the string.
pub assume_specification[ String::push ](s: &mut String, c: char)
    ensures
        final(s)@ == old(s)@.push(c),
;

/// What `str::to_lowercase` makes of a string.
pub uninterp spec fn lowercase(s: Seq<char>) -> Seq<char>;

/// The lower-case form of a string, by Unicode's rules, from
/// `str::to_lowercase`.
///
/// The result depends on the string alone. On a string of ASCII characters it
/// maps `A` to `Z` to `a` to `z` and keeps every other character.
#[verifier::external_body]
pub(crate) fn to_lowercase(s: &str) -> (lower: String)
    ensures
        lower@ == lowercase(s@),
        is_ascii_text(s@) ==> lower@ == ascii_lower(s@),
{
    s.to_lowercase()
}

/// Every character is an ASCII character.
pub open spec fn is_ascii_text(s: Seq<char>) -> bool {
    forall|i: int| 0 <= i < s.len() ==> (#[trigger] s[i] as u32) < 128
}

/// The lower-case form of one ASCII letter; other characters stay.
pub open spec fn ascii_lower_char(c: char) -> char {
    if 'A' <= c <= 'Z' {
        ((c as u32) + 32) as char
    } else {
        c
    }
}

/// A string with its ASCII letters in lower case.
pub open spec fn ascii_lower(s: Seq<char>) -> Seq<char> {
    Seq::new(s.len(), |i: int| ascii_lower_char(s[i]))
}

/// The characters of Unicode's `White_Space` property.
pub open spec fn white_space(c: char) -> bool {
    let n = c as u32;
    ||| 0x9 <= n <= 0xd
    ||| n == 0x20
    ||| n == 0x85
    ||| n == 0xa0
    ||| n == 0x1680
    ||| 0x2000 <= n <= 0x200a
    ||| n == 0x2028
    ||| n == 0x2029
    ||| n == 0x202f
    ||| n == 0x205f
    ||| n == 0x3000
}

/// Whether a character is white space.
pub fn is_white_space(c: char) -> (b: bool)
    ensures
        b == white_space(c),
{
    let n: u32 = c as u32;
    (0x9 <= n && n <= 0xd) || n == 0x20 || n == 0x85 || n == 0xa0 || n == 0x1680 || (0x2000 <= n
        && n <= 0x200a) || n == 0x2028 || n == 0x2029 || n == 0x202f || n == 0x205f || n == 0x3000
}

/// The characters of a string, one by one.
pub fn chars_of(s: &str) -> (cs: Vec<char>)
    ensures
        cs@ == s@,
{
    let mut cs: Vec<char> = Vec::new();
    for c in it: s.chars()
        invariant
            it.seq() == s@,
            cs@ == s@.take(it.index()),
    {
        proof {
            assert(s@.take(it.index() + 1) == s@.take(it.index()).push(c));
        }
        cs.push(c);
    }
    proof {
        assert(s@.take(s@.len() as int) == s@);
    }
    cs
}

/// The string that holds the given characters.
pub fn text_of(cs: &[char]) -> (s: String)
    ensures
        s@ == cs@,
{
    let mut s = String::new();
    let mut i: usize = 0;
    while i < cs.len()
        invariant
            i <= cs.len(),
            s@ == cs@.take(i as int),
        decreases cs.len() - i,
    {
        s.push(cs[i]);
        i = i + 1;
        proof {
            assert(cs@.take(i as int) == cs@.take(i - 1).push(cs@[i - 1]));
        }
    }
    proof {
        assert(cs@.take(cs@.len() as int) == cs@);
    }
    s
}

/// Whether two texts hold the same characters in the same order.
pub fn same_text(a: &str, b: &str) -> (same: bool)
    ensures
        same == (a@ == b@),
{
    same_chars(&chars_of(a), &chars_of(b))
}

/// The characters at which a string is cut.
#[derive(Clone, Copy)]
pub enum Delimiter {
    /// White space.
    WhiteSpace,
    /// White space, commas, semicolons and colons: what separates the words of
    /// a stored value.
    Word,
    /// The colons and hyphens between the octets of a MAC address.
    Octet,
    /// One given character.
    Exactly(char),
}

impl Delimiter {
    /// Whether a string is cut at this character.
    pub open spec fn cuts(self, c: char) -> bool {
        match self {
            Delimiter::WhiteSpace => white_space(c),
            Delimiter::Word => white_space(c) || c == ',' || c == ';' || c == ':',
            Delimiter::Octet => c == ':' || c == '-',
            Delimiter::Exactly(d) => c == d,
        }
    }

    /// Whether a string is cut at this character.
    pub fn cuts_at(self, c: char) -> (b: bool)
        ensures
            b == self.cuts(c),
    {
        match self {
            Delimiter::WhiteSpace => is_white_space(c),
            Delimiter::Word => is_white_space(c) || c == ',' || c == ';' || c == ':',
            Delimiter::Octet => c == ':' || c == '-',
            Delimiter::Exactly(d) => c == d,
        }
    }
}

/// The pieces between delimiters, empty pieces included: one more piece than
/// there are delimiters.
pub open spec fn pieces(s: Seq<char>, d: Delimiter) -> Seq<Seq<char>>
    decreases s.len(),
{
    if s.len() == 0 {
        seq![Seq::<char>::empty()]
    } else {
        let before = pieces(s.drop_last(), d);
        if d.cuts(s.last()) {
            before.push(Seq::empty())
        } else {
            before.drop_last().push(before.last().push(s.last()))
        }
    }
}

/// The non-empty pieces between stretches of white space.
pub open spec fn words(s: Seq<char>) -> Seq<Seq<char>> {
    pieces(s, Delimiter::WhiteSpace).filter(|w: Seq<char>| w.len() > 0)
}

/// The characters of each piece of a list.
pub open spec fn char_lists(v: Seq<Vec<char>>) -> Seq<Seq<char>> {
    v.map_values(|p: Vec<char>| p@)
}

/// There is at least one piece.
pub proof fn lemma_pieces_nonempty(s: Seq<char>, d: Delimiter)
    ensures
        pieces(s, d).len() > 0,
    decreases s.len(),
{
    if s.len() > 0 {
        lemma_pieces_nonempty(s.drop_last(), d);
    }
}

/// Cuts a string at the delimiters.
pub fn split_pieces(cs: &[char], d: Delimiter) -> (ps: Vec<Vec<char>>)
    ensures
        char_lists(ps@) == pieces(cs@, d),
{
    let mut done: Vec<Vec<char>> = Vec::new();
    let mut piece: Vec<char> = Vec::new();
    let mut i: usize = 0;
    proof {
        assert(char_lists(done@).push(piece@) =~= pieces(cs@.take(0), d));
    }
    while i < cs.len()
        invariant
            i <= cs.len(),
            char_lists(done@).push(piece@) == pieces(cs@.take(i as int), d),
        decreases cs.len() - i,
    {
        let c = cs[i];
        proof {
            let next = cs@.take(i + 1);
            assert(next.drop_last() =~= cs@.take(i as int));
            assert(next.last() == c);
        }
        let ghost before = char_lists(done@).push(piece@);
        let ghost old_piece = piece@;
        let ghost old_done = char_lists(done@);
        if d.cuts_at(c) {
            done.push(piece);
            piece = Vec::new();
            proof {
                assert(char_lists(done@) =~= before);
            }
        } else {
            piece.push(c);
            proof {
                assert(before.drop_last() =~= old_done);
                assert(before.last() == old_piece);
            }
        }
        i = i + 1;
    }
    let ghost all = char_lists(done@).push(piece@);
    done.push(piece);
    proof {
        assert(cs@.take(cs@.len() as int) =~= cs@);
        assert(char_lists(done@) =~= all);
    }
    done
}

/// The words of a string: its non-empty pieces between white space.
pub fn split_words(cs: &[char]) -> (ws: Vec<Vec<char>>)
    ensures
        char_lists(ws@) == words(cs@),
{
    let ps = split_pieces(cs, Delimiter::WhiteSpace);
    let ghost all = char_lists(ps@);
    let ghost keep = |w: Seq<char>| w.len() > 0;
    let mut ws: Vec<Vec<char>> = Vec::new();
    let mut i: usize = 0;
    proof {
        assert(all.take(0).filter(keep) =~= Seq::empty()) by {
            reveal(Seq::filter);
        }
        assert(char_lists(ws@) =~= Seq::<Seq<char>>::empty());
    }
    while i < ps.len()
        invariant
            i <= ps.len(),
            all == char_lists(ps@),
            keep == (|w: Seq<char>| w.len() > 0),
            char_lists(ws@) == all.take(i as int).filter(keep),
        decreases ps.len() - i,
    {
        proof {
            reveal(Seq::filter);
            assert(all.take(i + 1).drop_last() =~= all.take(i as int));
            assert(all.take(i + 1).last() == ps@[i as int]@);
        }
        let ghost before = char_lists(ws@);
        if ps[i].len() > 0 {
            let w = ps[i].clone();
            proof {
                assert(w@ =~= ps@[i as int]@);
            }
            ws.push(w);
            proof {
                assert(char_lists(ws@) =~= before.push(w@));
            }
        }
        i = i + 1;
    }
    proof {
        assert(all.take(all.len() as int) =~= all);
    }
    ws
}

/// A string without the white space at its start.
pub open spec fn trim_start(s: Seq<char>) -> Seq<char>
    decreases s.len(),
{
    if s.len() > 0 && white_space(s[0]) {
        trim_start(s.drop_first())
    } else {
        s
    }
}

/// A string without the white space at its end.
pub open spec fn trim_end(s: Seq<char>) -> Seq<char>
    decreases s.len(),
{
    if s.len() > 0 && white_space(s.last()) {
        trim_end(s.drop_last())
    } else {
        s
    }
}

/// A string without the white space at its start and its end.
pub open spec fn trim(s: Seq<char>) -> Seq<char> {
    trim_end(trim_start(s))
}

/// Removes the white space at the start and the end.
pub fn trim_chars(cs: &[char]) -> (t: Vec<char>)
    ensures
        t@ == trim(cs@),
{
    let mut lo: usize = 0;
    proof {
        assert(cs@.skip(0) =~= cs@);
    }
    while lo < cs.len() && is_white_space(cs[lo])
        invariant
            lo <= cs.len(),
            trim_start(cs@) == trim_start(cs@.skip(lo as int)),
        decreases cs.len() - lo,
    {
        proof {
            assert(cs@.skip(lo as int).drop_first() =~= cs@.skip(lo + 1));
        }
        lo = lo + 1;
    }
    let ghost rest = cs@.skip(lo as int);
    let mut hi: usize = cs.len();
    proof {
        assert(cs@.subrange(lo as int, hi as int) =~= rest);
    }
    while hi > lo && is_white_space(cs[hi - 1])
        invariant
            lo <= hi <= cs.len(),
            trim_end(rest) == trim_end(cs@.subrange(lo as int, hi as int)),
        decreases hi,
    {
        proof {
            assert(cs@.subrange(lo as int, hi as int).drop_last() =~= cs@.subrange(
                lo as int,
                hi - 1,
            ));
        }
        hi = hi - 1;
    }
    copy_range(cs, lo, hi)
}

/// A copy of the characters from `from` up to `to`.
pub fn copy_range(cs: &[char], from: usize, to: usize) -> (t: Vec<char>)
    requires
        from <= to <= cs@.len(),
    ensures
        t@ == cs@.subrange(from as int, to as int),
{
    let mut t: Vec<char> = Vec::new();
    let mut i: usize = from;
    while i < to
        invariant
            from <= i <= to <= cs@.len(),
            t@ == cs@.subrange(from as int, i as int),
        decreases to - i,
    {
        t.push(cs[i]);
        i = i + 1;
        proof {
            assert(cs@.subrange(from as int, i as int) =~= cs@.subrange(from as int, i - 1).push(
                cs@[i - 1],
            ));
        }
    }
    t
}

/// The trimmed form of a string.
pub fn trim_text(s: &str) -> (t: String)
    ensures
        t@ == trim(s@),
{
    let cs = chars_of(s);
    let t = trim_chars(&cs);
    text_of(&t)
}

/// A string with its ASCII letters in lower case.
pub fn ascii_lower_chars(cs: &[char]) -> (low: Vec<char>)
    ensures
        low@ == ascii_lower(cs@),
{
    let mut low: Vec<char> = Vec::new();
    let mut i: usize = 0;
    while i < cs.len()
        invariant
            i <= cs@.len(),
            low@ == ascii_lower(cs@).take(i as int),
        decreases cs.len() - i,
    {
        low.push(ascii_lower_of(cs[i]));
        i = i + 1;
        proof {
            assert(ascii_lower(cs@).take(i as int) =~= ascii_lower(cs@).take(i - 1).push(
                ascii_lower(cs@)[i - 1],
            ));
        }
    }
    proof {
        assert(ascii_lower(cs@).take(cs@.len() as int) =~= ascii_lower(cs@));
    }
    low
}

fn ascii_lower_of(c: char) -> (l: char)
    ensures
        l == ascii_lower_char(c),
{
    let n: u32 = c as u32;
    if 65 <= n && n <= 90 {
        let b: u8 = (n + 32) as u8;
        b as char
    } else {
        c
    }
}

/// Equality of two lists of characters.
pub fn same_chars(a: &[char], b: &[char]) -> (same: bool)
    ensures
        same == (a@ == b@),
{
    if a.len() != b.len() {
        return false;
    }
    let mut i: usize = 0;
    while i < a.len()
        invariant
            a@.len() == b@.len(),
            i <= a.len(),
            forall|j: int| 0 <= j < i ==> a@[j] == b@[j],
        decreases a.len() - i,
    {
        if a[i] != b[i] {
            proof {
                assert(a@[i as int] != b@[i as int]);
            }
            return false;
        }
        i = i + 1;
    }
    proof {
        assert(a@ =~= b@);
    }
    true
}

/// Equality of two strings, ASCII letters taken without regard to case.
pub fn same_ignoring_ascii_case(a: &str, b: &str) -> (same: bool)
    ensures
        same == (ascii_lower(a@) == ascii_lower(b@)),
{
    let x = ascii_lower_chars(&chars_of(a));
    let y = ascii_lower_chars(&chars_of(b));
    same_chars(&x, &y)
}

/// The position of the first character that is `c`, or the number of
/// characters.
pub open spec fn position_of(s: Seq<char>, c: char) -> int
    decreases s.len(),
{
    if s.len() == 0 {
        0
    } else if s[0] == c {
        0
    } else {
        1 + position_of(s.drop_first(), c)
    }
}

/// What stands before the first `c`, and what stands behind it.
pub open spec fn cut(s: Seq<char>, c: char) -> Option<(Seq<char>, Seq<char>)> {
    let k = position_of(s, c);
    if k < s.len() {
        Some((s.take(k), s.skip(k + 1)))
    } else {
        None
    }
}

/// Where the first `c` stands.
pub proof fn lemma_position_of(s: Seq<char>, c: char)
    ensures
        0 <= position_of(s, c) <= s.len(),
        position_of(s, c) < s.len() ==> s[position_of(s, c)] == c,
        forall|i: int| 0 <= i < position_of(s, c) ==> #[trigger] s[i] != c,
    decreases s.len(),
{
    if s.len() > 0 && s[0] != c {
        lemma_position_of(s.drop_first(), c);
        assert forall|i: int| 0 <= i < position_of(s, c) implies #[trigger] s[i] != c by {
            if i > 0 {
                assert(s.drop_first()[i - 1] == s[i]);
            }
        }
    }
}

/// A position with `c`, and none before it, is the first.
pub proof fn lemma_first_position(s: Seq<char>, c: char, k: int)
    requires
        0 <= k <= s.len(),
        k < s.len() ==> s[k] == c,
        forall|i: int| 0 <= i < k ==> #[trigger] s[i] != c,
    ensures
        position_of(s, c) == k,
{
    lemma_position_of(s, c);
    let p = position_of(s, c);
    if p < k {
        assert(s[p] != c);
    }
}

/// Cuts a text in two at the first `c`.
pub fn cut_text(s: &str, c: char) -> (r: Option<(String, String)>)
    ensures
        r.deep_view() == cut(s@, c),
{
    let cs = chars_of(s);
    let mut i: usize = 0;
    while i < cs.len()
        invariant
            i <= cs@.len(),
            cs@ == s@,
            forall|j: int| 0 <= j < i ==> cs@[j] != c,
        decreases cs.len() - i,
    {
        if cs[i] == c {
            proof {
                lemma_first_position(s@, c, i as int);
                assert(s@.subrange(0, i as int) =~= s@.take(i as int));
                assert(s@.subrange(i + 1, cs@.len() as int) =~= s@.skip(i + 1));
            }
            let head = copy_range(cs.as_slice(), 0, i);
            let tail = copy_range(cs.as_slice(), i + 1, cs.len());
            return Some((text_of(head.as_slice()), text_of(tail.as_slice())));
        }
        i = i + 1;
    }
    proof {
        lemma_first_position(s@, c, i as int);
    }
    None
}

// ---------------------------------------------------------------------------
// Facts about pieces
// ---------------------------------------------------------------------------

/// A delimiter separates the pieces before it from those behind it.
pub proof fn lemma_pieces_join(a: Seq<char>, c: char, b: Seq<char>, d: Delimiter)
    requires
        d.cuts(c),
    ensures
        pieces(a.push(c) + b, d) == pieces(a, d) + pieces(b, d),
    decreases b.len(),
{
    let whole = a.push(c) + b;
    lemma_pieces_nonempty(b, d);
    if b.len() == 0 {
        assert(whole =~= a.push(c));
        assert(a.push(c).drop_last() =~= a);
        assert(pieces(whole, d) =~= pieces(a, d) + pieces(b, d));
    } else {
        let front = b.drop_last();
        assert(whole.drop_last() =~= a.push(c) + front);
        assert(whole.last() == b.last());
        lemma_pieces_join(a, c, front, d);
        lemma_pieces_nonempty(front, d);
        assert(pieces(whole, d) =~= pieces(a, d) + pieces(b, d));
    }
}

/// A text without delimiters is one piece.
pub proof fn lemma_one_piece(s: Seq<char>, d: Delimiter)
    requires
        forall|i: int| 0 <= i < s.len() ==> !d.cuts(#[trigger] s[i]),
    ensures
        pieces(s, d) == seq![s],
    decreases s.len(),
{
    if s.len() == 0 {
        assert(s =~= Seq::empty());
    } else {
        let front = s.drop_last();
        assert forall|i: int| 0 <= i < front.len() implies !d.cuts(#[trigger] front[i]) by {
            assert(!d.cuts(s[i]));
        }
        lemma_one_piece(front, d);
        assert(!d.cuts(s[s.len() - 1]));
        assert(front.push(s.last()) =~= s);
        assert(pieces(s, d) =~= seq![s]);
    }
}

/// A character of a text that is no delimiter stands in one of its pieces.
pub proof fn lemma_char_in_piece(s: Seq<char>, d: Delimiter, c: char)
    requires
        s.contains(c),
        !d.cuts(c),
    ensures
        exists|i: int| 0 <= i < pieces(s, d).len() && (#[trigger] pieces(s, d)[i]).contains(c),
    decreases s.len(),
{
    let k = choose|k: int| 0 <= k < s.len() && s[k] == c;
    let front = s.drop_last();
    let before = pieces(front, d);
    let ps = pieces(s, d);
    lemma_pieces_nonempty(front, d);
    if k == s.len() - 1 {
        let last = before.last().push(c);
        assert(ps[ps.len() - 1] == last);
        assert(last[last.len() - 1] == c);
    } else {
        assert(front[k] == c);
        lemma_char_in_piece(front, d, c);
        let i = choose|i: int| 0 <= i < before.len() && (#[trigger] before[i]).contains(c);
        let j = choose|j: int| 0 <= j < before[i].len() && before[i][j] == c;
        assert(ps[i][j] == c);
        assert(ps[i].contains(c));
    }
}

/// The characters of a piece are those of the text that are no delimiters.
pub proof fn lemma_piece_chars(s: Seq<char>, d: Delimiter)
    ensures
        forall|i: int, j: int|
            0 <= i < pieces(s, d).len() && 0 <= j < pieces(s, d)[i].len() ==> s.contains(
                #[trigger] pieces(s, d)[i][j],
            ) && !d.cuts(pieces(s, d)[i][j]),
    decreases s.len(),
{
    if s.len() > 0 {
        let front = s.drop_last();
        lemma_piece_chars(front, d);
        lemma_pieces_nonempty(front, d);
        assert(s[s.len() - 1] == s.last());
        assert forall|i: int, j: int|
            0 <= i < pieces(s, d).len() && 0 <= j < pieces(s, d)[i].len() implies s.contains(
            #[trigger] pieces(s, d)[i][j],
        ) && !d.cuts(pieces(s, d)[i][j]) by {
            let before = pieces(front, d);
            let c = pieces(s, d)[i][j];
            if i < before.len() && j < before[i].len() {
                assert(c == before[i][j]);
                assert(front.contains(before[i][j]));
                let k = choose|k: int| 0 <= k < front.len() && front[k] == c;
                assert(s[k] == c);
            }
        }
    }
}

// ---------------------------------------------------------------------------
// What holds of texts
// ---------------------------------------------------------------------------

/// Which characters are white space: of ASCII, the blank and the five from the
/// tab to the carriage return; beyond it, those that Unicode lists.
pub proof fn law_white_space(c: char)
    ensures
        (c as u32) < 128 ==> (white_space(c) <==> c == ' ' || c == '\t' || c == '\n' || c
            == '\x0b' || c == '\x0c' || c == '\r'),
        (c as u32) >= 128 ==> (white_space(c) <==> c == '\u{85}' || c == '\u{a0}' || c
            == '\u{1680}' || '\u{2000}' <= c <= '\u{200a}' || c == '\u{2028}' || c == '\u{2029}'
            || c == '\u{202f}' || c == '\u{205f}' || c == '\u{3000}'),
{
}

/// Lower case changes the ASCII capitals, each to its small letter, and nothing
/// else; done twice, it changes nothing more.
pub proof fn law_ascii_lower(s: Seq<char>, i: int)
    requires
        0 <= i < s.len(),
    ensures
        ascii_lower(s).len() == s.len(),
        !('A' <= s[i] <= 'Z') ==> ascii_lower(s)[i] == s[i],
        'A' <= s[i] <= 'Z' ==> 'a' <= ascii_lower(s)[i] <= 'z' && ascii_lower(s)[i] as u32
            - 'a' as u32 == s[i] as u32 - 'A' as u32,
        ascii_lower(ascii_lower(s)) == ascii_lower(s),
{
    let low = ascii_lower(s);
    assert forall|j: int| 0 <= j < s.len() implies ascii_lower(low)[j] == low[j] by {}
    assert(ascii_lower(low) =~= low);
}

/// What separates the parts of a text. Stored values come apart into words at
/// white space, commas, semicolons and colons; MAC addresses into octets at
/// colons and hyphens.
pub proof fn law_delimiters(c: char, d: char)
    ensures
        Delimiter::WhiteSpace.cuts(c) <==> white_space(c),
        Delimiter::Word.cuts(c) <==> white_space(c) || c == ',' || c == ';' || c == ':',
        Delimiter::Octet.cuts(c) <==> c == ':' || c == '-',
        Delimiter::Exactly(d).cuts(c) <==> c == d,
{
}

/// A text comes apart at its delimiters and nowhere else: a text without any is
/// one piece, and a delimiter separates what the text before it comes apart
/// into from what the text behind it comes apart into.
pub proof fn law_pieces(a: Seq<char>, c: char, b: Seq<char>, d: Delimiter)
    ensures
        (forall|i: int| 0 <= i < a.len() ==> !d.cuts(#[trigger] a[i])) ==> pieces(a, d) == seq![a],
        d.cuts(c) ==> pieces(a + seq![c] + b, d) == pieces(a, d) + pieces(b, d),
{
    if forall|i: int| 0 <= i < a.len() ==> !d.cuts(#[trigger] a[i]) {
        lemma_one_piece(a, d);
    }
    if d.cuts(c) {
        lemma_pieces_join(a, c, b, d);
        assert(a + seq![c] + b =~= a.push(c) + b);
    }
}

/// The words of a text: a text of nothing has none, a text without white space
/// is one, and white space separates the words before it from those behind it.
pub proof fn law_words(a: Seq<char>, c: char, b: Seq<char>)
    ensures
        words(Seq::empty()) == Seq::<Seq<char>>::empty(),
        a.len() > 0 && (forall|i: int| 0 <= i < a.len() ==> !white_space(#[trigger] a[i]))
            ==> words(a) == seq![a],
        white_space(c) ==> words(a + seq![c] + b) == words(a) + words(b),
{
    let keep = |w: Seq<char>| w.len() > 0;
    let d = Delimiter::WhiteSpace;
    reveal(Seq::filter);
    assert(pieces(Seq::<char>::empty(), d).drop_last() =~= Seq::<Seq<char>>::empty());
    assert(pieces(Seq::<char>::empty(), d).last() =~= Seq::<char>::empty());
    let none = pieces(Seq::<char>::empty(), d);
    assert(none.drop_last().filter(keep).len() == 0);
    assert(none.filter(keep) == none.drop_last().filter(keep));
    assert(words(Seq::empty()) =~= Seq::<Seq<char>>::empty());
    if a.len() > 0 && forall|i: int| 0 <= i < a.len() ==> !white_space(#[trigger] a[i]) {
        assert forall|i: int| 0 <= i < a.len() implies !d.cuts(#[trigger] a[i]) by {}
        lemma_one_piece(a, d);
        assert(seq![a].drop_last() =~= Seq::<Seq<char>>::empty());
        assert(words(a) =~= seq![a]);
    }
    if white_space(c) {
        law_pieces(a, c, b, d);
        Seq::<Seq<char>>::filter_distributes_over_add(pieces(a, d), pieces(b, d), keep);
    }
}

/// Trimming takes the white space off both ends and leaves what is between as
/// it is; a text of white space comes to nothing.
pub proof fn law_trim(before: Seq<char>, s: Seq<char>, after: Seq<char>)
    requires
        forall|i: int| 0 <= i < before.len() ==> white_space(#[trigger] before[i]),
        forall|i: int| 0 <= i < after.len() ==> white_space(#[trigger] after[i]),
        s.len() > 0 ==> !white_space(s[0]) && !white_space(s.last()),
    ensures
        trim(before + s + after) == s,
        trim(trim(before + s + after)) == trim(before + s + after),
    decreases before.len() + after.len(),
{
    let whole = before + s + after;
    lemma_trimmed_start(before, s + after);
    assert(before + (s + after) =~= whole);
    if s.len() == 0 {
        assert(s + after =~= after);
        lemma_blank_start(after);
    } else {
        assert((s + after)[0] == s[0]);
        lemma_trimmed_end(s, after);
    }
    assert(trim(s) == s);
}

proof fn lemma_blank_start(s: Seq<char>)
    requires
        forall|i: int| 0 <= i < s.len() ==> white_space(#[trigger] s[i]),
    ensures
        trim_start(s) == Seq::<char>::empty(),
        trim_end(trim_start(s)) == Seq::<char>::empty(),
    decreases s.len(),
{
    if s.len() > 0 {
        let rest = s.drop_first();
        assert forall|i: int| 0 <= i < rest.len() implies white_space(#[trigger] rest[i]) by {
            assert(rest[i] == s[i + 1]);
        }
        lemma_blank_start(rest);
    } else {
        assert(s =~= Seq::<char>::empty());
    }
}

proof fn lemma_trimmed_start(before: Seq<char>, s: Seq<char>)
    requires
        forall|i: int| 0 <= i < before.len() ==> white_space(#[trigger] before[i]),
    ensures
        trim_start(before + s) == trim_start(s),
    decreases before.len(),
{
    if before.len() == 0 {
        assert(before + s =~= s);
    } else {
        let rest = before.drop_first();
        assert((before + s)[0] == before[0]);
        assert((before + s).drop_first() =~= rest + s);
        assert forall|i: int| 0 <= i < rest.len() implies white_space(#[trigger] rest[i]) by {
            assert(rest[i] == before[i + 1]);
        }
        lemma_trimmed_start(rest, s);
    }
}

proof fn lemma_trimmed_end(s: Seq<char>, after: Seq<char>)
    requires
        s.len() > 0,
        !white_space(s.last()),
        forall|i: int| 0 <= i < after.len() ==> white_space(#[trigger] after[i]),
    ensures
        trim_end(s + after) == s,
    decreases after.len(),
{
    if after.len() == 0 {
        assert(s + after =~= s);
    } else {
        let rest = after.drop_last();
        assert((s + after).last() == after[after.len() - 1]);
        assert((s + after).drop_last() =~= s + rest);
        assert forall|i: int| 0 <= i < rest.len() implies white_space(#[trigger] rest[i]) by {
            assert(rest[i] == after[i]);
        }
        lemma_trimmed_end(s, rest);
    }
}

/// A text is cut in two at the first of the characters that it is cut at, which
/// goes; a text without one is not cut.
pub proof fn law_cut(a: Seq<char>, c: char, b: Seq<char>)
    requires
        !a.contains(c),
    ensures
        cut(a + seq![c] + b, c) == Some((a, b)),
        cut(a, c) is None,
{
    let s = a + seq![c] + b;
    let k = a.len() as int;
    assert forall|i: int| 0 <= i < k implies #[trigger] s[i] != c by {
        assert(a.contains(a[i]));
    }
    lemma_first_position(s, c, k);
    assert(s.take(k) =~= a);
    assert(s.skip(k + 1) =~= b);
    assert forall|i: int| 0 <= i < k implies #[trigger] a[i] != c by {
        assert(a.contains(a[i]));
    }
    lemma_first_position(a, c, k);
}

/// Texts one behind the other, with a character between each two.
pub open spec fn joined(list: Seq<Seq<char>>, c: char) -> Seq<char>
    decreases list.len(),
{
    if list.len() == 0 {
        Seq::empty()
    } else if list.len() == 1 {
        list[0]
    } else {
        joined(list.drop_last(), c).push(c) + list.last()
    }
}

/// To take a text apart at a character undoes putting it together with that
/// character, and the other way round.
pub proof fn law_joined(list: Seq<Seq<char>>, s: Seq<char>, c: char)
    ensures
        joined(pieces(s, Delimiter::Exactly(c)), c) == s,
        list.len() > 0 && (forall|i: int|
            0 <= i < list.len() ==> !(#[trigger] list[i]).contains(c)) ==> pieces(
            joined(list, c),
            Delimiter::Exactly(c),
        ) == list,
{
    lemma_joined_pieces(s, c);
    if list.len() > 0 && forall|i: int| 0 <= i < list.len() ==> !(#[trigger] list[i]).contains(c) {
        lemma_pieces_joined(list, c, Delimiter::Exactly(c));
    }
}

proof fn lemma_joined_pieces(s: Seq<char>, c: char)
    ensures
        joined(pieces(s, Delimiter::Exactly(c)), c) == s,
    decreases s.len(),
{
    let d = Delimiter::Exactly(c);
    let all = pieces(s, d);
    if s.len() == 0 {
        assert(joined(all, c) =~= s);
    } else {
        let front = s.drop_last();
        let before = pieces(front, d);
        lemma_joined_pieces(front, c);
        lemma_pieces_nonempty(front, d);
        if s.last() == c {
            assert(all.drop_last() =~= before);
            assert(joined(all, c) =~= s);
        } else {
            assert(all.drop_last() =~= before.drop_last());
            assert(all.last() =~= before.last().push(s.last()));
            assert(joined(all, c) =~= joined(before, c).push(s.last()));
            assert(front.push(s.last()) =~= s);
        }
    }
}

/// Texts without a delimiter, put together with one, come apart into them.
pub proof fn lemma_pieces_joined(list: Seq<Seq<char>>, c: char, d: Delimiter)
    requires
        list.len() > 0,
        d.cuts(c),
        forall|i: int, j: int|
            0 <= i < list.len() && 0 <= j < list[i].len() ==> !d.cuts(#[trigger] list[i][j])
            || (d == Delimiter::Exactly(c) && !list[i].contains(c)),
    ensures
        pieces(joined(list, c), d) == list,
    decreases list.len(),
{
    let last = list.last();
    assert forall|j: int| 0 <= j < last.len() implies !d.cuts(#[trigger] last[j]) by {
        assert(last[j] == list[list.len() - 1][j]);
        if d == Delimiter::Exactly(c) && !list[list.len() - 1].contains(c) {
            assert(last.contains(last[j]));
        }
    }
    lemma_one_piece(last, d);
    if list.len() == 1 {
        assert(list =~= seq![last]);
    } else {
        let front = list.drop_last();
        assert forall|i: int, j: int| 0 <= i < front.len() && 0 <= j < front[i].len() implies !d.cuts(
            #[trigger] front[i][j],
        ) || (d == Delimiter::Exactly(c) && !front[i].contains(c)) by {
            assert(front[i][j] == list[i][j]);
        }
        lemma_pieces_joined(front, c, d);
        lemma_pieces_join(joined(front, c), c, last, d);
        assert(front + seq![last] =~= list);
    }
}

} // verus!
