//! Commands as they go over the wire.

use vstd::prelude::*;

use crate::text::chars_of;
use crate::text::cut;
use crate::text::cut_text;
use crate::text::is_white_space;
use crate::text::law_cut;
use crate::text::white_space;

verus! {

/// A text holds white space, so that it would be taken for several words.
pub open spec fn spaced(s: Seq<char>) -> bool {
    exists|i: int| 0 <= i < s.len() && white_space(#[trigger] s[i])
}

/// A character as it stands between quotes.
pub open spec fn escaped_char(c: char) -> Seq<char> {
    if c == '\\' || c == '"' {
        seq!['\\', c]
    } else {
        seq![c]
    }
}

/// A text as it stands between quotes: a backslash before every backslash and
/// every quote.
pub open spec fn escaped(s: Seq<char>) -> Seq<char>
    decreases s.len(),
{
    if s.len() == 0 {
        Seq::empty()
    } else {
        escaped(s.drop_last()) + escaped_char(s.last())
    }
}

/// A text between quotes.
pub open spec fn quoted(s: Seq<char>) -> Seq<char> {
    seq!['"'] + escaped(s) + seq!['"']
}

/// An argument as it goes over the wire: the value of `key=value`, or an
/// argument without a key, is quoted where it holds white space.
pub open spec fn wire_arg(arg: Seq<char>) -> Seq<char> {
    match cut(arg, '=') {
        Some((key, value)) => if spaced(value) {
            key + seq!['='] + quoted(value)
        } else {
            arg
        },
        None => if spaced(arg) {
            quoted(arg)
        } else {
            arg
        },
    }
}

/// Arguments with a blank between any two.
pub open spec fn wire_line(args: Seq<Seq<char>>) -> Seq<char>
    decreases args.len(),
{
    if args.len() == 0 {
        Seq::empty()
    } else if args.len() == 1 {
        wire_arg(args[0])
    } else {
        wire_line(args.drop_last()) + seq![' '] + wire_arg(args.last())
    }
}

/// Whether a text holds white space.
pub fn needs_quoting(s: &str) -> (b: bool)
    ensures
        b == spaced(s@),
{
    let cs = chars_of(s);
    let mut i: usize = 0;
    while i < cs.len()
        invariant
            i <= cs@.len(),
            cs@ == s@,
            forall|j: int| 0 <= j < i ==> !white_space(#[trigger] s@[j]),
        decreases cs.len() - i,
    {
        if is_white_space(cs[i]) {
            proof {
                assert(white_space(s@[i as int]));
            }
            return true;
        }
        i = i + 1;
    }
    false
}

/// Puts a backslash before every backslash and every quote.
pub fn escape_wire_value(s: &str) -> (e: String)
    ensures
        e@ == escaped(s@),
{
    let cs = chars_of(s);
    let mut e = String::new();
    let mut i: usize = 0;
    proof {
        assert(e@ =~= escaped(s@.take(0)));
    }
    while i < cs.len()
        invariant
            i <= cs@.len(),
            cs@ == s@,
            e@ == escaped(s@.take(i as int)),
        decreases cs.len() - i,
    {
        let ghost before = e@;
        let c = cs[i];
        if c == '\\' || c == '"' {
            e.push('\\');
        }
        e.push(c);
        proof {
            assert(s@.take(i + 1).drop_last() =~= s@.take(i as int));
            assert(s@.take(i + 1).last() == c);
            assert(e@ =~= before + escaped_char(c));
        }
        i = i + 1;
    }
    proof {
        assert(s@.take(i as int) =~= s@);
    }
    e
}

/// Quotes the part of an argument that holds white space.
pub fn quote_wire_arg(arg: &str) -> (w: String)
    ensures
        w@ == wire_arg(arg@),
{
    proof {
        reveal_strlit("\"");
        reveal_strlit("=\"");
    }
    match cut_text(arg, '=') {
        Some((key, value)) => {
            if needs_quoting(value.as_str()) {
                let mut w = key;
                w.append("=\"");
                w.append(escape_wire_value(value.as_str()).as_str());
                w.append("\"");
                proof {
                    assert(w@ =~= wire_arg(arg@));
                }
                w
            } else {
                arg.to_string()
            }
        },
        None => {
            if needs_quoting(arg) {
                let mut w = "\"".to_string();
                w.append(escape_wire_value(arg).as_str());
                w.append("\"");
                proof {
                    assert(w@ =~= wire_arg(arg@));
                }
                w
            } else {
                arg.to_string()
            }
        },
    }
}

/// Makes one command line of the arguments of a program. The shell has taken
/// the quotes away that stood around an argument with blanks in it; they are
/// put back, so that the server sees the arguments that the program got.
pub fn join_wire_args(args: &[String]) -> (line: String)
    ensures
        line@ == wire_line(args.deep_view()),
{
    proof {
        reveal_strlit(" ");
    }
    let ghost all = args.deep_view();
    let mut line = String::new();
    let mut i: usize = 0;
    proof {
        assert(line@ =~= wire_line(all.take(0)));
    }
    while i < args.len()
        invariant
            i <= args@.len(),
            all == args.deep_view(),
            line@ == wire_line(all.take(i as int)),
            " "@ =~= seq![' '],
        decreases args.len() - i,
    {
        proof {
            assert(all.take(i + 1).drop_last() =~= all.take(i as int));
            assert(all.take(i + 1).last() == args@[i as int]@);
        }
        if i > 0 {
            line.append(" ");
        }
        let ghost before = line@;
        line.append(quote_wire_arg(args[i].as_str()).as_str());
        proof {
            if i == 0 {
                assert(all.take(1)[0] == args@[0]@);
                assert(line@ =~= wire_arg(args@[0]@));
            }
        }
        i = i + 1;
    }
    proof {
        assert(all.take(i as int) =~= all);
    }
    line
}

// ---------------------------------------------------------------------------
// Reading back
// ---------------------------------------------------------------------------

/// A reader of command lines, between two characters: the words that are
/// complete, the word that it is in, and what it saw last.
pub struct Reader {
    pub words: Seq<Seq<char>>,
    pub word: Seq<char>,
    pub begun: bool,
    pub in_quotes: bool,
    pub escaping: bool,
}

/// A reader at the start of a line.
pub open spec fn start_of_line() -> Reader {
    Reader {
        words: Seq::empty(),
        word: Seq::empty(),
        begun: false,
        in_quotes: false,
        escaping: false,
    }
}

/// A reader after one character more. White space that is not between quotes
/// ends a word. Quotes come in pairs and are no part of the word. Between
/// them, a backslash makes the next character an ordinary one.
pub open spec fn read_char(r: Reader, c: char) -> Reader {
    if r.escaping {
        Reader { word: r.word.push(c), escaping: false, ..r }
    } else if r.in_quotes && c == '\\' {
        Reader { escaping: true, ..r }
    } else if c == '"' {
        Reader { in_quotes: !r.in_quotes, begun: true, ..r }
    } else if white_space(c) && !r.in_quotes {
        if r.begun {
            Reader { words: r.words.push(r.word), word: Seq::empty(), begun: false, ..r }
        } else {
            r
        }
    } else {
        Reader { word: r.word.push(c), begun: true, ..r }
    }
}

/// A reader after several characters.
pub open spec fn read_chars(r: Reader, s: Seq<char>) -> Reader
    decreases s.len(),
{
    if s.len() == 0 {
        r
    } else {
        read_char(read_chars(r, s.drop_last()), s.last())
    }
}

/// The words of a command line, as a reader that splits it on white space
/// outside quotes sees them.
pub open spec fn words_read(line: Seq<char>) -> Seq<Seq<char>> {
    let r = read_chars(start_of_line(), line);
    if r.begun {
        r.words.push(r.word)
    } else {
        r.words
    }
}

/// A character that means something to a reader outside quotes.
pub open spec fn special(c: char) -> bool {
    white_space(c) || c == '"'
}

/// No character means something to a reader outside quotes.
pub open spec fn ordinary(s: Seq<char>) -> bool {
    forall|i: int| 0 <= i < s.len() ==> !special(#[trigger] s[i])
}

/// An argument that goes over the wire unharmed: it is not empty, and what is
/// sent of it without quotes around it holds neither quotes nor white space.
pub open spec fn sendable(arg: Seq<char>) -> bool {
    match cut(arg, '=') {
        Some((key, value)) => if spaced(value) {
            ordinary(key)
        } else {
            ordinary(arg)
        },
        None => arg.len() > 0 && (spaced(arg) || ordinary(arg)),
    }
}

proof fn lemma_read_more(r: Reader, a: Seq<char>, b: Seq<char>)
    ensures
        read_chars(r, a + b) == read_chars(read_chars(r, a), b),
    decreases b.len(),
{
    if b.len() == 0 {
        assert(a + b =~= a);
    } else {
        assert((a + b).drop_last() =~= a + b.drop_last());
        lemma_read_more(r, a, b.drop_last());
    }
}

proof fn lemma_read_one(r: Reader, c: char)
    ensures
        read_chars(r, seq![c]) == read_char(r, c),
{
    assert(seq![c].drop_last() =~= Seq::empty());
    assert(read_chars(r, seq![c].drop_last()) == r);
}

proof fn lemma_read_ordinary(r: Reader, s: Seq<char>)
    requires
        ordinary(s),
        !r.in_quotes,
        !r.escaping,
    ensures
        read_chars(r, s) == (Reader { word: r.word + s, begun: r.begun || s.len() > 0, ..r }),
    decreases s.len(),
{
    if s.len() == 0 {
        assert(r.word + s =~= r.word);
    } else {
        let front = s.drop_last();
        assert forall|i: int| 0 <= i < front.len() implies !special(#[trigger] front[i]) by {
            assert(!special(s[i]));
        }
        lemma_read_ordinary(r, front);
        assert(!special(s[s.len() - 1]));
        assert((r.word + front).push(s.last()) =~= r.word + s);
    }
}

proof fn lemma_read_escaped(r: Reader, s: Seq<char>)
    requires
        r.in_quotes,
        !r.escaping,
        r.begun,
    ensures
        read_chars(r, escaped(s)) == (Reader { word: r.word + s, ..r }),
    decreases s.len(),
{
    if s.len() == 0 {
        assert(r.word + s =~= r.word);
    } else {
        let front = s.drop_last();
        let c = s.last();
        lemma_read_escaped(r, front);
        lemma_read_more(r, escaped(front), escaped_char(c));
        let mid = read_chars(r, escaped(front));
        if c == '\\' || c == '"' {
            assert(seq!['\\', c] =~= seq!['\\'] + seq![c]);
            lemma_read_more(mid, seq!['\\'], seq![c]);
            lemma_read_one(mid, '\\');
            lemma_read_one(read_char(mid, '\\'), c);
        } else {
            lemma_read_one(mid, c);
        }
        assert((r.word + front).push(c) =~= r.word + s);
    }
}

proof fn lemma_read_quoted(r: Reader, s: Seq<char>)
    requires
        !r.in_quotes,
        !r.escaping,
    ensures
        read_chars(r, quoted(s)) == (Reader { word: r.word + s, begun: true, ..r }),
{
    lemma_read_more(r, seq!['"'] + escaped(s), seq!['"']);
    lemma_read_more(r, seq!['"'], escaped(s));
    lemma_read_one(r, '"');
    let inside = read_char(r, '"');
    lemma_read_escaped(inside, s);
    lemma_read_one(read_chars(inside, escaped(s)), '"');
}

proof fn lemma_read_arg(r: Reader, arg: Seq<char>)
    requires
        sendable(arg),
        !r.in_quotes,
        !r.escaping,
        !r.begun,
        r.word.len() == 0,
    ensures
        read_chars(r, wire_arg(arg)) == (Reader { word: arg, begun: true, ..r }),
{
    crate::text::lemma_position_of(arg, '=');
    assert(r.word + arg =~= arg);
    match cut(arg, '=') {
        Some((key, value)) => {
            if spaced(value) {
                let head = key + seq!['='];
                lemma_read_more(r, head, quoted(value));
                assert(ordinary(head)) by {
                    assert forall|i: int| 0 <= i < head.len() implies !special(
                        #[trigger] head[i],
                    ) by {
                        if i < key.len() {
                            assert(!special(key[i]));
                        }
                    }
                }
                lemma_read_ordinary(r, head);
                lemma_read_quoted(read_chars(r, head), value);
                assert(r.word + head + value =~= arg);
            } else {
                lemma_read_ordinary(r, arg);
            }
        },
        None => {
            if spaced(arg) {
                lemma_read_quoted(r, arg);
            } else {
                lemma_read_ordinary(r, arg);
            }
        },
    }
}

proof fn lemma_read_line(args: Seq<Seq<char>>)
    requires
        args.len() > 0,
        forall|i: int| 0 <= i < args.len() ==> sendable(#[trigger] args[i]),
    ensures
        read_chars(start_of_line(), wire_line(args)) == (Reader {
            words: args.drop_last(),
            word: args.last(),
            begun: true,
            in_quotes: false,
            escaping: false,
        }),
    decreases args.len(),
{
    let start = start_of_line();
    if args.len() == 1 {
        lemma_read_arg(start, args[0]);
        assert(args.drop_last() =~= Seq::empty());
    } else {
        let front = args.drop_last();
        assert forall|i: int| 0 <= i < front.len() implies sendable(#[trigger] front[i]) by {
            assert(sendable(args[i]));
        }
        lemma_read_line(front);
        lemma_read_more(start, wire_line(front) + seq![' '], wire_arg(args.last()));
        lemma_read_more(start, wire_line(front), seq![' ']);
        let mid = read_chars(start, wire_line(front));
        lemma_read_one(mid, ' ');
        let after = read_char(mid, ' ');
        assert(front.drop_last().push(front.last()) =~= front);
        assert(sendable(args[args.len() - 1]));
        lemma_read_arg(after, args.last());
    }
}

/// The server sees the arguments that the program got: splitting the line on
/// white space outside quotes gives the arguments back.
pub proof fn law_wire_round_trip(args: Seq<Seq<char>>)
    requires
        forall|i: int| 0 <= i < args.len() ==> sendable(#[trigger] args[i]),
    ensures
        words_read(wire_line(args)) == args,
{
    if args.len() > 0 {
        lemma_read_line(args);
        assert(args.drop_last().push(args.last()) =~= args);
    } else {
        assert(args =~= Seq::empty());
    }
}

/// An argument without white space is sent as it is. One with white space is
/// sent in quotes; of one with an equals sign only what stands behind the first
/// is, and only where the white space is there.
pub proof fn law_quoting(key: Seq<char>, value: Seq<char>, arg: Seq<char>)
    requires
        !key.contains('='),
        !arg.contains('='),
    ensures
        !spaced(arg) ==> wire_arg(arg) == arg,
        spaced(arg) ==> wire_arg(arg) == seq!['"'] + escaped(arg) + seq!['"'],
        !spaced(value) ==> wire_arg(key + seq!['='] + value) == key + seq!['='] + value,
        spaced(value) ==> wire_arg(key + seq!['='] + value) == key + seq!['=', '"'] + escaped(value)
            + seq!['"'],
        spaced(value) <==> exists|i: int| 0 <= i < value.len() && white_space(#[trigger] value[i]),
{
    law_cut(key, '=', value);
    law_cut(arg, '=', value);
    if spaced(value) {
        assert(key + seq!['='] + (seq!['"'] + escaped(value) + seq!['"']) =~= key + seq!['=', '"']
            + escaped(value) + seq!['"']);
    }
}

/// Within quotes a backslash stands before each quote and each backslash, and
/// every other character stands for itself.
pub proof fn law_escaping(a: Seq<char>, b: Seq<char>, c: char)
    ensures
        escaped(Seq::empty()) == Seq::<char>::empty(),
        escaped(a + b) == escaped(a) + escaped(b),
        c == '"' || c == '\\' ==> escaped(seq![c]) == seq!['\\', c],
        c != '"' && c != '\\' ==> escaped(seq![c]) == seq![c],
    decreases b.len(),
{
    assert(seq![c].drop_last() =~= Seq::<char>::empty());
    assert(escaped(seq![c].drop_last()) == Seq::<char>::empty());
    assert(escaped(seq![c]) =~= escaped_char(c));
    if b.len() == 0 {
        assert(a + b =~= a);
        assert(escaped(a) + escaped(b) =~= escaped(a));
    } else {
        law_escaping(a, b.drop_last(), c);
        assert((a + b).drop_last() =~= a + b.drop_last());
        assert(escaped(a + b) =~= escaped(a) + escaped(b));
    }
}

/// A line is its arguments one behind the other, with one blank between each
/// two.
pub proof fn law_line(args: Seq<Seq<char>>, arg: Seq<char>)
    ensures
        wire_line(Seq::empty()) == Seq::<char>::empty(),
        wire_line(seq![arg]) == wire_arg(arg),
        args.len() > 0 ==> wire_line(args.push(arg)) == wire_line(args) + seq![' '] + wire_arg(arg),
{
    assert(args.push(arg).drop_last() =~= args);
}

} // verus!
