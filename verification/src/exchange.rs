//! What a client makes of a server's answer: the two sides of the protocol
//! agree.

use vstd::prelude::*;

use crate::address::all_digits;
use crate::address::digit_value;
use crate::address::digits_value;
use crate::client::Answer;
use crate::client::Progress;
use crate::client::Reading;
use crate::client::Response;
use crate::client::after_lines;
use crate::client::all_records;
use crate::client::challenge_in;
use crate::client::nothing_read;
use crate::client::small_integer_of;
use crate::client::with_data;
use crate::client::with_line;
use crate::error::Failure;
use crate::numbers::decimal;
use crate::numbers::law_decimal_reads_back;
use crate::numbers::lemma_decimal;
use crate::record::Entry;
use crate::reply::data_line;
use crate::reply::field_lines;
use crate::reply::fields_lines;
use crate::reply::illegal_value;
use crate::reply::padding;
use crate::reply::query_reply;
use crate::reply::record_lines;
use crate::reply::shown;
use crate::reply::value_lines;
use crate::store::Pair;
use crate::text::Delimiter;
use crate::text::cut;
use crate::text::law_pieces;
use crate::text::lemma_first_position;
use crate::text::lemma_one_piece;
use crate::text::lemma_pieces_join;
use crate::text::pieces;
use crate::text::trim;
use crate::text::trim_end;
use crate::text::trim_start;
use crate::text::white_space;
use crate::text::words;

verus! {

// ---------------------------------------------------------------------------
// What a client sees of a record
// ---------------------------------------------------------------------------

/// The values of a field that holds several, as a client sees them: the name
/// goes with the first only.
pub open spec fn value_pairs(name: Seq<char>, values: Seq<Seq<char>>) -> Seq<Pair>
    decreases values.len(),
{
    if values.len() == 0 {
        Seq::empty()
    } else {
        value_pairs(name, values.drop_last()).push(
            (
                if values.len() == 1 {
                    name
                } else {
                    padding(name)
                },
                trim(values.last()),
            ),
        )
    }
}

/// One field, as a client sees it.
pub open spec fn field_pairs(e: Entry, name: Seq<char>) -> Seq<Pair> {
    if e.fields.contains_key(name) {
        seq![(name, trim(e.fields[name]))]
    } else if e.multi.contains_key(name) {
        value_pairs(name, e.multi[name])
    } else {
        Seq::empty()
    }
}

/// Several fields, as a client sees them.
pub open spec fn fields_pairs(e: Entry, names: Seq<Seq<char>>) -> Seq<Pair>
    decreases names.len(),
{
    if names.len() == 0 {
        Seq::empty()
    } else {
        fields_pairs(e, names.drop_last()) + field_pairs(e, names.last())
    }
}

/// The records, as a client sees them: each with its number, and with the
/// fields that are shown. A record of which nothing is shown is not seen.
pub open spec fn seen(records: Seq<Entry>, requested: Seq<Seq<char>>) -> Seq<Answer>
    decreases records.len(),
{
    if records.len() == 0 {
        Seq::empty()
    } else {
        let before = seen(records.drop_last(), requested);
        let fields = fields_pairs(records.last(), shown(records.last(), requested));
        if fields.len() == 0 {
            before
        } else {
            before.push(Answer { id: records.len() as int, fields })
        }
    }
}

/// A name without a colon or an end of line.
pub open spec fn plain_name(name: Seq<char>) -> bool {
    !name.contains(':') && !name.contains('\n')
}

/// A field that fits on lines: its name has no colon in it, and neither its
/// name nor its values have an end of line.
pub open spec fn fits(e: Entry, name: Seq<char>) -> bool {
    &&& plain_name(name)
    &&& e.fields.contains_key(name) ==> !e.fields[name].contains('\n')
    &&& e.multi.contains_key(name) ==> forall|i: int|
        0 <= i < e.multi[name].len() ==> !(#[trigger] e.multi[name][i]).contains('\n')
}

/// Every field that is shown of a record fits on lines.
pub open spec fn all_fit(e: Entry, names: Seq<Seq<char>>) -> bool {
    forall|i: int| 0 <= i < names.len() ==> fits(e, #[trigger] names[i])
}

// ---------------------------------------------------------------------------
// Lines
// ---------------------------------------------------------------------------

/// Lines, each with its end.
pub open spec fn as_text(lines: Seq<Seq<char>>) -> Seq<char>
    decreases lines.len(),
{
    if lines.len() == 0 {
        Seq::empty()
    } else {
        as_text(lines.drop_last()) + lines.last().push('\n')
    }
}

/// No line has an end of line within it.
pub open spec fn are_lines(lines: Seq<Seq<char>>) -> bool {
    forall|i: int| 0 <= i < lines.len() ==> !(#[trigger] lines[i]).contains('\n')
}

proof fn lemma_text_add(a: Seq<Seq<char>>, b: Seq<Seq<char>>)
    ensures
        as_text(a + b) == as_text(a) + as_text(b),
        are_lines(a) && are_lines(b) ==> are_lines(a + b),
    decreases b.len(),
{
    if b.len() == 0 {
        assert(a + b =~= a);
        assert(as_text(a) + as_text(b) =~= as_text(a));
    } else {
        assert((a + b).drop_last() =~= a + b.drop_last());
        assert((a + b).last() == b.last());
        lemma_text_add(a, b.drop_last());
        assert(as_text(a + b) =~= as_text(a) + as_text(b));
    }
    if are_lines(a) && are_lines(b) {
        assert forall|i: int| 0 <= i < (a + b).len() implies !(#[trigger] (a + b)[i]).contains(
            '\n',
        ) by {
            if i < a.len() {
                assert((a + b)[i] == a[i]);
            } else {
                assert((a + b)[i] == b[i - a.len()]);
            }
        }
    }
}

proof fn lemma_text_pieces(lines: Seq<Seq<char>>, rest: Seq<char>)
    requires
        are_lines(lines),
    ensures
        pieces(as_text(lines) + rest, Delimiter::Exactly('\n')) == lines + pieces(
            rest,
            Delimiter::Exactly('\n'),
        ),
    decreases lines.len(),
{
    let d = Delimiter::Exactly('\n');
    if lines.len() == 0 {
        assert(as_text(lines) + rest =~= rest);
        assert(lines + pieces(rest, d) =~= pieces(rest, d));
    } else {
        let front = lines.drop_last();
        let last = lines.last();
        assert(are_lines(front)) by {
            assert forall|i: int| 0 <= i < front.len() implies !(#[trigger] front[i]).contains(
                '\n',
            ) by {
                assert(!lines[i].contains('\n'));
            }
        }
        let tail = last.push('\n') + rest;
        assert(as_text(lines) + rest =~= as_text(front) + tail);
        lemma_text_pieces(front, tail);
        lemma_pieces_join(last, '\n', rest, d);
        assert(!lines[lines.len() - 1].contains('\n'));
        assert forall|i: int| 0 <= i < last.len() implies !d.cuts(#[trigger] last[i]) by {
            assert(last.contains(last[i]));
        }
        lemma_one_piece(last, d);
        assert(front + (seq![last] + pieces(rest, d)) =~= lines + pieces(rest, d));
    }
}

proof fn lemma_after_more(r: Reading, a: Seq<Seq<char>>, b: Seq<Seq<char>>)
    ensures
        after_lines(r, a + b) == match after_lines(r, a) {
            Progress::More(next) => after_lines(next, b),
            other => other,
        },
    decreases a.len(),
{
    if a.len() == 0 {
        assert(a + b =~= b);
    } else {
        assert((a + b)[0] == a[0]);
        assert((a + b).drop_first() =~= a.drop_first() + b);
        match with_line(r, a[0]) {
            Progress::More(next) => {
                lemma_after_more(next, a.drop_first(), b);
            },
            _ => {},
        }
    }
}

// ---------------------------------------------------------------------------
// White space
// ---------------------------------------------------------------------------

/// Where the text is that trimming leaves.
proof fn lemma_trim(s: Seq<char>, a: int, b: int)
    requires
        0 <= a < b <= s.len(),
        !white_space(s[a]),
        !white_space(s[b - 1]),
        forall|i: int| 0 <= i < a ==> white_space(#[trigger] s[i]),
        forall|i: int| b <= i < s.len() ==> white_space(#[trigger] s[i]),
    ensures
        trim(s) == s.subrange(a, b),
{
    lemma_trim_start(s, a);
    let t = s.skip(a);
    assert forall|i: int| b - a <= i < t.len() implies white_space(#[trigger] t[i]) by {
        assert(t[i] == s[i + a]);
    }
    assert(t[b - a - 1] == s[b - 1]);
    lemma_trim_end(t, b - a);
    assert(t.take(b - a) =~= s.subrange(a, b));
}

proof fn lemma_trim_start(s: Seq<char>, a: int)
    requires
        0 <= a <= s.len(),
        a < s.len() ==> !white_space(s[a]),
        forall|i: int| 0 <= i < a ==> white_space(#[trigger] s[i]),
    ensures
        trim_start(s) == s.skip(a),
    decreases a,
{
    if a == 0 {
        assert(s.skip(0) =~= s);
    } else {
        let rest = s.drop_first();
        assert(white_space(s[0]));
        assert forall|i: int| 0 <= i < a - 1 implies white_space(#[trigger] rest[i]) by {
            assert(rest[i] == s[i + 1]);
        }
        lemma_trim_start(rest, a - 1);
        assert(rest.skip(a - 1) =~= s.skip(a));
    }
}

proof fn lemma_trim_end(s: Seq<char>, b: int)
    requires
        0 <= b <= s.len(),
        b > 0 ==> !white_space(s[b - 1]),
        forall|i: int| b <= i < s.len() ==> white_space(#[trigger] s[i]),
    ensures
        trim_end(s) == s.take(b),
    decreases s.len() - b,
{
    if b == s.len() {
        assert(s.take(b) =~= s);
    } else {
        let front = s.drop_last();
        assert(white_space(s[s.len() - 1]));
        assert forall|i: int| b <= i < front.len() implies white_space(#[trigger] front[i]) by {
            assert(front[i] == s[i]);
        }
        lemma_trim_end(front, b);
        assert(front.take(b) =~= s.take(b));
    }
}

/// A text is all white space, or has a first and a last character that are
/// none.
proof fn lemma_extent(s: Seq<char>) -> (r: (int, int))
    ensures
        0 <= r.0 <= s.len(),
        r.0 == s.len() ==> trim(s).len() == 0 && forall|i: int|
            0 <= i < s.len() ==> white_space(#[trigger] s[i]),
        r.0 < s.len() ==> {
            &&& r.0 < r.1 <= s.len()
            &&& !white_space(s[r.0])
            &&& !white_space(s[r.1 - 1])
            &&& forall|i: int| 0 <= i < r.0 ==> white_space(#[trigger] s[i])
            &&& forall|i: int| r.1 <= i < s.len() ==> white_space(#[trigger] s[i])
        },
{
    let a = lemma_first_solid(s, 0);
    if a == s.len() {
        lemma_trim_start(s, a);
        (a, a)
    } else {
        let b = lemma_last_solid(s, s.len() as int, a);
        (a, b)
    }
}

proof fn lemma_first_solid(s: Seq<char>, from: int) -> (a: int)
    requires
        0 <= from <= s.len(),
        forall|i: int| 0 <= i < from ==> white_space(#[trigger] s[i]),
    ensures
        from <= a <= s.len(),
        a < s.len() ==> !white_space(s[a]),
        forall|i: int| 0 <= i < a ==> white_space(#[trigger] s[i]),
    decreases s.len() - from,
{
    if from == s.len() || !white_space(s[from]) {
        from
    } else {
        lemma_first_solid(s, from + 1)
    }
}

proof fn lemma_last_solid(s: Seq<char>, to: int, a: int) -> (b: int)
    requires
        0 <= a < to <= s.len(),
        !white_space(s[a]),
        forall|i: int| to <= i < s.len() ==> white_space(#[trigger] s[i]),
    ensures
        a < b <= to,
        !white_space(s[b - 1]),
        forall|i: int| b <= i < s.len() ==> white_space(#[trigger] s[i]),
    decreases to,
{
    if !white_space(s[to - 1]) {
        to
    } else {
        lemma_last_solid(s, to - 1, a)
    }
}

proof fn lemma_solid(s: Seq<char>)
    requires
        s.len() > 0,
        !white_space(s[0]),
        !white_space(s.last()),
    ensures
        trim(s) == s,
{
    lemma_trim(s, 0, s.len() as int);
    assert(s.subrange(0, s.len() as int) =~= s);
}

proof fn lemma_cut_at(head: Seq<char>, c: char, tail: Seq<char>)
    requires
        !head.contains(c),
    ensures
        cut(head.push(c) + tail, c) == Some((head, tail)),
{
    let s = head.push(c) + tail;
    assert forall|i: int| 0 <= i < head.len() implies #[trigger] s[i] != c by {
        assert(s[i] == head[i]);
        assert(head.contains(head[i]));
    }
    lemma_first_position(s, c, head.len() as int);
    assert(s.take(head.len() as int) =~= head);
    assert(s.skip(head.len() as int + 1) =~= tail);
}

// ---------------------------------------------------------------------------
// One line
// ---------------------------------------------------------------------------

/// A line of data without its end.
spec fn data_body(index: nat, name: Seq<char>, value: Seq<char>) -> Seq<char> {
    "-200:"@ + decimal(index) + ":"@ + name + ": "@ + value
}

proof fn lemma_digits_plain(n: nat)
    ensures
        decimal(n).len() > 0,
        !decimal(n).contains(':'),
        !decimal(n).contains('\n'),
        forall|i: int| 0 <= i < decimal(n).len() ==> !white_space(#[trigger] decimal(n)[i]),
{
    lemma_decimal(n);
    let s = decimal(n);
    assert forall|i: int| 0 <= i < s.len() implies !white_space(#[trigger] s[i]) && s[i] != ':'
        && s[i] != '\n' by {
        assert(digit_value(s[i], 10) is Some);
    }
}

proof fn lemma_code_200()
    ensures
        small_integer_of("-200"@) == Some(-200int),
        small_integer_of("200"@) == Some(200int),
        small_integer_of("102"@) == Some(102int),
{
    reveal_strlit("-200");
    reveal_strlit("200");
    reveal_strlit("102");
    lemma_three_digits("200"@);
    lemma_three_digits("102"@);
    assert("-200"@.drop_first() =~= "200"@);
}

proof fn lemma_three_digits(s: Seq<char>)
    requires
        s.len() == 3,
        all_digits(s, 10),
    ensures
        digits_value(s, 10) == digit_value(s[0], 10)->0 * 100 + digit_value(s[1], 10)->0 * 10
            + digit_value(s[2], 10)->0,
{
    let a = s.drop_last();
    let b = a.drop_last();
    assert(digit_value(s[0], 10) is Some);
    assert(digit_value(s[1], 10) is Some);
    assert(digit_value(s[2], 10) is Some);
    assert(b.drop_last() =~= Seq::empty());
    assert(digits_value(b.drop_last(), 10) == 0);
    assert(b.last() == s[0]);
    assert(a.last() == s[1]);
    assert(digits_value(b, 10) == digit_value(s[0], 10)->0);
    assert(digits_value(a, 10) == digits_value(b, 10) * 10 + digit_value(s[1], 10)->0);
}

/// A client reads a line of data as the field that it was written for.
proof fn lemma_data_line(r: Reading, index: nat, name: Seq<char>, value: Seq<char>)
    requires
        plain_name(name),
        0 < index <= i32::MAX,
    ensures
        with_line(r, data_body(index, name, value)) == Progress::More(
            with_data(r, index as int, (name, trim(value))),
        ),
{
    reveal_strlit("-200:");
    reveal_strlit("-200");
    reveal_strlit(":");
    reveal_strlit(": ");
    lemma_digits_plain(index);
    law_decimal_reads_back(index);
    lemma_code_200();
    let d = decimal(index);
    let raw = data_body(index, name, value);
    let (a, b) = lemma_extent(value);
    let head = d.push(':') + name;
    let front = "-200"@.push(':') + head.push(':');
    assert(raw =~= front + (seq![' '] + value));
    let end = if a < value.len() {
        front.len() + 1 + b
    } else {
        front.len() as int
    };
    let tail = if a < value.len() {
        seq![' '] + value.take(b)
    } else {
        Seq::empty()
    };
    let line = front + tail;
    assert(raw[0] == '-');
    assert(trim(raw) == line) by {
        assert forall|i: int| end <= i < raw.len() implies white_space(#[trigger] raw[i]) by {
            if i > front.len() {
                assert(raw[i] == value[i - front.len() - 1]);
            }
        }
        if a < value.len() {
            assert(raw[end - 1] == value[b - 1]);
        } else {
            assert(raw[end - 1] == ':');
        }
        lemma_trim(raw, 0, end);
        assert(raw.subrange(0, end) =~= line);
    }
    let message = head.push(':') + tail;
    assert(line =~= "-200"@.push(':') + message);
    assert(!"-200"@.contains(':'));
    lemma_cut_at("-200"@, ':', message);
    assert(message[0] == d[0]);
    assert(trim(message) == message) by {
        if a < value.len() {
            assert(message.last() == value[b - 1]);
        } else {
            assert(message.last() == ':');
        }
        lemma_solid(message);
    }
    let rest = name.push(':') + tail;
    assert(message =~= d.push(':') + rest);
    lemma_cut_at(d, ':', rest);
    lemma_cut_at(name, ':', tail);
    assert(trim(tail) == trim(value)) by {
        if a < value.len() {
            assert forall|i: int| 0 <= i < 1 + a implies white_space(#[trigger] tail[i]) by {
                if i > 0 {
                    assert(tail[i] == value[i - 1]);
                }
            }
            assert(tail[1 + a] == value[a]);
            assert(tail[b] == value[b - 1]);
            lemma_trim(tail, 1 + a, 1 + b);
            lemma_trim(value, a, b);
            assert(tail.subrange(1 + a, 1 + b) =~= value.subrange(a, b));
        } else {
            lemma_trim_start(tail, 0);
            assert(tail.skip(0) =~= Seq::empty());
            assert(trim(value) =~= Seq::empty());
            lemma_trim_end(Seq::empty(), 0);
            assert(trim(tail) =~= Seq::empty());
        }
    }
}

// ---------------------------------------------------------------------------
// Several lines
// ---------------------------------------------------------------------------

/// A reading with several fields more of one record.
spec fn with_pairs(r: Reading, id: int, pairs: Seq<Pair>) -> Reading
    decreases pairs.len(),
{
    if pairs.len() == 0 {
        r
    } else {
        with_data(with_pairs(r, id, pairs.drop_last()), id, pairs.last())
    }
}

proof fn lemma_pairs_add(r: Reading, id: int, a: Seq<Pair>, b: Seq<Pair>)
    ensures
        with_pairs(r, id, a + b) == with_pairs(with_pairs(r, id, a), id, b),
    decreases b.len(),
{
    if b.len() == 0 {
        assert(a + b =~= a);
    } else {
        assert((a + b).drop_last() =~= a + b.drop_last());
        lemma_pairs_add(r, id, a, b.drop_last());
    }
}

/// The lines without their ends stand for the text, and a client reads them as
/// the fields.
spec fn reads_as(
    lines: Seq<Seq<char>>,
    text: Seq<char>,
    index: nat,
    pairs: Seq<Pair>,
) -> bool {
    &&& are_lines(lines)
    &&& as_text(lines) == text
    &&& forall|r: Reading| #[trigger]
        after_lines(r, lines) == Progress::More(with_pairs(r, index as int, pairs))
}

proof fn lemma_reads_nothing(index: nat)
    ensures
        reads_as(Seq::empty(), Seq::empty(), index, Seq::empty()),
{
}

proof fn lemma_reads_add(
    a: Seq<Seq<char>>,
    text_a: Seq<char>,
    pairs_a: Seq<Pair>,
    b: Seq<Seq<char>>,
    text_b: Seq<char>,
    pairs_b: Seq<Pair>,
    index: nat,
)
    requires
        reads_as(a, text_a, index, pairs_a),
        reads_as(b, text_b, index, pairs_b),
    ensures
        reads_as(a + b, text_a + text_b, index, pairs_a + pairs_b),
{
    lemma_text_add(a, b);
    assert forall|r: Reading| #[trigger] after_lines(r, a + b) == Progress::More(
        with_pairs(r, index as int, pairs_a + pairs_b),
    ) by {
        lemma_after_more(r, a, b);
        lemma_pairs_add(r, index as int, pairs_a, pairs_b);
    }
}

proof fn lemma_reads_one(index: nat, name: Seq<char>, value: Seq<char>)
    requires
        plain_name(name),
        !value.contains('\n'),
        0 < index <= i32::MAX,
    ensures
        reads_as(
            seq![data_body(index, name, value)],
            data_line(index, name, value),
            index,
            seq![(name, trim(value))],
        ),
{
    let body = data_body(index, name, value);
    let lines = seq![body];
    let pairs = seq![(name, trim(value))];
    reveal_strlit("\n");
    reveal_strlit("-200:");
    reveal_strlit(":");
    reveal_strlit(": ");
    lemma_digits_plain(index);
    assert(lines.drop_last() =~= Seq::empty());
    assert(as_text(lines.drop_last()) =~= Seq::empty());
    assert(as_text(lines) =~= data_line(index, name, value));
    assert(!body.contains('\n')) by {
        if body.contains('\n') {
            let i = choose|i: int| 0 <= i < body.len() && body[i] == '\n';
            let d = decimal(index);
            if i < 5 {
                assert(body[i] == "-200:"@[i]);
            } else if i < 5 + d.len() {
                assert(body[i] == d[i - 5]);
                assert(d.contains(d[i - 5]));
            } else if i < 6 + d.len() {
            } else if i < 6 + d.len() + name.len() {
                assert(body[i] == name[i - 6 - d.len()]);
                assert(name.contains(name[i - 6 - d.len()]));
            } else if i < 8 + d.len() + name.len() {
                assert(body[i] == ": "@[i - 6 - d.len() - name.len()]);
            } else {
                assert(body[i] == value[i - 8 - d.len() - name.len()]);
                assert(value.contains(value[i - 8 - d.len() - name.len()]));
            }
        }
    }
    assert forall|r: Reading| #[trigger] after_lines(r, lines) == Progress::More(
        with_pairs(r, index as int, pairs),
    ) by {
        lemma_data_line(r, index, name, value);
        assert(lines.drop_first() =~= Seq::empty());
        assert(pairs.drop_last() =~= Seq::empty());
        assert(with_pairs(r, index as int, pairs.drop_last()) == r);
        let next = with_data(r, index as int, (name, trim(value)));
        assert(with_line(r, lines[0]) == Progress::More(next));
        assert(after_lines(next, lines.drop_first()) == Progress::More(next));
    }
}

proof fn lemma_padding_plain(name: Seq<char>)
    ensures
        plain_name(padding(name)),
        forall|i: int| 0 <= i < padding(name).len() ==> #[trigger] padding(name)[i] == ' ',
    decreases name.len(),
{
    if name.len() > 0 {
        lemma_padding_plain(name.drop_last());
    }
    let p = padding(name);
    assert forall|i: int| 0 <= i < p.len() implies #[trigger] p[i] == ' ' by {
        if name.len() > 0 {
            let q = padding(name.drop_last());
            if i < q.len() {
                assert(p[i] == q[i]);
            }
        }
    }
}

proof fn lemma_value_lines(index: nat, name: Seq<char>, values: Seq<Seq<char>>) -> (lines: Seq<
    Seq<char>,
>)
    requires
        plain_name(name),
        0 < index <= i32::MAX,
        forall|i: int| 0 <= i < values.len() ==> !(#[trigger] values[i]).contains('\n'),
    ensures
        reads_as(lines, value_lines(index, name, values), index, value_pairs(name, values)),
    decreases values.len(),
{
    if values.len() == 0 {
        lemma_reads_nothing(index);
        Seq::empty()
    } else {
        let front = values.drop_last();
        assert forall|i: int| 0 <= i < front.len() implies !(#[trigger] front[i]).contains('\n') by {
            assert(!values[i].contains('\n'));
        }
        let before = lemma_value_lines(index, name, front);
        lemma_padding_plain(name);
        let label = if values.len() == 1 {
            name
        } else {
            padding(name)
        };
        assert(!values[values.len() - 1].contains('\n'));
        lemma_reads_one(index, label, values.last());
        let one = seq![data_body(index, label, values.last())];
        let pair = (label, trim(values.last()));
        lemma_reads_add(
            before,
            value_lines(index, name, front),
            value_pairs(name, front),
            one,
            data_line(index, label, values.last()),
            seq![pair],
            index,
        );
        assert(value_pairs(name, front) + seq![pair] =~= value_pairs(name, values));
        before + one
    }
}

proof fn lemma_field_lines(index: nat, e: Entry, name: Seq<char>) -> (lines: Seq<Seq<char>>)
    requires
        fits(e, name),
        0 < index <= i32::MAX,
    ensures
        reads_as(lines, field_lines(index, e, name), index, field_pairs(e, name)),
{
    if e.fields.contains_key(name) {
        lemma_reads_one(index, name, e.fields[name]);
        seq![data_body(index, name, e.fields[name])]
    } else if e.multi.contains_key(name) {
        lemma_value_lines(index, name, e.multi[name])
    } else {
        lemma_reads_nothing(index);
        Seq::empty()
    }
}

proof fn lemma_fields_lines(index: nat, e: Entry, names: Seq<Seq<char>>) -> (lines: Seq<Seq<char>>)
    requires
        all_fit(e, names),
        0 < index <= i32::MAX,
    ensures
        reads_as(lines, fields_lines(index, e, names), index, fields_pairs(e, names)),
    decreases names.len(),
{
    if names.len() == 0 {
        lemma_reads_nothing(index);
        Seq::empty()
    } else {
        let front = names.drop_last();
        assert(all_fit(e, front)) by {
            assert forall|i: int| 0 <= i < front.len() implies fits(e, #[trigger] front[i]) by {
                assert(fits(e, names[i]));
            }
        }
        let before = lemma_fields_lines(index, e, front);
        assert(fits(e, names[names.len() - 1]));
        let one = lemma_field_lines(index, e, names.last());
        lemma_reads_add(
            before,
            fields_lines(index, e, front),
            fields_pairs(e, front),
            one,
            field_lines(index, e, names.last()),
            field_pairs(e, names.last()),
            index,
        );
        before + one
    }
}

/// The fields of a record that begins make one record more.
proof fn lemma_new_record(r: Reading, id: int, pairs: Seq<Pair>)
    requires
        r.current is Some ==> r.current->0.id != id,
        pairs.len() > 0,
    ensures
        with_pairs(r, id, pairs) == (Reading {
            records: all_records(r),
            current: Some(Answer { id, fields: pairs }),
            count: r.count,
        }),
    decreases pairs.len(),
{
    let front = pairs.drop_last();
    if front.len() == 0 {
        assert(with_pairs(r, id, front) == r);
        assert(pairs =~= seq![pairs.last()]);
    } else {
        lemma_new_record(r, id, front);
        assert(front.push(pairs.last()) =~= pairs);
    }
}

/// Where a client stands after the lines of some records.
spec fn stands(r: Reading, count: int, answers: Seq<Answer>, last: int) -> bool {
    &&& r.count == count
    &&& all_records(r) == answers
    &&& r.current is Some ==> r.current->0.id <= last
}

proof fn lemma_record_lines(
    r: Reading,
    records: Seq<Entry>,
    requested: Seq<Seq<char>>,
) -> (res: (Seq<Seq<char>>, Reading))
    requires
        r.current is None,
        r.records.len() == 0,
        records.len() <= i32::MAX,
        forall|i: int|
            0 <= i < records.len() ==> all_fit(#[trigger] records[i], shown(records[i], requested)),
    ensures
        are_lines(res.0),
        as_text(res.0) == record_lines(records, requested),
        after_lines(r, res.0) == Progress::More(res.1),
        stands(res.1, r.count, seen(records, requested), records.len() as int),
    decreases records.len(),
{
    if records.len() == 0 {
        assert(all_records(r) =~= seen(records, requested));
        (Seq::empty(), r)
    } else {
        let front = records.drop_last();
        assert forall|i: int| 0 <= i < front.len() implies all_fit(
            #[trigger] front[i],
            shown(front[i], requested),
        ) by {
            assert(all_fit(records[i], shown(records[i], requested)));
        }
        let (before, mid) = lemma_record_lines(r, front, requested);
        let e = records.last();
        let names = shown(e, requested);
        assert(all_fit(records[records.len() - 1], shown(records[records.len() - 1], requested)));
        let index = records.len();
        let lines = lemma_fields_lines(index, e, names);
        let pairs = fields_pairs(e, names);
        lemma_text_add(before, lines);
        lemma_after_more(r, before, lines);
        let end = with_pairs(mid, index as int, pairs);
        assert(after_lines(mid, lines) == Progress::More(end));
        if pairs.len() > 0 {
            lemma_new_record(mid, index as int, pairs);
        }
        (before + lines, end)
    }
}

// ---------------------------------------------------------------------------
// The whole answer
// ---------------------------------------------------------------------------

proof fn lemma_word(s: Seq<char>)
    requires
        forall|i: int| 0 <= i < s.len() ==> !white_space(#[trigger] s[i]),
    ensures
        pieces(s, Delimiter::WhiteSpace) == seq![s],
{
    assert forall|i: int| 0 <= i < s.len() implies !Delimiter::WhiteSpace.cuts(
        #[trigger] s[i],
    ) by {}
    lemma_one_piece(s, Delimiter::WhiteSpace);
}

/// The line that announces the number of matches, without its end.
spec fn count_body(n: nat) -> Seq<char> {
    "102:There were "@ + decimal(n) + " matches to your request."@
}

/// What the line that announces the number of matches says, behind its code.
spec fn count_message(n: nat) -> Seq<char> {
    "There"@ + seq![' '] + ("were"@ + seq![' '] + (decimal(n) + seq![' ']
        + "matches to your request."@))
}

proof fn lemma_count_text(n: nat)
    ensures
        count_body(n) == "102"@.push(':') + count_message(n),
        !count_body(n).contains('\n'),
{
    reveal_strlit("102:There were ");
    reveal_strlit("102");
    reveal_strlit("There");
    reveal_strlit("were");
    reveal_strlit(" matches to your request.");
    reveal_strlit("matches to your request.");
    lemma_digits_plain(n);
    let d = decimal(n);
    let raw = count_body(n);
    assert("102:There were "@ =~= "102"@.push(':') + ("There"@.push(' ') + "were"@.push(' ')));
    assert(" matches to your request."@ =~= seq![' '] + "matches to your request."@);
    assert(raw =~= "102"@.push(':') + count_message(n));
    if raw.contains('\n') {
        let i = choose|i: int| 0 <= i < raw.len() && raw[i] == '\n';
        if i < 15 {
            assert(raw[i] == "102:There were "@[i]);
        } else if i < 15 + d.len() {
            assert(raw[i] == d[i - 15]);
            assert(d.contains(d[i - 15]));
        } else {
            assert(raw[i] == " matches to your request."@[i - 15 - d.len()]);
        }
    }
}

proof fn lemma_count_words(n: nat)
    ensures
        words(count_message(n)).len() > 2,
        words(count_message(n))[2] == decimal(n),
{
    reveal_strlit("There");
    reveal_strlit("were");
    lemma_digits_plain(n);
    lemma_decimal(n);
    let d = decimal(n);
    let tail = "matches to your request."@;
    let ws = Delimiter::WhiteSpace;
    let after = d + seq![' '] + tail;
    let rest = "were"@ + seq![' '] + after;
    law_pieces("There"@, ' ', rest, ws);
    law_pieces("were"@, ' ', after, ws);
    law_pieces(d, ' ', tail, ws);
    lemma_word("There"@);
    lemma_word("were"@);
    lemma_word(d);
    let first = seq!["There"@, "were"@, d];
    assert(pieces(count_message(n), ws) =~= first + pieces(tail, ws));
    let keep = |w: Seq<char>| w.len() > 0;
    Seq::filter_distributes_over_add(first, pieces(tail, ws), keep);
    assert(first.filter(keep) == first) by {
        reveal_with_fuel(Seq::filter, 4);
        assert(first.drop_last() =~= seq!["There"@, "were"@]);
        assert(first.drop_last().drop_last() =~= seq!["There"@]);
        assert(first.drop_last().drop_last().drop_last() =~= Seq::empty());
        assert(first.filter(keep) =~= first);
    }
}

proof fn lemma_count_line(r: Reading, n: nat)
    requires
        n <= i32::MAX,
    ensures
        with_line(r, count_body(n)) == Progress::More(Reading { count: n as int, ..r }),
        !count_body(n).contains('\n'),
{
    let raw = count_body(n);
    let message = count_message(n);
    lemma_count_text(n);
    lemma_count_words(n);
    law_decimal_reads_back(n);
    lemma_code_200();
    assert(raw[0] == '1' && raw.last() == '.' && message[0] == 'T' && message.last() == '.'
        && !"102"@.contains(':') && raw.len() > 0 && message.len() > 0) by {
        reveal_strlit("102");
        reveal_strlit("There");
        reveal_strlit("matches to your request.");
        assert("102"@.push(':')[0] == '1');
        assert("There"@[0] == 'T');
    }
    lemma_solid(raw);
    lemma_cut_at("102"@, ':', message);
    lemma_solid(message);
}

proof fn lemma_done_line(r: Reading)
    requires
        r.count > 0,
    ensures
        with_line(r, "200:Ok"@) == Progress::Complete(
            Response::Matches { count: r.count, records: all_records(r) },
        ),
{
    reveal_strlit("200:Ok");
    reveal_strlit("200");
    reveal_strlit("Ok");
    lemma_code_200();
    let raw = "200:Ok"@;
    assert(raw =~= "200"@.push(':') + "Ok"@);
    lemma_solid(raw);
    assert(!"200"@.contains(':'));
    lemma_cut_at("200"@, ':', "Ok"@);
}

/// What a client reads of the answer to a query is what the query found: the
/// number of records, and of each record the fields that are shown, in their
/// order. White space at the ends of a value is lost. The names that are shown
/// must not have a colon or an end of line in them, nor the values an end of
/// line.
pub proof fn law_client_reads_query(records: Seq<Entry>, requested: Seq<Seq<char>>)
    requires
        0 < records.len() <= i32::MAX,
        forall|i: int|
            0 <= i < records.len() ==> all_fit(#[trigger] records[i], shown(records[i], requested)),
    ensures
        after_lines(
            nothing_read(),
            pieces(
                query_reply(Ok::<Seq<Entry>, Failure>(records), requested),
                Delimiter::Exactly('\n'),
            ),
        ) == Progress::Complete(
            Response::Matches {
                count: records.len() as int,
                records: seen(records, requested),
            },
        ),
{
    let n = records.len();
    let start = nothing_read();
    let counted = Reading { count: n as int, ..start };
    lemma_count_line(start, n);
    let (lines, end) = lemma_record_lines(counted, records, requested);
    lemma_done_line(end);
    let first = seq![count_body(n)];
    let closing = seq!["200:Ok"@] + pieces(Seq::empty(), Delimiter::Exactly('\n'));
    lemma_reply_pieces(records, requested, lines);
    lemma_after_more(start, first + lines, closing);
    lemma_after_more(start, first, lines);
    assert(first.drop_first() =~= Seq::empty());
    assert(after_lines(counted, first.drop_first()) == Progress::More(counted));
    assert(after_lines(start, first) == Progress::More(counted));
    assert(closing[0] == "200:Ok"@);
}

proof fn lemma_reply_pieces(
    records: Seq<Entry>,
    requested: Seq<Seq<char>>,
    lines: Seq<Seq<char>>,
)
    requires
        0 < records.len() <= i32::MAX,
        are_lines(lines),
        as_text(lines) == record_lines(records, requested),
    ensures
        pieces(
            query_reply(Ok::<Seq<Entry>, Failure>(records), requested),
            Delimiter::Exactly('\n'),
        ) == seq![count_body(records.len())] + lines + (seq!["200:Ok"@] + pieces(
            Seq::empty(),
            Delimiter::Exactly('\n'),
        )),
{
    let n = records.len();
    let d = Delimiter::Exactly('\n');
    let first = seq![count_body(n)];
    let rest = "200:Ok"@.push('\n') + Seq::<char>::empty();
    lemma_count_line(nothing_read(), n);
    lemma_first_line(n);
    lemma_text_add(first, lines);
    lemma_text_pieces(first + lines, rest);
    lemma_pieces_join("200:Ok"@, '\n', Seq::empty(), d);
    reveal_strlit("200:Ok");
    assert forall|i: int| 0 <= i < "200:Ok"@.len() implies !d.cuts(#[trigger] "200:Ok"@[i]) by {}
    lemma_one_piece("200:Ok"@, d);
    assert("200:Ok\n"@ =~= rest) by {
        reveal_strlit("200:Ok\n");
        reveal_strlit("200:Ok");
    }
    let reply = query_reply(Ok::<Seq<Entry>, Failure>(records), requested);
    assert(reply == as_text(first) + as_text(lines) + rest);
}

proof fn lemma_first_line(n: nat)
    ensures
        as_text(seq![count_body(n)]) == "102:There were "@ + decimal(n)
            + " matches to your request.\n"@,
{
    let first = seq![count_body(n)];
    assert(" matches to your request.\n"@ =~= " matches to your request."@.push('\n')) by {
        reveal_strlit(" matches to your request.\n");
        reveal_strlit(" matches to your request.");
    }
    assert(first.drop_last() =~= Seq::empty());
    assert(as_text(first.drop_last()) =~= Seq::empty());
    assert(as_text(first) =~= count_body(n).push('\n'));
    assert(count_body(n).push('\n') =~= "102:There were "@ + decimal(n)
        + " matches to your request."@.push('\n'));
}

/// A client takes from the answer to its login the challenge that the server
/// sent. A challenge must not end in white space, which goes with the end of
/// the line.
pub proof fn law_client_reads_challenge(challenge: Seq<char>)
    requires
        challenge.len() > 0,
        !white_space(challenge.last()),
    ensures
        challenge_in(trim("301:"@ + challenge + "\n"@)) == Ok::<Seq<char>, Seq<char>>(challenge),
{
    reveal_strlit("301:");
    reveal_strlit("\n");
    let sent = "301:"@ + challenge + "\n"@;
    let n = 4 + challenge.len();
    assert(sent[n - 1] == challenge.last());
    assert(sent[0] == '3');
    assert forall|i: int| n <= i < sent.len() implies white_space(#[trigger] sent[i]) by {}
    lemma_trim(sent, 0, n as int);
    let line = sent.subrange(0, n as int);
    assert(line.take(4) =~= "301:"@);
    assert(line.skip(4) =~= challenge);
}

/// A client reads the refusal of a value as an error, with the reason that the
/// server gave. A reason must not end in white space, which goes with the end
/// of the line.
pub proof fn law_client_reads_refusal(r: Reading, reason: Seq<char>)
    requires
        reason.len() > 0,
        !white_space(reason.last()),
    ensures
        with_line(r, illegal_value(reason)) == Progress::Complete(
            Response::Error { code: 512, message: "Illegal value: "@ + reason },
        ),
{
    reveal_strlit("512:Illegal value: ");
    reveal_strlit("512");
    reveal_strlit("Illegal value: ");
    reveal_strlit("\n");
    let sent = illegal_value(reason);
    let message = "Illegal value: "@ + reason;
    let line = "512"@.push(':') + message;
    assert("512:Illegal value: "@ =~= "512"@.push(':') + "Illegal value: "@);
    assert(sent =~= line.push('\n'));
    assert(sent[line.len() - 1] == reason.last());
    assert(sent[0] == '5');
    assert forall|i: int| line.len() <= i < sent.len() implies white_space(
        #[trigger] sent[i],
    ) by {}
    lemma_trim(sent, 0, line.len() as int);
    assert(sent.subrange(0, line.len() as int) =~= line);
    assert(!"512"@.contains(':'));
    lemma_cut_at("512"@, ':', message);
    lemma_three_digits("512"@);
    assert(message[0] == 'I');
    assert(message.last() == reason.last());
    lemma_solid(message);
}

} // verus!
