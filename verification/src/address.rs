//! MAC and IP addresses: reading their textual forms.

use vstd::prelude::*;

use crate::numbers::decimal;
use crate::numbers::digit_char;
use crate::numbers::lemma_decimal;
use crate::text::Delimiter;
use crate::text::ascii_lower_char;
use crate::text::char_lists;
use crate::text::chars_of;
use crate::text::copy_range;
use crate::text::joined;
use crate::text::law_joined;
use crate::text::lemma_char_in_piece;
use crate::text::lemma_one_piece;
use crate::text::lemma_piece_chars;
use crate::text::lemma_pieces_join;
use crate::text::lemma_pieces_joined;
use crate::text::lemma_pieces_nonempty;
use crate::text::pieces;
use crate::text::split_pieces;

verus! {

/// The value of a digit in the given radix, which is ten or sixteen.
pub open spec fn digit_value(c: char, radix: nat) -> Option<nat> {
    if '0' <= c <= '9' {
        Some((c as nat - '0' as nat) as nat)
    } else if radix == 16 && 'a' <= c <= 'f' {
        Some((c as nat - 'a' as nat + 10) as nat)
    } else if radix == 16 && 'A' <= c <= 'F' {
        Some((c as nat - 'A' as nat + 10) as nat)
    } else {
        None
    }
}

/// Every character is a digit.
pub open spec fn all_digits(p: Seq<char>, radix: nat) -> bool {
    forall|i: int| 0 <= i < p.len() ==> digit_value(#[trigger] p[i], radix) is Some
}

/// The number that the digits write.
pub open spec fn digits_value(p: Seq<char>, radix: nat) -> nat
    decreases p.len(),
{
    if p.len() == 0 {
        0
    } else {
        digits_value(p.drop_last(), radix) * radix + digit_value(p.last(), radix).unwrap_or(0)
    }
}

/// The value of a digit.
pub fn read_digit(c: char, radix: u32) -> (d: Option<u32>)
    requires
        radix == 10 || radix == 16,
    ensures
        match d {
            Some(v) => digit_value(c, radix as nat) == Some(v as nat) && v < radix,
            None => digit_value(c, radix as nat) is None,
        },
{
    let n: u32 = c as u32;
    if 48 <= n && n <= 57 {
        Some(n - 48)
    } else if radix == 16 && 97 <= n && n <= 102 {
        Some(n - 97 + 10)
    } else if radix == 16 && 65 <= n && n <= 70 {
        Some(n - 65 + 10)
    } else {
        None
    }
}

/// Reads one to four digits as a number.
fn read_short_number(p: &[char], radix: u32) -> (r: Option<u32>)
    requires
        radix == 10 || radix == 16,
    ensures
        match r {
            Some(v) => 0 < p@.len() <= 4 && all_digits(p@, radix as nat) && v == digits_value(
                p@,
                radix as nat,
            ) && v < 0x1_0000,
            None => !(0 < p@.len() <= 4 && all_digits(p@, radix as nat)),
        },
{
    if p.len() == 0 || p.len() > 4 {
        return None;
    }
    let mut value: u32 = 0;
    let mut i: usize = 0;
    let ghost mut bound: nat = 1;
    while i < p.len()
        invariant
            0 < p@.len() <= 4,
            radix == 10 || radix == 16,
            i <= p@.len(),
            forall|j: int| 0 <= j < i ==> digit_value(#[trigger] p@[j], radix as nat) is Some,
            value == digits_value(p@.take(i as int), radix as nat),
            value < bound,
            i == 0 ==> bound == 1,
            i == 1 ==> bound == 16,
            i == 2 ==> bound == 256,
            i == 3 ==> bound == 4096,
            i == 4 ==> bound == 65536,
        decreases p.len() - i,
    {
        match read_digit(p[i], radix) {
            Some(d) => {
                proof {
                    assert(p@.take(i + 1).drop_last() =~= p@.take(i as int));
                    assert(p@.take(i + 1).last() == p@[i as int]);
                    assert(value * radix <= value * 16) by (nonlinear_arith)
                        requires
                            radix <= 16,
                    ;
                    bound = bound * 16;
                }
                value = value * radix + d;
            },
            None => {
                return None;
            },
        }
        i = i + 1;
    }
    proof {
        assert(p@.take(p@.len() as int) =~= p@);
    }
    Some(value)
}

/// The octet that a part of a MAC address writes: one or two hexadecimal
/// digits.
pub open spec fn hex_octet(p: Seq<char>) -> Option<u8> {
    if 0 < p.len() <= 2 && all_digits(p, 16) {
        Some(digits_value(p, 16) as u8)
    } else {
        None
    }
}

/// The six octets of a MAC address, where the text is one.
pub open spec fn mac_octets(s: Seq<char>) -> Option<Seq<u8>> {
    let ps = pieces(s, Delimiter::Octet);
    if ps.len() == 6 && forall|i: int| 0 <= i < 6 ==> hex_octet(#[trigger] ps[i]) is Some {
        Some(Seq::new(6, |i: int| hex_octet(ps[i]).unwrap()))
    } else {
        None
    }
}

fn read_hex_octet(p: &[char]) -> (r: Option<u8>)
    ensures
        r == hex_octet(p@),
{
    if p.len() > 2 {
        return None;
    }
    match read_short_number(p, 16) {
        Some(v) => {
            proof {
                lemma_two_digits(p@);
            }
            Some(v as u8)
        },
        None => None,
    }
}

proof fn lemma_two_digits(p: Seq<char>)
    requires
        0 < p.len() <= 2,
        all_digits(p, 16),
    ensures
        digits_value(p, 16) < 256,
{
    reveal_with_fuel(digits_value, 3);
    assert(digit_value(p.last(), 16) is Some);
    if p.len() == 2 {
        assert(p.drop_last().last() == p[0]);
        assert(digit_value(p[0], 16) is Some);
    }
}

/// Parses a MAC address, written with colons or hyphens, into its six octets;
/// `None` where the text is no MAC address.
pub fn parse_mac_bytes(s: &str) -> (r: Option<[u8; 6]>)
    ensures
        match r {
            Some(bytes) => mac_octets(s@) == Some(bytes@),
            None => mac_octets(s@) is None,
        },
{
    let cs = chars_of(s);
    let ps = split_pieces(&cs, Delimiter::Octet);
    let ghost all = pieces(s@, Delimiter::Octet);
    if ps.len() != 6 {
        return None;
    }
    let mut bytes: Vec<u8> = Vec::new();
    let mut i: usize = 0;
    while i < 6
        invariant
            i <= 6,
            ps@.len() == 6,
            all == char_lists(ps@),
            all == pieces(s@, Delimiter::Octet),
            bytes@.len() == i,
            forall|j: int| 0 <= j < i ==> hex_octet(#[trigger] all[j]) == Some(bytes@[j]),
        decreases 6 - i,
    {
        proof {
            assert(all[i as int] == ps@[i as int]@);
        }
        match read_hex_octet(&ps[i]) {
            Some(b) => {
                bytes.push(b);
            },
            None => {
                return None;
            },
        }
        i = i + 1;
    }
    let out = [bytes[0], bytes[1], bytes[2], bytes[3], bytes[4], bytes[5]];
    proof {
        assert forall|j: int| 0 <= j < 6 implies hex_octet(#[trigger] all[j]) is Some by {}
        assert(out@ =~= Seq::new(6, |j: int| hex_octet(all[j]).unwrap()));
    }
    Some(out)
}

/// Whether a text is a MAC address.
pub fn is_valid_mac_address(s: &str) -> (b: bool)
    ensures
        b == mac_octets(s@) is Some,
{
    parse_mac_bytes(s).is_some()
}

/// An IP address.
#[derive(Debug, Clone, Copy, PartialEq, Eq)]
pub enum IpAddress {
    V4([u8; 4]),
    V6([u16; 8]),
}

/// An `IpAddress` as a value of the specification.
pub enum Ip {
    V4(Seq<u8>),
    V6(Seq<u16>),
}

impl View for IpAddress {
    type V = Ip;

    open spec fn view(&self) -> Ip {
        match self {
            IpAddress::V4(o) => Ip::V4(o@),
            IpAddress::V6(g) => Ip::V6(g@),
        }
    }
}

/// The octet that one part of an IPv4 address writes: up to three decimal
/// digits, at most 255, without a leading zero.
pub open spec fn decimal_octet(p: Seq<char>) -> Option<u8> {
    if 0 < p.len() <= 3 && all_digits(p, 10) && !(p.len() > 1 && p[0] == '0') && digits_value(p, 10)
        <= 255 {
        Some(digits_value(p, 10) as u8)
    } else {
        None
    }
}

/// The four octets of an IPv4 address in dotted decimal notation.
pub open spec fn v4_octets(s: Seq<char>) -> Option<Seq<u8>> {
    let ps = pieces(s, Delimiter::Exactly('.'));
    if ps.len() == 4 && forall|i: int| 0 <= i < 4 ==> decimal_octet(#[trigger] ps[i]) is Some {
        Some(Seq::new(4, |i: int| decimal_octet(ps[i]).unwrap()))
    } else {
        None
    }
}

/// The sixteen bits that one group of an IPv6 address writes: one to four
/// hexadecimal digits.
pub open spec fn hex_group(p: Seq<char>) -> Option<u16> {
    if 0 < p.len() <= 4 && all_digits(p, 16) {
        Some(digits_value(p, 16) as u16)
    } else {
        None
    }
}

/// The values of a list of groups.
pub open spec fn hex_groups(ps: Seq<Seq<char>>) -> Option<Seq<u16>> {
    if forall|i: int| 0 <= i < ps.len() ==> hex_group(#[trigger] ps[i]) is Some {
        Some(Seq::new(ps.len(), |i: int| hex_group(ps[i]).unwrap()))
    } else {
        None
    }
}

/// Two groups of an IPv6 address, from the four octets of an IPv4 address.
pub open spec fn embedded_groups(o: Seq<u8>) -> Seq<u16> {
    seq![(o[0] * 256 + o[1]) as u16, (o[2] * 256 + o[3]) as u16]
}

/// The groups that a stretch of an IPv6 address writes, separated by colons.
/// At the end of the address an IPv4 address may stand for the last two.
pub open spec fn run_of_groups(s: Seq<char>, at_end: bool) -> Option<Seq<u16>> {
    let ps = pieces(s, Delimiter::Exactly(':'));
    if s.len() == 0 {
        Some(Seq::empty())
    } else if at_end && v4_octets(ps.last()) is Some {
        match hex_groups(ps.drop_last()) {
            Some(front) => Some(front + embedded_groups(v4_octets(ps.last()).unwrap())),
            None => None,
        }
    } else {
        hex_groups(ps)
    }
}

/// The position of the first `::`, or the length where there is none.
pub open spec fn double_colon(s: Seq<char>) -> int
    decreases s.len(),
{
    if s.len() < 2 {
        s.len() as int
    } else if s[0] == ':' && s[1] == ':' {
        0
    } else {
        1 + double_colon(s.drop_first())
    }
}

/// The eight groups of an IPv6 address. A `::` stands for the zero groups that
/// are missing, at least one of them.
pub open spec fn v6_groups(s: Seq<char>) -> Option<Seq<u16>> {
    let k = double_colon(s);
    if k < s.len() {
        match (run_of_groups(s.take(k), false), run_of_groups(s.skip(k + 2), true)) {
            (Some(head), Some(tail)) => {
                if head.len() + tail.len() <= 7 {
                    Some(
                        head + Seq::new((8 - head.len() - tail.len()) as nat, |i: int| 0u16) + tail,
                    )
                } else {
                    None
                }
            },
            _ => None,
        }
    } else {
        match run_of_groups(s, true) {
            Some(all) => if all.len() == 8 {
                Some(all)
            } else {
                None
            },
            None => None,
        }
    }
}

/// The IP address that a text writes.
pub open spec fn ip_of(s: Seq<char>) -> Option<Ip> {
    match v4_octets(s) {
        Some(o) => Some(Ip::V4(o)),
        None => match v6_groups(s) {
            Some(g) => Some(Ip::V6(g)),
            None => None,
        },
    }
}

fn read_decimal_octet(p: &[char]) -> (r: Option<u8>)
    ensures
        r == decimal_octet(p@),
{
    if p.len() > 3 || (p.len() > 1 && p[0] == '0') {
        return None;
    }
    match read_short_number(p, 10) {
        Some(v) => if v <= 255 {
            Some(v as u8)
        } else {
            None
        },
        None => None,
    }
}

fn read_v4(s: &[char]) -> (r: Option<[u8; 4]>)
    ensures
        match r {
            Some(o) => v4_octets(s@) == Some(o@),
            None => v4_octets(s@) is None,
        },
{
    let ps = split_pieces(s, Delimiter::Exactly('.'));
    let ghost all = pieces(s@, Delimiter::Exactly('.'));
    if ps.len() != 4 {
        return None;
    }
    let mut bytes: Vec<u8> = Vec::new();
    let mut i: usize = 0;
    while i < 4
        invariant
            i <= 4,
            ps@.len() == 4,
            all == char_lists(ps@),
            all == pieces(s@, Delimiter::Exactly('.')),
            bytes@.len() == i,
            forall|j: int| 0 <= j < i ==> decimal_octet(#[trigger] all[j]) == Some(bytes@[j]),
        decreases 4 - i,
    {
        proof {
            assert(all[i as int] == ps@[i as int]@);
        }
        match read_decimal_octet(&ps[i]) {
            Some(b) => {
                bytes.push(b);
            },
            None => {
                return None;
            },
        }
        i = i + 1;
    }
    let out = [bytes[0], bytes[1], bytes[2], bytes[3]];
    proof {
        assert forall|j: int| 0 <= j < 4 implies decimal_octet(#[trigger] all[j]) is Some by {}
        assert(out@ =~= Seq::new(4, |j: int| decimal_octet(all[j]).unwrap()));
    }
    Some(out)
}

/// Reads the first `n` pieces as groups.
fn read_groups(ps: &[Vec<char>], n: usize) -> (r: Option<Vec<u16>>)
    requires
        n <= ps@.len(),
    ensures
        match r {
            Some(g) => hex_groups(char_lists(ps@).take(n as int)) == Some(g@),
            None => hex_groups(char_lists(ps@).take(n as int)) is None,
        },
{
    let ghost all = char_lists(ps@).take(n as int);
    let mut groups: Vec<u16> = Vec::new();
    let mut i: usize = 0;
    while i < n
        invariant
            i <= n <= ps@.len(),
            all == char_lists(ps@).take(n as int),
            groups@.len() == i,
            forall|j: int| 0 <= j < i ==> hex_group(#[trigger] all[j]) == Some(groups@[j]),
        decreases n - i,
    {
        proof {
            assert(all[i as int] == ps@[i as int]@);
        }
        match read_short_number(&ps[i], 16) {
            Some(v) => {
                groups.push(v as u16);
            },
            None => {
                proof {
                    assert(hex_group(all[i as int]) is None);
                }
                return None;
            },
        }
        i = i + 1;
    }
    proof {
        assert(groups@ =~= Seq::new(all.len(), |j: int| hex_group(all[j]).unwrap()));
    }
    Some(groups)
}

fn read_run(s: &[char], at_end: bool) -> (r: Option<Vec<u16>>)
    ensures
        match r {
            Some(g) => run_of_groups(s@, at_end) == Some(g@),
            None => run_of_groups(s@, at_end) is None,
        },
{
    if s.len() == 0 {
        let none: Vec<u16> = Vec::new();
        proof {
            assert(none@ =~= Seq::<u16>::empty());
        }
        return Some(none);
    }
    let ps = split_pieces(s, Delimiter::Exactly(':'));
    let ghost all = pieces(s@, Delimiter::Exactly(':'));
    proof {
        lemma_pieces_nonempty(s@, Delimiter::Exactly(':'));
        assert(all.take(all.len() as int) =~= all);
        assert(all.drop_last() =~= all.take(all.len() - 1));
        assert(all.len() == ps@.len());
        assert(all.last() == ps@[ps@.len() - 1]@);
    }
    if at_end {
        if let Some(o) = read_v4(&ps[ps.len() - 1]) {
            match read_groups(&ps, ps.len() - 1) {
                Some(mut g) => {
                    let ghost front = g@;
                    let hi: u16 = o[0] as u16 * 256 + o[1] as u16;
                    let lo: u16 = o[2] as u16 * 256 + o[3] as u16;
                    g.push(hi);
                    g.push(lo);
                    proof {
                        assert(g@ =~= front + embedded_groups(o@));
                    }
                    return Some(g);
                },
                None => {
                    return None;
                },
            }
        }
    }
    read_groups(&ps, ps.len())
}

proof fn lemma_double_colon(s: Seq<char>, i: int)
    requires
        0 <= i < s.len(),
        forall|j: int| 0 <= j < i ==> !(s[j] == ':' && #[trigger] s[j + 1] == ':'),
    ensures
        double_colon(s) == i + double_colon(s.skip(i)),
    decreases i,
{
    if i == 0 {
        assert(s.skip(0) =~= s);
    } else {
        assert(s.drop_first().skip(i - 1) =~= s.skip(i));
        assert(!(s[0] == ':' && s[0int + 1] == ':'));
        assert forall|j: int| 0 <= j < i - 1 implies !(s.drop_first()[j] == ':'
            && #[trigger] s.drop_first()[j + 1] == ':') by {
            assert(!(s[j + 1] == ':' && s[j + 1 + 1] == ':'));
        }
        lemma_double_colon(s.drop_first(), i - 1);
    }
}

/// The position of the first `::`, or the length where there is none.
fn find_double_colon(s: &[char]) -> (k: usize)
    ensures
        k == double_colon(s@),
        k <= s@.len(),
        k < s@.len() ==> k + 2 <= s@.len(),
{
    if s.len() < 2 {
        return s.len();
    }
    let mut i: usize = 0;
    while i < s.len() - 1
        invariant
            2 <= s@.len(),
            i <= s@.len() - 1,
            forall|j: int| 0 <= j < i ==> !(s@[j] == ':' && #[trigger] s@[j + 1] == ':'),
        decreases s.len() - i,
    {
        if s[i] == ':' && s[i + 1] == ':' {
            proof {
                lemma_double_colon(s@, i as int);
                assert(s@.skip(i as int)[0] == s@[i as int]);
                assert(s@.skip(i as int)[1] == s@[i + 1]);
            }
            return i;
        }
        i = i + 1;
    }
    proof {
        lemma_double_colon(s@, i as int);
        assert(s@.skip(i as int).len() == 1);
    }
    s.len()
}

fn eight(g: &Vec<u16>) -> (a: [u16; 8])
    requires
        g@.len() == 8,
    ensures
        a@ == g@,
{
    let a = [g[0], g[1], g[2], g[3], g[4], g[5], g[6], g[7]];
    proof {
        assert(a@ =~= g@);
    }
    a
}

fn read_v6(s: &[char]) -> (r: Option<[u16; 8]>)
    ensures
        match r {
            Some(g) => v6_groups(s@) == Some(g@),
            None => v6_groups(s@) is None,
        },
{
    let k = find_double_colon(s);
    if k < s.len() {
        let front = copy_range(s, 0, k);
        let back = copy_range(s, k + 2, s.len());
        proof {
            assert(front@ =~= s@.take(k as int));
            assert(back@ =~= s@.skip(k + 2));
        }
        match (read_run(&front, false), read_run(&back, true)) {
            (Some(mut head), Some(tail)) => {
                let h = head.len();
                let t = tail.len();
                if h > 7 || t > 7 || h + t > 7 {
                    return None;
                }
                let ghost written = head@;
                let ghost zeros = Seq::new((8 - h - t) as nat, |i: int| 0u16);
                let mut n: usize = 0;
                while n < 8 - h - t
                    invariant
                        h + t <= 7,
                        n <= 8 - h - t,
                        zeros == Seq::new((8 - h - t) as nat, |i: int| 0u16),
                        head@ == written + zeros.take(n as int),
                    decreases 8 - n,
                {
                    head.push(0u16);
                    proof {
                        assert(written + zeros.take(n + 1) =~= (written + zeros.take(
                            n as int,
                        )).push(0u16));
                    }
                    n = n + 1;
                }
                proof {
                    assert(zeros.take(n as int) =~= zeros);
                }
                let mut m: usize = 0;
                while m < t
                    invariant
                        t == tail@.len(),
                        m <= t,
                        head@ == written + zeros + tail@.take(m as int),
                    decreases t - m,
                {
                    head.push(tail[m]);
                    proof {
                        assert(written + zeros + tail@.take(m + 1) =~= (written + zeros
                            + tail@.take(m as int)).push(tail@[m as int]));
                    }
                    m = m + 1;
                }
                proof {
                    assert(tail@.take(t as int) =~= tail@);
                    assert(head@.len() == 8);
                }
                Some(eight(&head))
            },
            _ => None,
        }
    } else {
        match read_run(s, true) {
            Some(all) => if all.len() == 8 {
                Some(eight(&all))
            } else {
                None
            },
            None => None,
        }
    }
}

/// Parses an IPv4 or IPv6 address; `None` where the text is neither.
pub fn parse_ip(s: &str) -> (r: Option<IpAddress>)
    ensures
        match r {
            Some(ip) => ip_of(s@) == Some(ip@),
            None => ip_of(s@) is None,
        },
{
    let cs = chars_of(s);
    match read_v4(&cs) {
        Some(o) => Some(IpAddress::V4(o)),
        None => match read_v6(&cs) {
            Some(g) => Some(IpAddress::V6(g)),
            None => None,
        },
    }
}

/// Whether two addresses are the same.
pub fn same_ip(a: &IpAddress, b: &IpAddress) -> (same: bool)
    ensures
        same == (a@ == b@),
{
    match (a, b) {
        (IpAddress::V4(x), IpAddress::V4(y)) => {
            let mut i: usize = 0;
            while i < 4
                invariant
                    i <= 4,
                    a@ == Ip::V4(x@),
                    b@ == Ip::V4(y@),
                    forall|j: int| 0 <= j < i ==> x@[j] == y@[j],
                decreases 4 - i,
            {
                if x[i] != y[i] {
                    proof {
                        assert(x@[i as int] != y@[i as int]);
                    }
                    return false;
                }
                i = i + 1;
            }
            proof {
                assert(x@ =~= y@);
            }
            true
        },
        (IpAddress::V6(x), IpAddress::V6(y)) => {
            let mut i: usize = 0;
            while i < 8
                invariant
                    i <= 8,
                    a@ == Ip::V6(x@),
                    b@ == Ip::V6(y@),
                    forall|j: int| 0 <= j < i ==> x@[j] == y@[j],
                decreases 8 - i,
            {
                if x[i] != y[i] {
                    proof {
                        assert(x@[i as int] != y@[i as int]);
                    }
                    return false;
                }
                i = i + 1;
            }
            proof {
                assert(x@ =~= y@);
            }
            true
        },
        _ => false,
    }
}

/// Whether two MAC addresses have the same octets.
pub fn same_mac(a: &[u8; 6], b: &[u8; 6]) -> (same: bool)
    ensures
        same == (a@ == b@),
{
    let mut i: usize = 0;
    while i < 6
        invariant
            i <= 6,
            forall|j: int| 0 <= j < i ==> a@[j] == b@[j],
        decreases 6 - i,
    {
        if a[i] != b[i] {
            proof {
                assert(a@[i as int] != b@[i as int]);
            }
            return false;
        }
        i = i + 1;
    }
    proof {
        assert(a@ =~= b@);
    }
    true
}

// ---------------------------------------------------------------------------
// What holds of addresses
// ---------------------------------------------------------------------------

/// Two characters that mean the same in a MAC address: the same digit in
/// either case, or two separators.
pub open spec fn same_in_mac(a: char, b: char) -> bool {
    ||| ascii_lower_char(a) == ascii_lower_char(b)
    ||| Delimiter::Octet.cuts(a) && Delimiter::Octet.cuts(b)
}

/// Two texts of which each character means the same in a MAC address.
pub open spec fn same_as_mac(s: Seq<char>, t: Seq<char>) -> bool {
    s.len() == t.len() && forall|i: int|
        0 <= i < s.len() ==> same_in_mac(#[trigger] s[i], #[trigger] t[i])
}

/// A MAC address is the same in either case, and with either separator.
pub proof fn law_mac_notation(s: Seq<char>, t: Seq<char>)
    requires
        same_as_mac(s, t),
    ensures
        mac_octets(s) == mac_octets(t),
{
    let d = Delimiter::Octet;
    lemma_same_mac_pieces(s, t);
    lemma_piece_chars(s, d);
    lemma_piece_chars(t, d);
    let ps = pieces(s, d);
    let qs = pieces(t, d);
    assert forall|i: int| 0 <= i < ps.len() implies hex_octet(#[trigger] ps[i]) == hex_octet(
        qs[i],
    ) by {
        let p = ps[i];
        let q = qs[i];
        assert(same_as_mac(p, q));
        assert forall|j: int| 0 <= j < p.len() implies ascii_lower_char(#[trigger] p[j])
            == ascii_lower_char(q[j]) by {
            assert(same_in_mac(p[j], q[j]));
            assert(!d.cuts(ps[i][j]));
            assert(!d.cuts(qs[i][j]));
        }
        lemma_same_digits(p, q);
    }
    if ps.len() == 6 {
        assert(forall|i: int| 0 <= i < 6 ==> hex_octet(#[trigger] ps[i]) == hex_octet(qs[i]));
        if forall|i: int| 0 <= i < 6 ==> hex_octet(#[trigger] ps[i]) is Some {
            assert forall|i: int| 0 <= i < 6 implies hex_octet(#[trigger] qs[i]) is Some by {
                assert(hex_octet(ps[i]) is Some);
            }
            assert(mac_octets(s).unwrap() =~= mac_octets(t).unwrap());
        } else {
            let i = choose|i: int| 0 <= i < 6 && hex_octet(#[trigger] ps[i]) is None;
            assert(hex_octet(qs[i]) is None);
        }
    }
}

proof fn lemma_same_mac_pieces(s: Seq<char>, t: Seq<char>)
    requires
        same_as_mac(s, t),
    ensures
        pieces(s, Delimiter::Octet).len() == pieces(t, Delimiter::Octet).len(),
        forall|i: int|
            0 <= i < pieces(s, Delimiter::Octet).len() ==> same_as_mac(
                #[trigger] pieces(s, Delimiter::Octet)[i],
                pieces(t, Delimiter::Octet)[i],
            ),
    decreases s.len(),
{
    let d = Delimiter::Octet;
    if s.len() > 0 {
        let fs = s.drop_last();
        let ft = t.drop_last();
        assert(same_as_mac(fs, ft)) by {
            assert forall|i: int| 0 <= i < fs.len() implies same_in_mac(
                #[trigger] fs[i],
                #[trigger] ft[i],
            ) by {
                assert(same_in_mac(s[i], t[i]));
            }
        }
        lemma_same_mac_pieces(fs, ft);
        lemma_pieces_nonempty(fs, d);
        lemma_pieces_nonempty(ft, d);
        assert(same_in_mac(s[s.len() - 1], t[t.len() - 1]));
        assert(d.cuts(s.last()) == d.cuts(t.last()));
        assert forall|i: int| 0 <= i < pieces(s, d).len() implies same_as_mac(
            #[trigger] pieces(s, d)[i],
            pieces(t, d)[i],
        ) by {
            if i < pieces(fs, d).len() {
                assert(same_as_mac(pieces(fs, d)[i], pieces(ft, d)[i]));
            }
            let p = pieces(s, d)[i];
            let q = pieces(t, d)[i];
            assert forall|j: int| 0 <= j < p.len() implies same_in_mac(
                #[trigger] p[j],
                #[trigger] q[j],
            ) by {
                if i < pieces(fs, d).len() && j < pieces(fs, d)[i].len() {
                    assert(same_in_mac(pieces(fs, d)[i][j], pieces(ft, d)[i][j]));
                }
            }
        }
    } else {
        assert(s =~= t);
        assert(same_as_mac(pieces(s, d)[0], pieces(t, d)[0]));
    }
}

proof fn lemma_same_digits(a: Seq<char>, b: Seq<char>)
    requires
        a.len() == b.len(),
        forall|j: int| 0 <= j < a.len() ==> ascii_lower_char(#[trigger] a[j]) == ascii_lower_char(b[j]),
    ensures
        all_digits(a, 16) == all_digits(b, 16),
        digits_value(a, 16) == digits_value(b, 16),
    decreases a.len(),
{
    assert forall|j: int| 0 <= j < a.len() implies digit_value(#[trigger] a[j], 16) == digit_value(
        b[j],
        16,
    ) by {
        assert(ascii_lower_char(a[j]) == ascii_lower_char(b[j]));
    }
    if all_digits(a, 16) {
        assert forall|j: int| 0 <= j < b.len() implies digit_value(#[trigger] b[j], 16) is Some by {
            assert(digit_value(a[j], 16) is Some);
        }
    }
    if all_digits(b, 16) {
        assert forall|j: int| 0 <= j < a.len() implies digit_value(#[trigger] a[j], 16) is Some by {
            assert(digit_value(b[j], 16) is Some);
        }
    }
    if a.len() > 0 {
        let fa = a.drop_last();
        let fb = b.drop_last();
        assert forall|j: int| 0 <= j < fa.len() implies ascii_lower_char(#[trigger] fa[j])
            == ascii_lower_char(fb[j]) by {
            assert(fa[j] == a[j]);
        }
        lemma_same_digits(fa, fb);
        assert(digit_value(a[a.len() - 1], 16) == digit_value(b[b.len() - 1], 16));
    }
}

/// A character that stands in no address: it is neither a digit nor one of the
/// marks between digits.
pub open spec fn foreign(c: char) -> bool {
    digit_value(c, 16) is None && c != ':' && c != '-' && c != '.'
}

/// A text with a character that stands in no address is none.
pub proof fn law_foreign_character(s: Seq<char>, c: char)
    requires
        s.contains(c),
        foreign(c),
    ensures
        mac_octets(s) is None,
        ip_of(s) is None,
{
    let d = Delimiter::Octet;
    lemma_char_in_piece(s, d, c);
    let ps = pieces(s, d);
    let i = choose|i: int| 0 <= i < ps.len() && (#[trigger] ps[i]).contains(c);
    lemma_foreign_part(ps[i], c);
    assert(hex_octet(ps[i]) is None);
    lemma_foreign_v4(s, c);
    lemma_foreign_v6(s, c);
}

proof fn lemma_foreign_part(p: Seq<char>, c: char)
    requires
        p.contains(c),
        foreign(c),
    ensures
        !all_digits(p, 16),
        !all_digits(p, 10),
{
    let j = choose|j: int| 0 <= j < p.len() && p[j] == c;
    assert(digit_value(p[j], 16) is None);
    assert(digit_value(p[j], 10) is None);
}

proof fn lemma_foreign_v4(s: Seq<char>, c: char)
    requires
        s.contains(c),
        foreign(c),
    ensures
        v4_octets(s) is None,
{
    let d = Delimiter::Exactly('.');
    lemma_char_in_piece(s, d, c);
    let ps = pieces(s, d);
    let i = choose|i: int| 0 <= i < ps.len() && (#[trigger] ps[i]).contains(c);
    lemma_foreign_part(ps[i], c);
    assert(decimal_octet(ps[i]) is None);
}

proof fn lemma_foreign_run(s: Seq<char>, at_end: bool, c: char)
    requires
        s.contains(c),
        foreign(c),
    ensures
        run_of_groups(s, at_end) is None,
{
    let d = Delimiter::Exactly(':');
    lemma_char_in_piece(s, d, c);
    let ps = pieces(s, d);
    let i = choose|i: int| 0 <= i < ps.len() && (#[trigger] ps[i]).contains(c);
    lemma_foreign_part(ps[i], c);
    assert(hex_group(ps[i]) is None);
    if i == ps.len() - 1 {
        lemma_foreign_v4(ps[i], c);
    } else {
        assert(ps.drop_last()[i] == ps[i]);
        assert(hex_groups(ps.drop_last()) is None);
    }
}

proof fn lemma_foreign_v6(s: Seq<char>, c: char)
    requires
        s.contains(c),
        foreign(c),
    ensures
        v6_groups(s) is None,
{
    let k = double_colon(s);
    lemma_double_colon_found(s);
    let p = choose|p: int| 0 <= p < s.len() && s[p] == c;
    if k < s.len() {
        if p < k {
            assert(s.take(k)[p] == c);
            lemma_foreign_run(s.take(k), false, c);
        } else {
            assert(s.skip(k + 2)[p - k - 2] == c);
            lemma_foreign_run(s.skip(k + 2), true, c);
        }
    } else {
        lemma_foreign_run(s, true, c);
    }
}

proof fn lemma_double_colon_found(s: Seq<char>)
    ensures
        0 <= double_colon(s) <= s.len(),
        double_colon(s) < s.len() ==> double_colon(s) + 1 < s.len() && s[double_colon(s)] == ':'
            && s[double_colon(s) + 1] == ':',
    decreases s.len(),
{
    if s.len() >= 2 && !(s[0] == ':' && s[1] == ':') {
        lemma_double_colon_found(s.drop_first());
    }
}

/// Texts with a colon between any two.
pub open spec fn colon_joined(list: Seq<Seq<char>>) -> Seq<char>
    decreases list.len(),
{
    if list.len() == 0 {
        Seq::empty()
    } else if list.len() == 1 {
        list[0]
    } else {
        colon_joined(list.drop_last()).push(':') + list.last()
    }
}

/// The texts of groups of an IPv6 address.
pub open spec fn are_groups(list: Seq<Seq<char>>) -> bool {
    forall|i: int| 0 <= i < list.len() ==> hex_group(#[trigger] list[i]) is Some
}

/// As many groups of zero as an address with so many other groups has.
pub open spec fn zero_groups(n: nat) -> Seq<Seq<char>> {
    Seq::new((8 - n) as nat, |i: int| "0"@)
}

/// An IPv6 address is the same whether its zero groups are written out or a
/// `::` stands for them.
pub proof fn law_zero_compression(head: Seq<Seq<char>>, tail: Seq<Seq<char>>)
    requires
        are_groups(head),
        are_groups(tail),
        head.len() + tail.len() <= 7,
    ensures
        ip_of(colon_joined(head) + seq![':', ':'] + colon_joined(tail)) == ip_of(
            colon_joined(head + zero_groups(head.len() + tail.len()) + tail),
        ),
        ip_of(colon_joined(head) + seq![':', ':'] + colon_joined(tail)) is Some,
{
    let short = colon_joined(head) + seq![':', ':'] + colon_joined(tail);
    let zeros = zero_groups(head.len() + tail.len());
    let all = head + zeros + tail;
    let long = colon_joined(all);
    reveal_strlit("0");
    assert(hex_group("0"@) == Some(0u16)) by {
        assert("0"@.drop_last() =~= Seq::empty());
        assert(digits_value("0"@.drop_last(), 16) == 0);
        assert("0"@.last() == '0');
        assert(digits_value("0"@, 16) == 0);
        assert(all_digits("0"@, 16));
    }
    assert(are_groups(all)) by {
        assert forall|i: int| 0 <= i < all.len() implies hex_group(#[trigger] all[i]) is Some by {
            if i < head.len() {
                assert(all[i] == head[i]);
            } else if i < head.len() + zeros.len() {
                assert(all[i] == "0"@);
            } else {
                assert(all[i] == tail[i - head.len() - zeros.len()]);
            }
        }
    }
    lemma_joined(head);
    lemma_joined(tail);
    lemma_joined(all);
    lemma_no_dots(short, head, tail);
    lemma_not_v4(short);
    lemma_not_v4(long);
    let k = colon_joined(head).len() as int;
    lemma_first_double_colon(head, tail);
    assert(short.take(k) =~= colon_joined(head));
    assert(short.skip(k + 2) =~= colon_joined(tail));
    lemma_run(head, false);
    lemma_run(tail, true);
    lemma_run(all, true);
    let h = Seq::new(head.len(), |i: int| hex_group(head[i]).unwrap());
    let t = Seq::new(tail.len(), |i: int| hex_group(tail[i]).unwrap());
    let a = Seq::new(all.len(), |i: int| hex_group(all[i]).unwrap());
    assert(a =~= h + Seq::new((8 - h.len() - t.len()) as nat, |i: int| 0u16) + t) by {
        assert forall|i: int| 0 <= i < 8 implies a[i] == (h + Seq::new(
            (8 - h.len() - t.len()) as nat,
            |i: int| 0u16,
        ) + t)[i] by {
            if i < head.len() {
                assert(all[i] == head[i]);
            } else if i < head.len() + zeros.len() {
                assert(all[i] == "0"@);
            } else {
                assert(all[i] == tail[i - head.len() - zeros.len()]);
            }
        }
    }
}

/// A text has no colon at either end, and no two side by side.
spec fn spaced_colons(s: Seq<char>) -> bool {
    &&& s.len() > 0
    &&& s[0] != ':'
    &&& s.last() != ':'
    &&& forall|i: int| 0 <= i < s.len() - 1 ==> !(#[trigger] s[i] == ':' && s[i + 1] == ':')
}

/// A text of hexadecimal digits and colons.
spec fn digits_and_colons(s: Seq<char>) -> bool {
    forall|i: int| 0 <= i < s.len() ==> #[trigger] s[i] == ':' || digit_value(s[i], 16) is Some
}

proof fn lemma_joined(list: Seq<Seq<char>>)
    requires
        are_groups(list),
    ensures
        digits_and_colons(colon_joined(list)),
        list.len() > 0 ==> spaced_colons(colon_joined(list)),
        list.len() > 0 ==> pieces(colon_joined(list), Delimiter::Exactly(':')) == list,
    decreases list.len(),
{
    let d = Delimiter::Exactly(':');
    if list.len() > 0 {
        let last = list.last();
        assert(hex_group(list[list.len() - 1]) is Some);
        assert forall|i: int| 0 <= i < last.len() implies #[trigger] last[i] != ':' && digit_value(
            last[i],
            16,
        ) is Some by {}
        assert forall|i: int| 0 <= i < last.len() implies !d.cuts(#[trigger] last[i]) by {}
        lemma_one_piece(last, d);
        if list.len() == 1 {
            assert(list =~= seq![last]);
        } else {
            let front = list.drop_last();
            assert(are_groups(front)) by {
                assert forall|i: int| 0 <= i < front.len() implies hex_group(
                    #[trigger] front[i],
                ) is Some by {
                    assert(hex_group(list[i]) is Some);
                }
            }
            lemma_joined(front);
            let j = colon_joined(front);
            lemma_pieces_join(j, ':', last, d);
            let s = j.push(':') + last;
            assert(front + seq![last] =~= list);
            assert forall|i: int| 0 <= i < s.len() implies #[trigger] s[i] == ':' || digit_value(
                s[i],
                16,
            ) is Some by {
                if i < j.len() {
                    assert(s[i] == j[i]);
                } else if i > j.len() {
                    assert(s[i] == last[i - j.len() - 1]);
                }
            }
            assert forall|i: int| 0 <= i < s.len() - 1 implies !(#[trigger] s[i] == ':' && s[i + 1]
                == ':') by {
                if i < j.len() - 1 {
                    assert(s[i] == j[i] && s[i + 1] == j[i + 1]);
                } else if i == j.len() - 1 {
                    assert(s[i] == j.last());
                } else if i == j.len() {
                    assert(s[i + 1] == last[0]);
                } else {
                    assert(s[i] == last[i - j.len() - 1]);
                }
            }
            assert(s.last() == last[last.len() - 1]);
            assert(s[0] == j[0]);
        }
    }
}

proof fn lemma_no_dots(s: Seq<char>, head: Seq<Seq<char>>, tail: Seq<Seq<char>>)
    requires
        s == colon_joined(head) + seq![':', ':'] + colon_joined(tail),
        digits_and_colons(colon_joined(head)),
        digits_and_colons(colon_joined(tail)),
    ensures
        digits_and_colons(s),
{
    let a = colon_joined(head);
    let b = colon_joined(tail);
    assert forall|i: int| 0 <= i < s.len() implies #[trigger] s[i] == ':' || digit_value(
        s[i],
        16,
    ) is Some by {
        if i < a.len() {
            assert(s[i] == a[i]);
        } else if i >= a.len() + 2 {
            assert(s[i] == b[i - a.len() - 2]);
        }
    }
}

proof fn lemma_not_v4(s: Seq<char>)
    requires
        digits_and_colons(s),
    ensures
        v4_octets(s) is None,
{
    assert forall|i: int| 0 <= i < s.len() implies !Delimiter::Exactly('.').cuts(
        #[trigger] s[i],
    ) by {}
    lemma_one_piece(s, Delimiter::Exactly('.'));
}

proof fn lemma_first_double_colon(head: Seq<Seq<char>>, tail: Seq<Seq<char>>)
    requires
        head.len() > 0 ==> spaced_colons(colon_joined(head)),
    ensures
        double_colon(colon_joined(head) + seq![':', ':'] + colon_joined(tail)) == colon_joined(
            head,
        ).len(),
{
    let a = colon_joined(head);
    let s = a + seq![':', ':'] + colon_joined(tail);
    lemma_no_double_before(s, a.len() as int);
}

proof fn lemma_no_double_before(s: Seq<char>, k: int)
    requires
        0 <= k <= s.len(),
        k < s.len() ==> k + 1 < s.len() && s[k] == ':' && s[k + 1] == ':',
        forall|i: int|
            0 <= i < k && i + 1 < s.len() ==> !(#[trigger] s[i] == ':' && s[i + 1] == ':'),
    ensures
        double_colon(s) == k,
    decreases k,
{
    if k > 0 && s.len() >= 2 {
        let rest = s.drop_first();
        assert(!(s[0] == ':' && s[0int + 1] == ':'));
        assert forall|i: int| 0 <= i < k - 1 && i + 1 < rest.len() implies !(#[trigger] rest[i]
            == ':' && rest[i + 1] == ':') by {
            assert(rest[i] == s[i + 1]);
            assert(rest[i + 1] == s[i + 2]);
        }
        lemma_no_double_before(rest, k - 1);
    }
}

proof fn lemma_run(list: Seq<Seq<char>>, at_end: bool)
    requires
        are_groups(list),
    ensures
        run_of_groups(colon_joined(list), at_end) == Some(
            Seq::new(list.len(), |i: int| hex_group(list[i]).unwrap()),
        ),
        list.len() > 0 ==> double_colon(colon_joined(list)) == colon_joined(list).len(),
{
    lemma_joined(list);
    let s = colon_joined(list);
    let values = Seq::new(list.len(), |i: int| hex_group(list[i]).unwrap());
    if list.len() == 0 {
        assert(values =~= Seq::empty());
    } else {
        lemma_no_double_before(s, s.len() as int);
        let last = list.last();
        assert(hex_group(list[list.len() - 1]) is Some);
        assert(digits_and_colons(last));
        lemma_not_v4(last);
        assert(hex_groups(list).unwrap() =~= values);
    }
}

// ---------------------------------------------------------------------------
// What holds of the notation of addresses
// ---------------------------------------------------------------------------

/// The digits of hexadecimal notation, in their order.
pub open spec fn hex_digits() -> Seq<char> {
    "0123456789abcdef"@
}

/// What a digit counts, in either case: its place among the digits.
pub proof fn law_digit_counts(c: char, d: int)
    ensures
        digit_value(c, 16) == Some(d as nat) && 0 <= d <==> 0 <= d < 16 && ascii_lower_char(c)
            == hex_digits()[d],
        digit_value(c, 10) == Some(d as nat) && 0 <= d <==> 0 <= d < 10 && c == hex_digits()[d],
{
    lemma_hex_digits();
}

proof fn lemma_hex_digits()
    ensures
        hex_digits() == seq![
            '0',
            '1',
            '2',
            '3',
            '4',
            '5',
            '6',
            '7',
            '8',
            '9',
            'a',
            'b',
            'c',
            'd',
            'e',
            'f',
        ],
{
    reveal_strlit("0123456789abcdef");
    assert(hex_digits() =~= seq![
        '0',
        '1',
        '2',
        '3',
        '4',
        '5',
        '6',
        '7',
        '8',
        '9',
        'a',
        'b',
        'c',
        'd',
        'e',
        'f',
    ]);
}

/// How digits make up a number: each that follows counts once, what stands
/// before it as many times more as there are digits.
pub proof fn law_digits_count(p: Seq<char>, c: char)
    ensures
        digits_value(Seq::empty(), 16) == 0,
        digits_value(Seq::empty(), 10) == 0,
        digit_value(c, 16) matches Some(d) ==> digits_value(p + seq![c], 16) == 16 * digits_value(
            p,
            16,
        ) + d,
        digit_value(c, 10) matches Some(d) ==> digits_value(p + seq![c], 10) == 10 * digits_value(
            p,
            10,
        ) + d,
{
    assert((p + seq![c]).drop_last() =~= p);
}

/// A MAC address as it is written: six octets of one or two hexadecimal digits
/// each, with a colon or a hyphen between each two. What is so written is read
/// octet by octet, and nothing else is a MAC address.
pub proof fn law_mac_parts(parts: Seq<Seq<char>>, sign: char)
    requires
        sign == ':' || sign == '-',
        parts.len() > 0,
        forall|i: int, j: int|
            0 <= i < parts.len() && 0 <= j < parts[i].len() ==> #[trigger] parts[i][j] != ':'
                && parts[i][j] != '-',
    ensures
        mac_octets(joined(parts, sign)) is Some <==> parts.len() == 6 && forall|i: int|
            0 <= i < 6 ==> 1 <= (#[trigger] parts[i]).len() <= 2 && hexadecimal(parts[i]),
        mac_octets(joined(parts, sign)) matches Some(o) ==> o.len() == 6 && forall|i: int|
            0 <= i < 6 ==> #[trigger] o[i] as nat == digits_value(parts[i], 16),
{
    let d = Delimiter::Octet;
    assert forall|i: int, j: int| 0 <= i < parts.len() && 0 <= j < parts[i].len() implies !d.cuts(
        #[trigger] parts[i][j],
    ) || (d == Delimiter::Exactly(sign) && !parts[i].contains(sign)) by {}
    lemma_pieces_joined(parts, sign, d);
    assert forall|i: int| 0 <= i < parts.len() implies (hex_octet(#[trigger] parts[i]) is Some <==> 1
        <= parts[i].len() <= 2 && hexadecimal(parts[i])) by {
        lemma_hexadecimal(parts[i]);
    }
    if mac_octets(joined(parts, sign)) is Some {
        let o = mac_octets(joined(parts, sign))->0;
        assert forall|i: int| 0 <= i < 6 implies #[trigger] o[i] as nat == digits_value(
            parts[i],
            16,
        ) by {
            assert(hex_octet(parts[i]) is Some);
            lemma_two_digits(parts[i]);
        }
    }
}

/// Every character is a hexadecimal digit, in either case.
pub open spec fn hexadecimal(p: Seq<char>) -> bool {
    forall|i: int|
        0 <= i < p.len() ==> '0' <= #[trigger] p[i] <= '9' || 'a' <= p[i] <= 'f' || 'A' <= p[i]
            <= 'F'
}

proof fn lemma_hexadecimal(p: Seq<char>)
    ensures
        hexadecimal(p) == all_digits(p, 16),
{
    if hexadecimal(p) {
        assert forall|i: int| 0 <= i < p.len() implies digit_value(
            #[trigger] p[i],
            16,
        ) is Some by {}
    }
    if all_digits(p, 16) {
        assert forall|i: int| 0 <= i < p.len() implies '0' <= #[trigger] p[i] <= '9' || 'a' <= p[i]
            <= 'f' || 'A' <= p[i] <= 'F' by {
            assert(digit_value(p[i], 16) is Some);
        }
    }
}

/// An octet in decimal notation is written in one way only, without leading
/// zeros.
pub proof fn law_decimal_octet(p: Seq<char>, v: u8)
    ensures
        decimal_octet(p) == Some(v) <==> p == decimal(v as nat),
{
    let n = v as nat;
    lemma_short_decimal(n);
    lemma_decimal(n);
    if decimal_octet(p) == Some(v) {
        assert(digit_value(p[0], 10) is Some);
        assert(digit_value(p.last(), 10) is Some) by {
            assert(p.last() == p[p.len() - 1]);
        }
        reveal_with_fuel(digits_value, 4);
        if p.len() == 1 {
            assert(p =~= decimal(n));
        } else if p.len() == 2 {
            assert(p.drop_last().last() == p[0]);
            assert(p =~= decimal(n));
        } else {
            assert(p.drop_last().last() == p[1]);
            assert(digit_value(p[1], 10) is Some);
            assert(p.drop_last().drop_last().last() == p[0]);
            assert(p =~= decimal(n));
        }
    }
}

proof fn lemma_short_decimal(n: nat)
    ensures
        n < 10 ==> decimal(n) == seq![digit_char(n)],
        10 <= n < 100 ==> decimal(n) == seq![digit_char(n / 10), digit_char(n % 10)],
        100 <= n < 1000 ==> decimal(n) == seq![
            digit_char(n / 100),
            digit_char(n / 10 % 10),
            digit_char(n % 10),
        ],
{
    reveal_with_fuel(decimal, 3);
    if 10 <= n < 100 {
        assert(decimal(n) =~= seq![digit_char(n / 10), digit_char(n % 10)]);
    }
    if 100 <= n < 1000 {
        assert(n / 10 / 10 == n / 100);
        assert(decimal(n) =~= seq![
            digit_char(n / 100),
            digit_char(n / 10 % 10),
            digit_char(n % 10),
        ]);
    }
}

/// An IPv4 address is written as four octets in decimal notation with a dot
/// between each two, in that one way, and every text of that kind is one.
pub proof fn law_v4_notation(s: Seq<char>, o: Seq<u8>)
    ensures
        ip_of(s) == Some(Ip::V4(o)) <==> o.len() == 4 && s == joined(
            seq![
                decimal(o[0] as nat),
                decimal(o[1] as nat),
                decimal(o[2] as nat),
                decimal(o[3] as nat),
            ],
            '.',
        ),
{
    let d = Delimiter::Exactly('.');
    let ps = pieces(s, d);
    law_joined(ps, s, '.');
    if o.len() == 4 {
        let parts = seq![
            decimal(o[0] as nat),
            decimal(o[1] as nat),
            decimal(o[2] as nat),
            decimal(o[3] as nat),
        ];
        assert forall|i: int| 0 <= i < 4 implies !(#[trigger] parts[i]).contains('.') by {
            lemma_no_dot(o[i] as nat);
        }
        law_joined(parts, s, '.');
        assert forall|i: int| 0 <= i < 4 && ps.len() == 4 implies (decimal_octet(#[trigger] ps[i])
            == Some(o[i]) <==> ps[i] == parts[i]) by {
            law_decimal_octet(ps[i], o[i]);
        }
        if s == joined(parts, '.') {
            assert(ps == parts);
            assert(v4_octets(s)->0 =~= o);
        }
        if ip_of(s) == Some(Ip::V4(o)) {
            assert forall|i: int| 0 <= i < 4 implies #[trigger] ps[i] == parts[i] by {
                assert(decimal_octet(ps[i]) == Some(o[i]));
            }
            assert(ps =~= parts);
        }
    }
}

proof fn lemma_no_dot(n: nat)
    ensures
        !decimal(n).contains('.'),
        !decimal(n).contains(':'),
{
    lemma_decimal(n);
    let s = decimal(n);
    assert forall|i: int| 0 <= i < s.len() implies s[i] != '.' && s[i] != ':' by {
        assert(digit_value(s[i], 10) is Some);
    }
}

/// A group of an IPv6 address is one to four hexadecimal digits, and counts
/// what they do.
pub proof fn law_hex_group(p: Seq<char>)
    ensures
        hex_group(p) is Some <==> 1 <= p.len() <= 4 && hexadecimal(p),
        hex_group(p) matches Some(g) ==> g as nat == digits_value(p, 16),
{
    lemma_hexadecimal(p);
    if hex_group(p) is Some {
        reveal_with_fuel(digits_value, 5);
        assert forall|i: int| 0 <= i < p.len() implies digit_value(#[trigger] p[i], 16)->0 < 16 by {
            assert(digit_value(p[i], 16) is Some);
        }
        assert(p.last() == p[p.len() - 1]);
        if p.len() >= 2 {
            assert(p.drop_last().last() == p[p.len() - 2]);
        }
        if p.len() >= 3 {
            assert(p.drop_last().drop_last().last() == p[p.len() - 3]);
        }
        if p.len() >= 4 {
            assert(p.drop_last().drop_last().drop_last().last() == p[p.len() - 4]);
        }
        assert(digits_value(p, 16) < 65536);
    }
}

/// Groups with a colon between each two, and no two colons side by side, are an
/// IPv6 address exactly where they are eight; it has them as they stand.
pub proof fn law_v6_in_full(groups: Seq<Seq<char>>)
    requires
        are_groups(groups),
        groups.len() > 0,
    ensures
        groups.len() != 8 ==> ip_of(colon_joined(groups)) is None,
        groups.len() == 8 ==> (ip_of(colon_joined(groups)) matches Some(Ip::V6(g)) && g.len() == 8
            && forall|i: int| 0 <= i < 8 ==> #[trigger] g[i] as nat == digits_value(groups[i], 16)),
{
    let s = colon_joined(groups);
    lemma_joined(groups);
    lemma_not_v4(s);
    lemma_run(groups, true);
    if groups.len() == 8 {
        let g = v6_groups(s)->0;
        assert forall|i: int| 0 <= i < 8 implies #[trigger] g[i] as nat == digits_value(
            groups[i],
            16,
        ) by {
            law_hex_group(groups[i]);
            assert(hex_group(groups[i]) is Some);
        }
    }
}

/// The last two groups of an IPv6 address may be written as an IPv4 address:
/// the first two octets make up the one, the last two the other.
pub proof fn law_v4_in_v6(groups: Seq<Seq<char>>, v4: Seq<char>, o: Seq<u8>)
    requires
        are_groups(groups),
        groups.len() == 6,
        ip_of(v4) == Some(Ip::V4(o)),
    ensures
        ip_of(colon_joined(groups).push(':') + v4) matches Some(Ip::V6(g)) && g.len() == 8 && (
        forall|i: int| 0 <= i < 6 ==> #[trigger] g[i] as nat == digits_value(groups[i], 16))
            && g[6] as nat == 256 * o[0] + o[1] && g[7] as nat == 256 * o[2] + o[3],
{
    let j = colon_joined(groups);
    let s = j.push(':') + v4;
    let d = Delimiter::Exactly(':');
    lemma_joined(groups);
    law_v4_notation(v4, o);
    assert forall|i: int| 0 <= i < v4.len() implies #[trigger] v4[i] != ':' by {
        lemma_no_colon_in_v4(v4, o);
    }
    assert forall|i: int| 0 <= i < v4.len() implies !d.cuts(#[trigger] v4[i]) by {}
    lemma_one_piece(v4, d);
    lemma_pieces_join(j, ':', v4, d);
    let ps = pieces(s, d);
    assert(ps =~= groups.push(v4));
    assert(ps.drop_last() =~= groups);
    assert(ps.last() == v4);
    lemma_no_double_in(j, v4);
    // It is no IPv4 address: its first dotted part holds a colon.
    assert(v4_octets(s) is None) by {
        if v4_octets(s) is Some {
            law_v4_notation(s, v4_octets(s)->0);
            lemma_no_colon_in_v4(s, v4_octets(s)->0);
            assert(s[j.len() as int] == ':');
        }
    }
    let front = Seq::new(groups.len(), |i: int| hex_group(groups[i]).unwrap());
    assert(hex_groups(groups)->0 =~= front);
    let g = front + embedded_groups(o);
    assert(run_of_groups(s, true) == Some(g));
    assert(g.len() == 8);
    assert forall|i: int| 0 <= i < 6 implies #[trigger] g[i] as nat == digits_value(
        groups[i],
        16,
    ) by {
        law_hex_group(groups[i]);
        assert(hex_group(groups[i]) is Some);
    }
}

proof fn lemma_no_colon_in_v4(s: Seq<char>, o: Seq<u8>)
    requires
        v4_octets(s) == Some(o),
    ensures
        forall|i: int| 0 <= i < s.len() ==> #[trigger] s[i] != ':',
        s.len() > 0,
{
    let d = Delimiter::Exactly('.');
    let ps = pieces(s, d);
    if s.contains(':') {
        lemma_char_in_piece(s, d, ':');
        let i = choose|i: int| 0 <= i < ps.len() && (#[trigger] ps[i]).contains(':');
        assert(decimal_octet(ps[i]) is Some);
        let k = choose|k: int| 0 <= k < ps[i].len() && ps[i][k] == ':';
        assert(digit_value(ps[i][k], 10) is Some);
    }
    assert forall|i: int| 0 <= i < s.len() implies #[trigger] s[i] != ':' by {
        assert(s.contains(s[i]));
    }
    if s.len() == 0 {
        assert(ps.len() == 1);
    }
}

proof fn lemma_no_double_in(j: Seq<char>, v4: Seq<char>)
    requires
        spaced_colons(j),
        v4.len() > 0,
        forall|i: int| 0 <= i < v4.len() ==> #[trigger] v4[i] != ':',
    ensures
        double_colon(j.push(':') + v4) == (j.push(':') + v4).len(),
{
    let s = j.push(':') + v4;
    assert forall|i: int| 0 <= i < s.len() && i + 1 < s.len() implies !(#[trigger] s[i] == ':'
        && s[i + 1] == ':') by {
        if i < j.len() - 1 {
            assert(s[i] == j[i] && s[i + 1] == j[i + 1]);
        } else if i == j.len() - 1 {
            assert(s[i] == j.last());
        } else {
            assert(s[i + 1] == v4[i + 1 - j.len() - 1]);
        }
    }
    lemma_no_double_before(s, s.len() as int);
}

/// A run of two colons stands for one group at least: with as many groups
/// around it as an address has, or more, it makes no address.
pub proof fn law_too_many_groups(head: Seq<Seq<char>>, tail: Seq<Seq<char>>)
    requires
        are_groups(head),
        are_groups(tail),
        head.len() + tail.len() > 7,
    ensures
        ip_of(colon_joined(head) + seq![':', ':'] + colon_joined(tail)) is None,
{
    let s = colon_joined(head) + seq![':', ':'] + colon_joined(tail);
    lemma_joined(head);
    lemma_joined(tail);
    lemma_no_dots(s, head, tail);
    lemma_not_v4(s);
    let k = colon_joined(head).len() as int;
    lemma_first_double_colon(head, tail);
    assert(s.take(k) =~= colon_joined(head));
    assert(s.skip(k + 2) =~= colon_joined(tail));
    lemma_run(head, false);
    lemma_run(tail, true);
}

/// Two colons stand side by side once at most in an address.
pub proof fn law_one_double_colon(head: Seq<Seq<char>>, between: Seq<char>, end: Seq<char>)
    requires
        are_groups(head),
    ensures
        v6_groups(colon_joined(head) + seq![':', ':'] + (between + seq![':', ':'] + end)) is None,
{
    let a = colon_joined(head);
    let b = between + seq![':', ':'] + end;
    let s = a + seq![':', ':'] + b;
    let d = Delimiter::Exactly(':');
    lemma_joined(head);
    lemma_no_double_before(s, a.len() as int);
    assert(s.skip(a.len() as int + 2) =~= b);
    let rest = seq![':'] + end;
    assert(b =~= between.push(':') + rest);
    lemma_pieces_join(between, ':', rest, d);
    assert(rest =~= Seq::<char>::empty().push(':') + end);
    lemma_pieces_join(Seq::empty(), ':', end, d);
    lemma_pieces_nonempty(end, d);
    let ps = pieces(b, d);
    let n = pieces(between, d).len() as int;
    assert(ps =~= pieces(between, d) + (seq![Seq::<char>::empty()] + pieces(end, d)));
    assert(ps[n].len() == 0);
    assert(hex_group(ps[n]) is None);
    assert(hex_groups(ps) is None);
    assert(ps.drop_last()[n] == ps[n]);
    assert(hex_groups(ps.drop_last()) is None);
}

} // verus!
