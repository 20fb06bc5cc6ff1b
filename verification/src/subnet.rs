//! Subnets, and the addresses of the hosts in them.

use vstd::prelude::*;

use vstd::arithmetic::div_mod::lemma_fundamental_div_mod;
use vstd::arithmetic::power2::lemma2_to64;
use vstd::arithmetic::power2::lemma_pow2_adds;
use vstd::arithmetic::power2::lemma_pow2_pos;
use vstd::arithmetic::power2::lemma_pow2_strictly_increases;
use vstd::arithmetic::power2::lemma_pow2_unfold;
use vstd::arithmetic::power2::pow2;

use crate::address::Ip;
use crate::address::IpAddress;

verus! {

/// An address, and how many of its leading bits are those of the subnet.
#[derive(Debug, Clone, Copy)]
pub struct Subnet {
    pub address: IpAddress,
    pub prefix: u8,
}

/// A `Subnet` as a value of the specification.
pub struct Net {
    pub address: Ip,
    pub prefix: nat,
}

impl View for Subnet {
    type V = Net;

    open spec fn view(&self) -> Net {
        Net { address: self.address@, prefix: self.prefix as nat }
    }
}

/// The number of bits of an address.
pub open spec fn bits(ip: Ip) -> nat {
    match ip {
        Ip::V4(_) => 32,
        Ip::V6(_) => 128,
    }
}

/// The number that octets write, the first one the most significant.
pub open spec fn octets_value(o: Seq<u8>) -> nat
    decreases o.len(),
{
    if o.len() == 0 {
        0
    } else {
        octets_value(o.drop_last()) * 256 + o.last() as nat
    }
}

/// The number that groups of sixteen bits write, the first one the most
/// significant.
pub open spec fn groups_value(g: Seq<u16>) -> nat
    decreases g.len(),
{
    if g.len() == 0 {
        0
    } else {
        groups_value(g.drop_last()) * 65536 + g.last() as nat
    }
}

/// A number as octets.
pub open spec fn octets_of(n: nat, len: nat) -> Seq<u8>
    decreases len,
{
    if len == 0 {
        Seq::empty()
    } else {
        octets_of(n / 256, (len - 1) as nat).push((n % 256) as u8)
    }
}

/// A number as groups of sixteen bits.
pub open spec fn groups_of(n: nat, len: nat) -> Seq<u16>
    decreases len,
{
    if len == 0 {
        Seq::empty()
    } else {
        groups_of(n / 65536, (len - 1) as nat).push((n % 65536) as u16)
    }
}

/// An address as a number.
pub open spec fn number_of(ip: Ip) -> nat {
    match ip {
        Ip::V4(o) => octets_value(o),
        Ip::V6(g) => groups_value(g),
    }
}

/// The address with a number, of the same version as another address.
pub open spec fn address_at(like: Ip, n: nat) -> Ip {
    match like {
        Ip::V4(_) => Ip::V4(octets_of(n, 4)),
        Ip::V6(_) => Ip::V6(groups_of(n, 8)),
    }
}

/// The number of addresses in a subnet.
pub open spec fn block(net: Net) -> nat {
    pow2((bits(net.address) - net.prefix) as nat)
}

/// The first address of a subnet, as a number.
pub open spec fn network(net: Net) -> nat {
    (number_of(net.address) - number_of(net.address) % block(net)) as nat
}

/// The first and the last address stand for the subnet itself and for all of
/// its hosts: so it is with IPv4, unless there are no others.
pub open spec fn reserves_ends(net: Net) -> bool {
    net.address is V4 && net.prefix < 31
}

/// The number of host addresses in a subnet.
pub open spec fn host_count(net: Net) -> nat {
    if reserves_ends(net) {
        (block(net) - 2) as nat
    } else {
        block(net)
    }
}

/// The host addresses of a subnet, in ascending order.
pub open spec fn hosts_of(net: Net) -> Seq<Ip> {
    let first = if reserves_ends(net) {
        network(net) + 1
    } else {
        network(net)
    };
    Seq::new(host_count(net), |i: int| address_at(net.address, (first + i) as nat))
}

/// The prefix is not longer than the address.
pub open spec fn sensible(net: Net) -> bool {
    net.prefix <= bits(net.address)
}

/// Addresses taken by their views.
pub open spec fn addresses(v: Seq<IpAddress>) -> Seq<Ip> {
    v.map_values(|a: IpAddress| a@)
}

/// What `ipnet::IpNet` reads from a text in CIDR notation.
pub uninterp spec fn cidr_subnet(s: Seq<char>) -> Option<Net>;

/// Reads a subnet in CIDR notation, with the `FromStr` of `ipnet::IpNet`.
///
/// The result depends on the text alone: an address and the length of a
/// prefix, which is not longer than the address.
#[verifier::external_body]
fn read_subnet(s: &str) -> (r: Option<Subnet>)
    ensures
        match r {
            Some(net) => cidr_subnet(s@) == Some(net@) && sensible(net@),
            None => cidr_subnet(s@) is None,
        },
{
    match s.parse::<ipnet::IpNet>() {
        Ok(ipnet::IpNet::V4(n)) => Some(
            Subnet { address: IpAddress::V4(n.addr().octets()), prefix: n.prefix_len() },
        ),
        Ok(ipnet::IpNet::V6(n)) => Some(
            Subnet { address: IpAddress::V6(n.addr().segments()), prefix: n.prefix_len() },
        ),
        Err(_) => None,
    }
}

/// There are more hosts than a list can hold, at up to thirty-two bytes each.
pub open spec fn too_many(net: Net) -> bool {
    host_count(net) * 32 > isize::MAX
}

/// Lists the hosts of a subnet, with the `hosts` of `ipnet::Ipv4Net` and
/// `ipnet::Ipv6Net`.
///
/// They come in ascending order. All addresses of the subnet are hosts, but for
/// the first and the last one in IPv4 with a prefix of less than 31 bits. More
/// of them than a list can hold would make it panic.
#[verifier::external_body]
fn list_hosts(subnet: &Subnet) -> (all: Vec<IpAddress>)
    requires
        sensible(subnet@),
        !too_many(subnet@),
    ensures
        addresses(all@) == hosts_of(subnet@),
{
    let net = match subnet.address {
        IpAddress::V4(o) => ipnet::IpNet::new(o.into(), subnet.prefix),
        IpAddress::V6(g) => ipnet::IpNet::new(g.into(), subnet.prefix),
    };
    match net {
        Ok(ipnet::IpNet::V4(n)) => n.hosts().map(|a| IpAddress::V4(a.octets())).collect(),
        Ok(ipnet::IpNet::V6(n)) => n.hosts().map(|a| IpAddress::V6(a.segments())).collect(),
        Err(_) => Vec::new(),
    }
}

/// Two to the power of a number below 64.
fn power(e: u32) -> (b: u64)
    requires
        e < 64,
    ensures
        b == pow2(e as nat),
        b > 0,
{
    let mut b: u64 = 1;
    let mut i: u32 = 0;
    proof {
        lemma2_to64();
    }
    while i < e
        invariant
            i <= e < 64,
            b == pow2(i as nat),
            b > 0,
            pow2(64) == 0x1_0000_0000_0000_0000,
        decreases e - i,
    {
        proof {
            lemma_pow2_strictly_increases((i + 1) as nat, 64);
            lemma_pow2_unfold((i + 1) as nat);
        }
        b = b * 2;
        i = i + 1;
    }
    b
}

impl Subnet {
    /// The host addresses, in ascending order; nothing where there are more
    /// than a list can hold.
    pub fn hosts(&self) -> (r: Option<Vec<IpAddress>>)
        requires
            sensible(self@),
        ensures
            match r {
                Some(all) => !too_many(self@) && addresses(all@) == hosts_of(self@),
                None => too_many(self@),
            },
    {
        let (width, reserved) = match &self.address {
            IpAddress::V4(_) => (32u32, self.prefix < 31),
            IpAddress::V6(_) => (128u32, false),
        };
        let e: u32 = width - self.prefix as u32;
        proof {
            lemma2_to64();
            lemma_ends(self@);
        }
        if e >= 64 {
            proof {
                if e > 64 {
                    lemma_pow2_strictly_increases(64, e as nat);
                }
            }
            return None;
        }
        let size: u64 = power(e);
        let count: u64 = if reserved {
            size - 2
        } else {
            size
        };
        if count > isize::MAX as u64 / 32 {
            return None;
        }
        Some(list_hosts(self))
    }
}

/// The message about a text that is no subnet.
pub open spec fn bad_subnet_message(s: Seq<char>) -> Seq<char> {
    "Invalid subnet '"@ + s + "' (expected CIDR notation, e.g. 192.168.1.0/24)"@
}

/// The addresses to look for hosts at in the subnet that a text names, or what
/// is wrong with the text; nothing where there are more addresses than a list
/// can hold.
pub fn scan_targets(subnet: &str) -> (r: Result<Option<Vec<IpAddress>>, String>)
    ensures
        match (cidr_subnet(subnet@), r) {
            (None, Err(m)) => m@ == bad_subnet_message(subnet@),
            (Some(net), Ok(Some(all))) => !too_many(net) && addresses(all@) == hosts_of(net),
            (Some(net), Ok(None)) => too_many(net),
            _ => false,
        },
{
    match read_subnet(subnet) {
        Some(net) => Ok(net.hosts()),
        None => {
            let mut m = "Invalid subnet '".to_string();
            m.append(subnet);
            m.append("' (expected CIDR notation, e.g. 192.168.1.0/24)");
            Err(m)
        },
    }
}

// ---------------------------------------------------------------------------
// What holds of subnets
// ---------------------------------------------------------------------------

/// An address with as many parts as its version has.
pub open spec fn complete(ip: Ip) -> bool {
    match ip {
        Ip::V4(o) => o.len() == 4,
        Ip::V6(g) => g.len() == 8,
    }
}

/// A block of addresses that begins at a multiple of its size ends where the
/// addresses do, or before.
proof fn lemma_block_fits(number: nat, e: nat, width: nat)
    requires
        number < pow2(width),
        e <= width,
    ensures
        pow2(e) > 0,
        number % pow2(e) <= number,
        number - number % pow2(e) + pow2(e) <= pow2(width),
{
    let size = pow2(e) as int;
    let n = number as int;
    let many = pow2((width - e) as nat) as int;
    lemma_pow2_pos(e);
    lemma_pow2_adds(e, (width - e) as nat);
    assert(size * many == pow2(width));
    lemma_fundamental_div_mod(n, size);
    let q = n / size;
    let r = n % size;
    assert(0 <= r < size) by (nonlinear_arith)
        requires
            r == n % size,
            size > 0,
    ;
    assert(0 <= q) by (nonlinear_arith)
        requires
            q == n / size,
            size > 0,
            n >= 0,
    ;
    assert(q < many) by (nonlinear_arith)
        requires
            n == size * q + r,
            r >= 0,
            n < size * many,
            size > 0,
    ;
    assert(size * q + size <= size * many) by (nonlinear_arith)
        requires
            q < many,
            size > 0,
    ;
    assert(size * q >= 0) by (nonlinear_arith)
        requires
            q >= 0,
            size > 0,
    ;
}

proof fn lemma_octets(n: nat, len: nat)
    requires
        n < pow2(8 * len),
    ensures
        octets_of(n, len).len() == len,
        octets_value(octets_of(n, len)) == n,
    decreases len,
{
    lemma2_to64();
    if len > 0 {
        lemma_pow2_adds((8 * (len - 1)) as nat, 8);
        assert(8 * len == 8 * (len - 1) + 8);
        lemma_octets(n / 256, (len - 1) as nat);
        let all = octets_of(n, len);
        assert(all.drop_last() =~= octets_of(n / 256, (len - 1) as nat));
        assert(all.last() == (n % 256) as u8);
    }
}

proof fn lemma_groups(n: nat, len: nat)
    requires
        n < pow2(16 * len),
    ensures
        groups_of(n, len).len() == len,
        groups_value(groups_of(n, len)) == n,
    decreases len,
{
    lemma2_to64();
    if len > 0 {
        lemma_pow2_adds((16 * (len - 1)) as nat, 16);
        assert(16 * len == 16 * (len - 1) + 16);
        lemma_groups(n / 65536, (len - 1) as nat);
        let all = groups_of(n, len);
        assert(all.drop_last() =~= groups_of(n / 65536, (len - 1) as nat));
        assert(all.last() == (n % 65536) as u16);
    }
}

proof fn lemma_octets_below(o: Seq<u8>)
    ensures
        octets_value(o) < pow2(8 * o.len()),
    decreases o.len(),
{
    lemma2_to64();
    if o.len() > 0 {
        lemma_octets_below(o.drop_last());
        lemma_pow2_adds((8 * (o.len() - 1)) as nat, 8);
        assert(8 * o.len() == 8 * (o.len() - 1) + 8);
    }
}

proof fn lemma_groups_below(g: Seq<u16>)
    ensures
        groups_value(g) < pow2(16 * g.len()),
    decreases g.len(),
{
    lemma2_to64();
    if g.len() > 0 {
        lemma_groups_below(g.drop_last());
        lemma_pow2_adds((16 * (g.len() - 1)) as nat, 16);
        assert(16 * g.len() == 16 * (g.len() - 1) + 16);
    }
}

/// The hosts of a subnet are in it: each has the number that follows that of
/// the one before it, and all of them are among the addresses that the prefix
/// covers.
pub proof fn law_hosts_in_subnet(net: Net, i: int)
    requires
        complete(net.address),
        sensible(net),
        0 <= i < hosts_of(net).len(),
    ensures
        complete(hosts_of(net)[i]),
        network(net) <= number_of(hosts_of(net)[i]) < network(net) + block(net),
        i > 0 ==> number_of(hosts_of(net)[i]) == number_of(hosts_of(net)[i - 1]) + 1,
        reserves_ends(net) ==> network(net) < number_of(hosts_of(net)[i]) < network(net) + block(
            net,
        ) - 1,
{
    lemma_ends(net);
    lemma_host_number(net, i);
    if i > 0 {
        lemma_host_number(net, i - 1);
    }
}

proof fn lemma_ends(net: Net)
    requires
        sensible(net),
    ensures
        reserves_ends(net) ==> block(net) > 2,
{
    lemma2_to64();
    if reserves_ends(net) {
        lemma_pow2_strictly_increases(1, (32 - net.prefix) as nat);
    }
}

proof fn lemma_host_number(net: Net, i: int)
    requires
        complete(net.address),
        sensible(net),
        0 <= i < hosts_of(net).len(),
    ensures
        complete(hosts_of(net)[i]),
        number_of(hosts_of(net)[i]) == network(net) + i + (if reserves_ends(net) {
            1int
        } else {
            0int
        }),
{
    let width = bits(net.address);
    let e = (width - net.prefix) as nat;
    match net.address {
        Ip::V4(o) => {
            lemma_octets_below(o);
        },
        Ip::V6(g) => {
            lemma_groups_below(g);
        },
    }
    lemma_ends(net);
    lemma_block_fits(number_of(net.address), e, width);
    let n = (network(net) + i + (if reserves_ends(net) {
        1int
    } else {
        0int
    })) as nat;
    assert(n < pow2(width));
    match net.address {
        Ip::V4(o) => {
            lemma_octets(n, 4);
        },
        Ip::V6(g) => {
            lemma_groups(n, 8);
        },
    }
}

/// The number of an address: its octets, or its groups, as the digits of a
/// number, the first the most significant. An address is the one of its
/// number.
pub proof fn law_number_of_address(a: u8, b: u8, c: u8, d: u8, g: Seq<u16>, last: u16)
    ensures
        number_of(Ip::V4(seq![a, b, c, d])) == 0x100_0000 * a + 0x1_0000 * b + 0x100 * c + d,
        number_of(Ip::V6(Seq::empty())) == 0,
        number_of(Ip::V6(g.push(last))) == 0x1_0000 * number_of(Ip::V6(g)) + last,
{
    reveal_with_fuel(octets_value, 5);
    let o = seq![a, b, c, d];
    assert(o.drop_last() =~= seq![a, b, c]);
    assert(o.drop_last().drop_last() =~= seq![a, b]);
    assert(o.drop_last().drop_last().drop_last() =~= seq![a]);
    assert(o.drop_last().drop_last().drop_last().drop_last() =~= Seq::<u8>::empty());
    assert(g.push(last).drop_last() =~= g);
}

/// Two addresses of one version with one number are one address.
pub proof fn law_numbers_tell_addresses_apart(a: Ip, b: Ip)
    requires
        complete(a),
        complete(b),
        a is V4 <==> b is V4,
        number_of(a) == number_of(b),
    ensures
        a == b,
{
    match (a, b) {
        (Ip::V4(o), Ip::V4(p)) => {
            lemma_same_octets(o, p);
        },
        (Ip::V6(g), Ip::V6(h)) => {
            lemma_same_groups(g, h);
        },
        _ => {},
    }
}

proof fn lemma_same_octets(o: Seq<u8>, p: Seq<u8>)
    requires
        o.len() == p.len(),
        octets_value(o) == octets_value(p),
    ensures
        o == p,
    decreases o.len(),
{
    if o.len() > 0 {
        lemma_same_octets(o.drop_last(), p.drop_last());
        assert(o.drop_last().push(o.last()) =~= o);
        assert(p.drop_last().push(p.last()) =~= p);
    } else {
        assert(o =~= p);
    }
}

proof fn lemma_same_groups(g: Seq<u16>, h: Seq<u16>)
    requires
        g.len() == h.len(),
        groups_value(g) == groups_value(h),
    ensures
        g == h,
    decreases g.len(),
{
    if g.len() > 0 {
        lemma_same_groups(g.drop_last(), h.drop_last());
        assert(g.drop_last().push(g.last()) =~= g);
        assert(h.drop_last().push(h.last()) =~= h);
    } else {
        assert(g =~= h);
    }
}

/// How many hosts a subnet has: as many as the bits that the prefix leaves can
/// count, but for the first and the last of an IPv4 subnet that has more than
/// two addresses.
pub proof fn law_host_count(net: Net)
    requires
        sensible(net),
    ensures
        net.address is V4 && net.prefix <= 30 ==> hosts_of(net).len() + 2 == pow2(
            (32 - net.prefix) as nat,
        ),
        net.address is V4 && net.prefix > 30 ==> hosts_of(net).len() == pow2(
            (32 - net.prefix) as nat,
        ),
        net.address is V6 ==> hosts_of(net).len() == pow2((128 - net.prefix) as nat),
{
    lemma_ends(net);
}

/// The hosts of a subnet are of the version of its address. They are the
/// addresses whose number, divided by the size of the subnet, gives what that
/// of its own address does; the first and the last of these are left out where
/// an IPv4 subnet has more than two.
pub proof fn law_hosts_share_the_prefix(net: Net, i: int)
    requires
        complete(net.address),
        sensible(net),
        0 <= i < hosts_of(net).len(),
    ensures
        ({
            let size = pow2(
                ((if net.address is V4 {
                    32int
                } else {
                    128int
                }) - net.prefix) as nat,
            );
            let own = number_of(net.address);
            let first = if net.address is V4 && net.prefix <= 30 {
                1int
            } else {
                0int
            };
            &&& hosts_of(net)[i] is V4 <==> net.address is V4
            &&& number_of(hosts_of(net)[i]) == own - own % size + first + i
        }),
{
    lemma_host_number(net, i);
    match net.address {
        Ip::V4(o) => {
            lemma_octets_below(o);
        },
        Ip::V6(g) => {
            lemma_groups_below(g);
        },
    }
    lemma_block_fits(
        number_of(net.address),
        (bits(net.address) - net.prefix) as nat,
        bits(net.address),
    );
}

/// A subnet is turned down only where its hosts would not fit in a list, and a
/// text that is no subnet is repeated in what is said of it.
pub proof fn law_turned_down(net: Net, s: Seq<char>)
    ensures
        too_many(net) <==> hosts_of(net).len() * 32 > isize::MAX,
        bad_subnet_message(s) == "Invalid subnet '"@ + s
            + "' (expected CIDR notation, e.g. 192.168.1.0/24)"@,
{
}

} // verus!
