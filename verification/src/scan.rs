//! Looking for machines on a network: what is known of each, and how it comes
//! together.

use vstd::prelude::*;

use crate::address::Ip;
use crate::address::IpAddress;
use crate::address::ip_of;
use crate::address::parse_ip;
use crate::address::same_ip;
use crate::client::PharosResponse;
use crate::client::Response;
use crate::numbers::decimal;
use crate::numbers::decimal_text_of_u64;
use crate::text::Delimiter;
use crate::text::char_lists;
use crate::text::chars_of;
use crate::text::law_pieces;
use crate::text::lemma_pieces_nonempty;
use crate::text::pieces;
use crate::text::same_text;
use crate::text::split_pieces;
use crate::text::split_words;
use crate::text::text_of;
use crate::text::words;

verus! {

// ---------------------------------------------------------------------------
// The machine's table of neighbours
// ---------------------------------------------------------------------------

/// A line of the table: an IP address in its first column and a MAC address in
/// its fourth. A MAC address of zeros means that no answer has come.
pub open spec fn arp_entry(line: Seq<char>) -> Option<(Ip, Seq<char>)> {
    let columns = words(line);
    if columns.len() >= 4 && ip_of(columns[0]) is Some && columns[3] != "00:00:00:00:00:00"@ {
        Some((ip_of(columns[0])->0, columns[3]))
    } else {
        None
    }
}

/// The MAC addresses of IP addresses, from the lines of the table. Later lines
/// prevail.
pub open spec fn arp_map(lines: Seq<Seq<char>>) -> Map<Ip, Seq<char>>
    decreases lines.len(),
{
    if lines.len() == 0 {
        Map::empty()
    } else {
        let before = arp_map(lines.drop_last());
        match arp_entry(lines.last()) {
            Some((ip, mac)) => before.insert(ip, mac),
            None => before,
        }
    }
}

/// The MAC addresses of IP addresses, from the text of the table, whose first
/// line is a heading.
pub open spec fn arp_table(contents: Seq<char>) -> Map<Ip, Seq<char>> {
    arp_map(pieces(contents, Delimiter::Exactly('\n')).drop_first())
}

/// The map that a list of entries stands for; later entries prevail.
pub open spec fn entries_map(es: Seq<(IpAddress, String)>) -> Map<Ip, Seq<char>>
    decreases es.len(),
{
    if es.len() == 0 {
        Map::empty()
    } else {
        entries_map(es.drop_last()).insert(es.last().0@, es.last().1@)
    }
}

/// The MAC addresses that a machine knows of its neighbours.
#[derive(Debug)]
pub struct ArpCache {
    entries: Vec<(IpAddress, String)>,
}

impl View for ArpCache {
    type V = Map<Ip, Seq<char>>;

    closed spec fn view(&self) -> Map<Ip, Seq<char>> {
        entries_map(self.entries@)
    }
}

impl ArpCache {
    /// A table without entries.
    pub fn new() -> (c: Self)
        ensures
            c@ == Map::<Ip, Seq<char>>::empty(),
    {
        ArpCache { entries: Vec::new() }
    }

    /// The MAC address of an IP address.
    pub fn get(&self, ip: &IpAddress) -> (r: Option<String>)
        ensures
            match r {
                Some(mac) => self@.contains_key(ip@) && self@[ip@] == mac@,
                None => !self@.contains_key(ip@),
            },
    {
        let mut i: usize = self.entries.len();
        proof {
            assert(self.entries@.take(i as int) =~= self.entries@);
        }
        while i > 0
            invariant
                i <= self.entries@.len(),
                entries_map(self.entries@).contains_key(ip@) == entries_map(
                    self.entries@.take(i as int),
                ).contains_key(ip@),
                entries_map(self.entries@)[ip@] == entries_map(self.entries@.take(i as int))[ip@],
            decreases i,
        {
            proof {
                assert(self.entries@.take(i as int).drop_last() =~= self.entries@.take(i - 1));
                assert(self.entries@.take(i as int).last() == self.entries@[i - 1]);
            }
            if same_ip(&self.entries[i - 1].0, ip) {
                return Some(self.entries[i - 1].1.clone());
            }
            i = i - 1;
        }
        None
    }
}

fn read_arp_line(line: &[char]) -> (r: Option<(IpAddress, String)>)
    ensures
        match r {
            Some(e) => arp_entry(line@) == Some((e.0@, e.1@)),
            None => arp_entry(line@) is None,
        },
{
    let columns = split_words(line);
    if columns.len() < 4 {
        return None;
    }
    proof {
        assert(char_lists(columns@)[0] == columns@[0]@);
        assert(char_lists(columns@)[3] == columns@[3]@);
    }
    let address = text_of(columns[0].as_slice());
    let mac = text_of(columns[3].as_slice());
    match parse_ip(address.as_str()) {
        Some(ip) => {
            if same_text(mac.as_str(), "00:00:00:00:00:00") {
                None
            } else {
                Some((ip, mac))
            }
        },
        None => None,
    }
}

/// Reads the table of neighbours.
pub fn parse_arp_cache(contents: &str) -> (cache: ArpCache)
    ensures
        cache@ == arp_table(contents@),
{
    let cs = chars_of(contents);
    let lines = split_pieces(cs.as_slice(), Delimiter::Exactly('\n'));
    let ghost all = char_lists(lines@);
    let ghost rows = all.drop_first();
    let mut entries: Vec<(IpAddress, String)> = Vec::new();
    let mut i: usize = 1;
    proof {
        lemma_pieces_nonempty(contents@, Delimiter::Exactly('\n'));
        assert(entries_map(entries@) =~= arp_map(rows.take(0)));
    }
    while i < lines.len()
        invariant
            1 <= i <= lines@.len(),
            all == char_lists(lines@),
            rows == all.drop_first(),
            entries_map(entries@) == arp_map(rows.take(i - 1)),
        decreases lines.len() - i,
    {
        proof {
            assert(rows.take(i as int).drop_last() =~= rows.take(i - 1));
            assert(rows.take(i as int).last() == lines@[i as int]@);
        }
        match read_arp_line(lines[i].as_slice()) {
            Some(entry) => {
                let ghost before = entries@;
                entries.push(entry);
                proof {
                    assert(entries@.drop_last() =~= before);
                }
            },
            None => {},
        }
        i = i + 1;
    }
    proof {
        assert(rows.take(i - 1) =~= rows);
    }
    ArpCache { entries }
}

// ---------------------------------------------------------------------------
// Machines
// ---------------------------------------------------------------------------

/// A machine that was found.
#[derive(Debug)]
pub struct DiscoveredNode {
    pub ip: IpAddress,
    pub hostname: Option<String>,
    pub mac: Option<String>,
    pub manufacturer: Option<String>,
    pub ports: Vec<u16>,
    pub role: Option<String>,
    pub is_existing: bool,
}

/// A `DiscoveredNode` as a value of the specification.
pub struct Node {
    pub ip: Ip,
    pub hostname: Option<Seq<char>>,
    pub mac: Option<Seq<char>>,
    pub manufacturer: Option<Seq<char>>,
    pub ports: Seq<u16>,
    pub role: Option<Seq<char>>,
    pub is_existing: bool,
}

impl View for DiscoveredNode {
    type V = Node;

    open spec fn view(&self) -> Node {
        Node {
            ip: self.ip@,
            hostname: self.hostname.deep_view(),
            mac: self.mac.deep_view(),
            manufacturer: self.manufacturer.deep_view(),
            ports: self.ports@,
            role: self.role.deep_view(),
            is_existing: self.is_existing,
        }
    }
}

/// A machine of which only its address is known.
pub open spec fn bare_node(ip: Ip) -> Node {
    Node {
        ip,
        hostname: None,
        mac: None,
        manufacturer: None,
        ports: Seq::empty(),
        role: None,
        is_existing: false,
    }
}

/// The nodes taken by their views.
pub open spec fn node_views(nodes: Seq<DiscoveredNode>) -> Seq<Node> {
    nodes.map_values(|n: DiscoveredNode| n@)
}

/// The machines among probed addresses: those with an open port.
pub open spec fn live(probed: Seq<(IpAddress, Vec<u16>)>) -> Seq<Node>
    decreases probed.len(),
{
    if probed.len() == 0 {
        Seq::empty()
    } else {
        let before = live(probed.drop_last());
        let (ip, ports) = probed.last();
        if ports@.len() == 0 {
            before
        } else {
            before.push(Node { ports: ports@, ..bare_node(ip@) })
        }
    }
}

fn copy_ports(ports: &Vec<u16>) -> (r: Vec<u16>)
    ensures
        r@ == ports@,
{
    let mut r: Vec<u16> = Vec::new();
    let mut i: usize = 0;
    while i < ports.len()
        invariant
            i <= ports@.len(),
            r@ == ports@.take(i as int),
        decreases ports.len() - i,
    {
        r.push(ports[i]);
        i = i + 1;
        proof {
            assert(ports@.take(i as int) =~= ports@.take(i - 1).push(ports@[i - 1]));
        }
    }
    proof {
        assert(ports@.take(i as int) =~= ports@);
    }
    r
}

/// The machines among probed addresses, in the order in which the probes came
/// in.
pub fn live_nodes(probed: &Vec<(IpAddress, Vec<u16>)>) -> (nodes: Vec<DiscoveredNode>)
    ensures
        node_views(nodes@) == live(probed@),
{
    let mut nodes: Vec<DiscoveredNode> = Vec::new();
    let mut i: usize = 0;
    proof {
        assert(node_views(nodes@) =~= live(probed@.take(0)));
    }
    while i < probed.len()
        invariant
            i <= probed@.len(),
            node_views(nodes@) == live(probed@.take(i as int)),
        decreases probed.len() - i,
    {
        proof {
            assert(probed@.take(i + 1).drop_last() =~= probed@.take(i as int));
            assert(probed@.take(i + 1).last() == probed@[i as int]);
        }
        if probed[i].1.len() > 0 {
            let ghost before = node_views(nodes@);
            let node = DiscoveredNode {
                ip: probed[i].0,
                hostname: None,
                mac: None,
                manufacturer: None,
                ports: copy_ports(&probed[i].1),
                role: None,
                is_existing: false,
            };
            let ghost seen = node@;
            nodes.push(node);
            proof {
                assert(node_views(nodes@) =~= before.push(seen));
            }
        }
        i = i + 1;
    }
    proof {
        assert(probed@.take(i as int) =~= probed@);
    }
    nodes
}

/// The MAC address of an IP address, where the table has one.
pub open spec fn known_mac(cache: Map<Ip, Seq<char>>, ip: Ip) -> Option<Seq<char>> {
    if cache.contains_key(ip) {
        Some(cache[ip])
    } else {
        None
    }
}

/// A machine with all that could be found out about it. Whoever made it is
/// known only by its MAC address.
pub open spec fn enriched(
    n: Node,
    cache: Map<Ip, Seq<char>>,
    maker: Option<Seq<char>>,
    hostname: Option<Seq<char>>,
) -> Node {
    Node {
        mac: known_mac(cache, n.ip),
        manufacturer: if cache.contains_key(n.ip) {
            maker
        } else {
            n.manufacturer
        },
        hostname,
        ..n
    }
}

impl DiscoveredNode {
    /// A machine of which only its address and its name are known.
    pub fn named(ip: IpAddress, hostname: &str) -> (n: Self)
        ensures
            n@ == (Node { hostname: Some(hostname@), ..bare_node(ip@) }),
    {
        DiscoveredNode {
            ip,
            hostname: Some(hostname.to_string()),
            mac: None,
            manufacturer: None,
            ports: Vec::new(),
            role: None,
            is_existing: false,
        }
    }

    /// Takes note of what could be found out about the machine: its MAC
    /// address from the table, the maker that goes with it, and its name.
    pub fn enrich(
        &mut self,
        cache: &ArpCache,
        manufacturer: Option<String>,
        hostname: Option<String>,
    )
        ensures
            final(self)@ == enriched(
                old(self)@,
                cache@,
                manufacturer.deep_view(),
                hostname.deep_view(),
            ),
    {
        self.mac = cache.get(&self.ip);
        if self.mac.is_some() {
            self.manufacturer = manufacturer;
        }
        self.hostname = hostname;
    }

    /// Takes note of whether the directory knows the machine.
    pub fn note_existing(&mut self, response: &PharosResponse)
        ensures
            final(self)@ == (Node {
                is_existing: match response@ {
                    Response::Matches { count, records } => count > 0,
                    _ => old(self)@.is_existing,
                },
                ..old(self)@
            }),
    {
        if let PharosResponse::Matches { count, records: _ } = response {
            self.is_existing = *count > 0;
        }
    }
}

/// The query for the machine at an address.
pub fn existing_query(ip: &str) -> (q: String)
    ensures
        q@ == "ip="@ + ip@,
{
    let mut q = "ip=".to_string();
    q.append(ip);
    q
}

/// Where to connect to for a port of an address.
pub fn probe_target(ip: &str, port: u16) -> (t: String)
    ensures
        t@ == ip@ + ":"@ + decimal(port as nat),
{
    let mut t = ip.to_string();
    t.append(":");
    t.append(decimal_text_of_u64(port as u64).as_str());
    t
}

// ---------------------------------------------------------------------------
// Announcements
// ---------------------------------------------------------------------------

/// The position of the machine with an address, or the number of machines.
pub open spec fn position_of_ip(nodes: Seq<Node>, ip: Ip) -> int
    decreases nodes.len(),
{
    if nodes.len() == 0 {
        0
    } else if nodes[0].ip == ip {
        0
    } else {
        1 + position_of_ip(nodes.drop_first(), ip)
    }
}

/// The machines after one announced itself: it takes the place of what was
/// known at its address.
pub open spec fn announced(nodes: Seq<Node>, ip: Ip, name: Seq<char>) -> Seq<Node> {
    let node = Node { hostname: Some(name), ..bare_node(ip) };
    let i = position_of_ip(nodes, ip);
    if i < nodes.len() {
        nodes.update(i, node)
    } else {
        nodes.push(node)
    }
}

/// Takes note of a machine that announced itself.
pub fn note_announcement(nodes: &mut Vec<DiscoveredNode>, ip: IpAddress, name: &str)
    ensures
        node_views(final(nodes)@) == announced(node_views(old(nodes)@), ip@, name@),
{
    let ghost all = node_views(nodes@);
    let mut i: usize = 0;
    proof {
        assert(all.skip(0) =~= all);
    }
    while i < nodes.len()
        invariant
            i <= nodes@.len(),
            nodes@ == old(nodes)@,
            all == node_views(nodes@),
            position_of_ip(all, ip@) == i + position_of_ip(all.skip(i as int), ip@),
        decreases nodes.len() - i,
    {
        proof {
            assert(all.skip(i as int)[0] == nodes@[i as int]@);
            assert(all.skip(i as int).drop_first() =~= all.skip(i + 1));
        }
        if same_ip(&nodes[i].ip, &ip) {
            let node = DiscoveredNode::named(ip, name);
            let ghost seen = node@;
            nodes.set(i, node);
            proof {
                assert(node_views(nodes@) =~= all.update(i as int, seen));
            }
            return;
        }
        i = i + 1;
    }
    proof {
        assert(all.skip(i as int).len() == 0);
    }
    let node = DiscoveredNode::named(ip, name);
    let ghost seen = node@;
    nodes.push(node);
    proof {
        assert(node_views(nodes@) =~= all.push(seen));
    }
}

// ---------------------------------------------------------------------------
// The scanner
// ---------------------------------------------------------------------------

/// Whether announcements are still awaited, given how many milliseconds have
/// passed: they have five seconds to come.
pub fn keep_listening(elapsed_millis: u64) -> (b: bool)
    ensures
        b == (elapsed_millis < 5_000),
{
    elapsed_millis < 5_000
}

/// How to probe an address: how long to wait for an answer, and at which
/// ports.
#[derive(Debug)]
pub struct ScannerEngine {
    pub timeout_millis: u64,
    pub common_ports: Vec<u16>,
}

impl Default for ScannerEngine {
    fn default() -> (s: Self)
        ensures
            s.timeout_millis == 500,
            s.common_ports@ == seq![22u16, 80, 443, 8006, 32400],
    {
        ScannerEngine { timeout_millis: 500, common_ports: vec![22, 80, 443, 8006, 32400] }
    }
}

impl ScannerEngine {
    /// A scanner with the given patience and ports.
    pub fn new(timeout_millis: u64, common_ports: Vec<u16>) -> (s: Self)
        ensures
            s.timeout_millis == timeout_millis,
            s.common_ports == common_ports,
    {
        ScannerEngine { timeout_millis, common_ports }
    }
}

/// No machine is found at an address twice.
pub open spec fn distinct_addresses(nodes: Seq<Node>) -> bool {
    forall|i: int, j: int|
        0 <= i < j < nodes.len() ==> (#[trigger] nodes[i]).ip != (#[trigger] nodes[j]).ip
}

proof fn lemma_position_of_ip(nodes: Seq<Node>, ip: Ip)
    ensures
        0 <= position_of_ip(nodes, ip) <= nodes.len(),
        position_of_ip(nodes, ip) < nodes.len() ==> nodes[position_of_ip(nodes, ip)].ip == ip,
        forall|i: int| 0 <= i < position_of_ip(nodes, ip) ==> (#[trigger] nodes[i]).ip != ip,
    decreases nodes.len(),
{
    if nodes.len() > 0 && nodes[0].ip != ip {
        let rest = nodes.drop_first();
        lemma_position_of_ip(rest, ip);
        assert forall|i: int| 0 <= i < position_of_ip(nodes, ip) implies (
        #[trigger] nodes[i]).ip != ip by {
            if i > 0 {
                assert(rest[i - 1] == nodes[i]);
            }
        }
    }
}

/// However often machines announce themselves, each address is found once.
pub proof fn law_announcements_distinct(nodes: Seq<Node>, ip: Ip, name: Seq<char>)
    requires
        distinct_addresses(nodes),
    ensures
        distinct_addresses(announced(nodes, ip, name)),
{
    lemma_position_of_ip(nodes, ip);
    let after = announced(nodes, ip, name);
    let k = position_of_ip(nodes, ip);
    assert forall|i: int, j: int| 0 <= i < j < after.len() implies (#[trigger] after[i]).ip != (
    #[trigger] after[j]).ip by {
        if i < nodes.len() && j < nodes.len() {
            assert(nodes[i].ip != nodes[j].ip);
        }
        if k == nodes.len() && j == k {
            assert(nodes[i].ip != ip);
        }
    }
}

proof fn lemma_live(probed: Seq<(IpAddress, Vec<u16>)>)
    ensures
        forall|i: int|
            0 <= i < live(probed).len() ==> (#[trigger] live(probed)[i]).ports.len() > 0,
    decreases probed.len(),
{
    if probed.len() > 0 {
        lemma_live(probed.drop_last());
    }
}

/// Every machine that a scan reports has an open port.
pub proof fn law_live_nodes_have_ports(probed: Seq<(IpAddress, Vec<u16>)>, i: int)
    requires
        0 <= i < live(probed).len(),
    ensures
        live(probed)[i].ports.len() > 0,
{
    lemma_live(probed);
}

/// Which lines of the table of neighbours count: those with an address in the
/// first column and a hardware address in the fourth, other than the one of
/// noughts, which stands for none.
pub proof fn law_neighbour_line(line: Seq<char>)
    ensures
        arp_entry(line) is Some <==> words(line).len() >= 4 && ip_of(words(line)[0]) is Some
            && words(line)[3] != "00:00:00:00:00:00"@,
        arp_entry(line) matches Some((ip, mac)) ==> ip_of(words(line)[0]) == Some(ip) && mac
            == words(line)[3],
{
}

/// The table of neighbours: its first line is a heading, each line that counts
/// behind it gives an address its hardware address, and of two for one address
/// the later prevails.
pub proof fn law_neighbours(head: Seq<char>, text: Seq<char>, line: Seq<char>, ip: Ip)
    requires
        !head.contains('\n'),
        !line.contains('\n'),
    ensures
        arp_table(head) == Map::<Ip, Seq<char>>::empty(),
        ({
            let before = arp_table(head + seq!['\n'] + text);
            let after = arp_table(head + seq!['\n'] + text + seq!['\n'] + line);
            match arp_entry(line) {
                None => after == before,
                Some((at, mac)) => {
                    &&& after.contains_key(at) && after[at] == mac
                    &&& ip != at ==> after.contains_key(ip) == before.contains_key(ip) && after[ip]
                        == before[ip]
                },
            }
        }),
{
    let d = Delimiter::Exactly('\n');
    assert forall|i: int| 0 <= i < head.len() implies !d.cuts(#[trigger] head[i]) by {
        assert(head.contains(head[i]));
    }
    assert forall|i: int| 0 <= i < line.len() implies !d.cuts(#[trigger] line[i]) by {
        assert(line.contains(line[i]));
    }
    law_pieces(head, '\n', text, d);
    law_pieces(line, '\n', text, d);
    assert(seq![head].drop_first() =~= Seq::<Seq<char>>::empty());
    let short = head + seq!['\n'] + text;
    law_pieces(short, '\n', line, d);
    lemma_pieces_nonempty(text, d);
    assert((seq![head] + pieces(text, d)).drop_first() =~= pieces(text, d));
    assert((pieces(short, d) + seq![line]).drop_first() =~= pieces(text, d).push(line));
    assert(pieces(text, d).push(line).drop_last() =~= pieces(text, d));
}

/// A machine is found at each address where a port answered, with the ports
/// that did, in the order in which they were probed; of it nothing else is
/// known yet.
pub proof fn law_live_nodes(probed: Seq<(IpAddress, Vec<u16>)>, ip: IpAddress, ports: Vec<u16>)
    ensures
        live(Seq::empty()) == Seq::<Node>::empty(),
        ports@.len() == 0 ==> live(probed.push((ip, ports))) == live(probed),
        ports@.len() > 0 ==> {
            let found = live(probed.push((ip, ports)));
            let n = found.last();
            &&& found.len() == live(probed).len() + 1
            &&& found.drop_last() == live(probed)
            &&& n.ip == ip@ && n.ports == ports@
            &&& n.hostname is None && n.mac is None && n.manufacturer is None && n.role is None
                && !n.is_existing
        },
{
    assert(probed.push((ip, ports)).drop_last() =~= probed);
    if ports@.len() > 0 {
        assert(live(probed.push((ip, ports))).drop_last() =~= live(probed));
    }
}

/// What is found out about a machine: its name whatever came of looking it up,
/// its hardware address from the table, and the maker only where that is known.
/// Nothing else of it changes.
pub proof fn law_enriched(
    n: Node,
    cache: Map<Ip, Seq<char>>,
    maker: Option<Seq<char>>,
    hostname: Option<Seq<char>>,
)
    ensures
        ({
            let e = enriched(n, cache, maker, hostname);
            &&& e.hostname == hostname
            &&& e.ip == n.ip && e.ports == n.ports && e.role == n.role && e.is_existing
                == n.is_existing
            &&& cache.contains_key(n.ip) ==> e.mac == Some(cache[n.ip]) && e.manufacturer == maker
            &&& !cache.contains_key(n.ip) ==> e.mac is None && e.manufacturer == n.manufacturer
        }),
{
}

/// An announcement gives its address the name that it announces: the first
/// machine at that address is replaced, and where there is none, one is put
/// behind the others. No other machine changes.
pub proof fn law_announced(nodes: Seq<Node>, ip: Ip, name: Seq<char>, i: int)
    requires
        0 <= i < nodes.len() ==> forall|j: int| 0 <= j < i ==> (#[trigger] nodes[j]).ip != ip,
        0 <= i <= nodes.len(),
        i < nodes.len() ==> nodes[i].ip == ip,
        i == nodes.len() ==> forall|j: int| 0 <= j < nodes.len() ==> (#[trigger] nodes[j]).ip != ip,
    ensures
        ({
            let after = announced(nodes, ip, name);
            &&& after.len() == (if i < nodes.len() {
                nodes.len()
            } else {
                nodes.len() + 1
            })
            &&& after[i].ip == ip && after[i].hostname == Some(name)
            &&& after[i].mac is None && after[i].manufacturer is None && after[i].role is None
                && after[i].ports.len() == 0 && !after[i].is_existing
            &&& forall|j: int|
                0 <= j < nodes.len() && j != i ==> #[trigger] after[j] == nodes[j]
        }),
{
    lemma_position_of_ip(nodes, ip);
    let p = position_of_ip(nodes, ip);
    if p < i {
        assert(nodes[p].ip != ip);
    }
    if i < p {
        assert(nodes[i].ip != ip);
    }
}

} // verus!
