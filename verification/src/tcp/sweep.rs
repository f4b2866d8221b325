//! The linear sweep: every host of every subnet on every port, in order,
//! handed out in batches, skipping the priority endpoints probed before.

use vstd::prelude::*;
use vstd::bytes::{spec_u128_from_le_bytes, spec_u128_to_le_bytes, u128_from_le_bytes, u128_to_le_bytes};
use crate::net::ipv4::{ipv4_u32, octets_to_u32, u32_octets, u32_to_octets};
use crate::tcp::scan::{Endpoint, HostAddr, endpoint_key, endpoint_keys, has_endpoint};
use crate::tcp::subnet::{IpNetwork, block_size, ip_network_wf, lemma_block_128, lemma_block_32, lemma_block_floor, lemma_block_size_grows, lemma_block_size_positive};

verus! {

/// Address bits of the network's family.
pub open spec fn net_bits(n: IpNetwork) -> nat {
    match n {
        IpNetwork::V4 { .. } => 32,
        IpNetwork::V6 { .. } => 128,
    }
}

/// Prefix length of the network.
pub open spec fn net_prefix(n: IpNetwork) -> nat {
    match n {
        IpNetwork::V4 { prefix, .. } => prefix as nat,
        IpNetwork::V6 { prefix6, .. } => prefix6 as nat,
    }
}

/// The network's address as a number (big-endian octets).
pub open spec fn net_number(n: IpNetwork) -> nat {
    match n {
        IpNetwork::V4 { addr, .. } => ipv4_u32(addr@),
        IpNetwork::V6 { addr6, .. } => spec_u128_from_le_bytes(addr6@.reverse()) as nat,
    }
}

/// How many addresses the network spans.
pub open spec fn net_block(n: IpNetwork) -> nat {
    block_size((net_bits(n) - net_prefix(n)) as nat)
}

/// The network's first address.
pub open spec fn net_base(n: IpNetwork) -> nat {
    (net_number(n) - net_number(n) % net_block(n)) as nat
}

/// Whether the network drops its first and last address (the network and
/// broadcast addresses of an IPv4 network wider than /31).
pub open spec fn drops_ends(n: IpNetwork) -> bool {
    n is V4 && net_prefix(n) < 31
}

/// The first host of the network.
pub open spec fn first_host(n: IpNetwork) -> nat {
    if drops_ends(n) {
        net_base(n) + 1
    } else {
        net_base(n)
    }
}

/// The last host of the network.
pub open spec fn last_host(n: IpNetwork) -> nat {
    let last = (net_base(n) + net_block(n) - 1) as nat;
    if drops_ends(n) {
        (last - 1) as nat
    } else {
        last
    }
}

/// The octets of host number `h` in the network's family.
pub open spec fn host_octets(n: IpNetwork, h: nat) -> Seq<u8> {
    match n {
        IpNetwork::V4 { .. } => u32_octets(h as u32),
        IpNetwork::V6 { .. } => spec_u128_to_le_bytes(h as u128).reverse(),
    }
}

/// A position in the sweep: a network, a host of it, a port.
#[derive(Debug, Clone, Copy)]
pub struct SweepCursor {
    pub net: usize,
    pub host: u128,
    pub port: usize,
}

/// Whether every network's prefix fits its family.
pub open spec fn nets_wf(nets: Seq<IpNetwork>) -> bool {
    forall|i: int| 0 <= i < nets.len() ==> ip_network_wf(#[trigger] nets[i])
}

/// Whether the cursor is at the end of the sweep.
pub open spec fn sweep_done(nets: Seq<IpNetwork>, c: SweepCursor) -> bool {
    c.net >= nets.len()
}

/// Whether the cursor points at an endpoint of the sweep or at its end.
pub open spec fn cursor_ok(nets: Seq<IpNetwork>, ports: Seq<u16>, c: SweepCursor) -> bool {
    &&& nets_wf(nets)
    &&& ports.len() > 0
    &&& c.net <= nets.len()
    &&& c.net < nets.len() ==> (first_host(nets[c.net as int]) <= c.host <= last_host(
        nets[c.net as int],
    ) && c.port < ports.len())
}

/// The endpoint under the cursor.
pub open spec fn key_at(nets: Seq<IpNetwork>, ports: Seq<u16>, c: SweepCursor) -> (bool, Seq<u8>, u32, u16) {
    let n = nets[c.net as int];
    (n is V4, host_octets(n, c.host as nat), 0u32, ports[c.port as int])
}

/// The start of the sweep: the first port of the first host of the first
/// network.
pub open spec fn sweep_start(nets: Seq<IpNetwork>) -> SweepCursor {
    if nets.len() == 0 {
        SweepCursor { net: 0, host: 0, port: 0 }
    } else {
        SweepCursor { net: 0, host: first_host(nets[0]) as u128, port: 0 }
    }
}

/// The position after the cursor: the next port, else the next host on the
/// first port, else the first host of the next network, else the end.
pub open spec fn advance(nets: Seq<IpNetwork>, ports: Seq<u16>, c: SweepCursor) -> SweepCursor {
    if c.port + 1 < ports.len() {
        SweepCursor { port: (c.port + 1) as usize, ..c }
    } else if c.host < last_host(nets[c.net as int]) {
        SweepCursor { host: (c.host + 1) as u128, port: 0, ..c }
    } else if c.net + 1 < nets.len() {
        SweepCursor { net: (c.net + 1) as usize, host: first_host(nets[c.net + 1]) as u128, port: 0 }
    } else {
        SweepCursor { net: nets.len() as usize, host: 0, port: 0 }
    }
}

/// The next `n` endpoints of the sweep from the cursor that `excluded` does
/// not list (fewer when the sweep ends first), and where the cursor stops.
pub open spec fn sweep_batch(
    nets: Seq<IpNetwork>,
    ports: Seq<u16>,
    excluded: Seq<(bool, Seq<u8>, u32, u16)>,
    c: SweepCursor,
    n: nat,
) -> (Seq<(bool, Seq<u8>, u32, u16)>, SweepCursor)
    decreases nets.len() - c.net, last_host(nets[c.net as int]) - c.host, ports.len() - c.port,
{
    if n == 0 || !cursor_ok(nets, ports, c) || sweep_done(nets, c) || nets.len() > usize::MAX
        || ports.len() > usize::MAX {
        (Seq::empty(), c)
    } else {
        proof {
            lemma_advance_decreases(nets, ports, c);
        }
        let k = key_at(nets, ports, c);
        let next = advance(nets, ports, c);
        if excluded.contains(k) {
            sweep_batch(nets, ports, excluded, next, n)
        } else {
            let rest = sweep_batch(nets, ports, excluded, next, (n - 1) as nat);
            (seq![k] + rest.0, rest.1)
        }
    }
}

/// Each step of the sweep moves forward: to a later port, a later host,
/// or a later network.
pub proof fn lemma_advance_decreases(nets: Seq<IpNetwork>, ports: Seq<u16>, c: SweepCursor)
    requires
        cursor_ok(nets, ports, c),
        !sweep_done(nets, c),
        nets.len() <= usize::MAX,
        ports.len() <= usize::MAX,
    ensures
        ({
            let nx = advance(nets, ports, c);
            decreases_to!(nets.len() - c.net, last_host(nets[c.net as int]) - c.host, ports.len() - c.port
                => nets.len() - nx.net, last_host(nets[nx.net as int]) - nx.host, ports.len() - nx.port)
        }),
{
    lemma_host_range(nets[c.net as int]);
    let nx = advance(nets, ports, c);
    if c.port + 1 < ports.len() {
        assert(nx.net == c.net && nx.host == c.host && nx.port == c.port + 1);
    } else if c.host < last_host(nets[c.net as int]) {
        assert(nx.net == c.net && nx.host == c.host + 1);
    } else if c.net + 1 < nets.len() {
        assert(nx.net == c.net + 1);
    } else {
        assert(nx.net == nets.len());
    }
}

/// Every host number of a network fits its family, and its first host
/// comes no later than its last.
pub proof fn lemma_host_range(n: IpNetwork)
    requires
        ip_network_wf(n),
    ensures
        first_host(n) <= last_host(n),
        last_host(n) < block_size(net_bits(n)),
        net_base(n) + net_block(n) <= block_size(net_bits(n)),
        net_block(n) >= 1,
        drops_ends(n) ==> net_block(n) >= 4,
        block_size(net_bits(n)) <= 0x1_0000_0000_0000_0000_0000_0000_0000_0000,
{
    let k = (net_bits(n) - net_prefix(n)) as nat;
    lemma_block_128();
    if n is V4 {
        lemma_block_size_grows(32, 128);
    }
    lemma_net_number_fits(n);
    lemma_block_floor(net_number(n), k, net_bits(n));
    if drops_ends(n) {
        assert(block_size(2) == 4) by {
            reveal_with_fuel(block_size, 3);
        }
        if k > 2 {
            lemma_block_size_grows(2, k);
        }
    }
}

/// The network's address number fits its family.
pub proof fn lemma_net_number_fits(n: IpNetwork)
    ensures
        net_number(n) < block_size(net_bits(n)),
{
    match n {
        IpNetwork::V4 { addr, .. } => {
            lemma_block_32();
        },
        IpNetwork::V6 { .. } => {
            lemma_block_128();
        },
    }
}

/// `2^k` as a 128-bit number, for `k < 128`.
fn block_u128(k: u8) -> (r: u128)
    requires
        k < 128,
    ensures
        r == block_size(k as nat),
{
    let mut r: u128 = 1;
    let mut i: u8 = 0;
    proof {
        lemma_block_size_grows(0, 128);
    }
    while i < k
        invariant
            i <= k < 128,
            r == block_size(i as nat),
        decreases k - i,
    {
        proof {
            lemma_block_size_grows((i + 1) as nat, 128);
            lemma_block_128();
        }
        r = r * 2;
        i = i + 1;
    }
    r
}

/// The network's address as a number.
fn net_number_exec(n: &IpNetwork) -> (r: u128)
    ensures
        r == net_number(*n),
{
    match n {
        IpNetwork::V4 { addr, .. } => octets_to_u32(*addr) as u128,
        IpNetwork::V6 { addr6, .. } => {
            let mut le: Vec<u8> = Vec::new();
            let mut i: usize = 16;
            while i > 0
                invariant
                    i <= 16,
                    le@ == addr6@.reverse().take(16 - i),
                decreases i,
            {
                le.push(addr6[i - 1]);
                assert(addr6@.reverse().take(16 - i + 1) =~= addr6@.reverse().take(16 - i).push(
                    addr6@[i - 1],
                ));
                i = i - 1;
            }
            assert(addr6@.reverse().take(16) =~= addr6@.reverse());
            u128_from_le_bytes(le.as_slice())
        },
    }
}

/// The first and last host of a network.
pub fn host_range(n: &IpNetwork) -> (r: (u128, u128))
    requires
        ip_network_wf(*n),
    ensures
        r.0 == first_host(*n),
        r.1 == last_host(*n),
{
    proof {
        lemma_host_range(*n);
    }
    let num = net_number_exec(n);
    let (bits, prefix): (u8, u8) = match n {
        IpNetwork::V4 { prefix, .. } => (32, *prefix),
        IpNetwork::V6 { prefix6, .. } => (128, *prefix6),
    };
    let k: u8 = bits - prefix;
    let (base, last) = if k == 128 {
        proof {
            assert(net_block(*n) == block_size(128));
            lemma_block_128();
            lemma_net_number_fits(*n);
            assert(net_number(*n) % net_block(*n) == net_number(*n)) by (nonlinear_arith)
                requires
                    net_number(*n) < net_block(*n),
            ;
        }
        (0u128, u128::MAX)
    } else {
        let b = block_u128(k);
        let m = num % b;
        proof {
            assert(m <= num) by (nonlinear_arith)
                requires
                    m == num % b,
                    b >= 1,
            ;
        }
        let base = num - m;
        proof {
            lemma_block_size_grows(k as nat, 128);
            lemma_block_128();
            assert(base + b <= block_size(net_bits(*n)));
        }
        (base, base + (b - 1))
    };
    if prefix < 31 && bits == 32 {
        (base + 1, last - 1)
    } else {
        (base, last)
    }
}

/// The endpoint of host number `h` of a network on `port`.
fn host_endpoint(n: &IpNetwork, h: u128, port: u16) -> (e: Endpoint)
    requires
        h < block_size(net_bits(*n)),
    ensures
        endpoint_key(e) == (n is V4, host_octets(*n, h as nat), 0u32, port),
{
    match n {
        IpNetwork::V4 { .. } => {
            proof {
                lemma_block_32();
            }
            Endpoint { host: HostAddr::V4(u32_to_octets(h as u32)), port }
        },
        IpNetwork::V6 { .. } => {
            let le = u128_to_le_bytes(h);
            let mut a: [u8; 16] = [0; 16];
            let mut i: usize = 0;
            while i < 16
                invariant
                    i <= 16,
                    le@.len() == 16,
                    forall|j: int| 0 <= j < i ==> a@[j] == le@[15 - j],
                decreases 16 - i,
            {
                a[i] = le[15 - i];
                i = i + 1;
            }
            assert(a@ =~= le@.reverse());
            Endpoint { host: HostAddr::V6(a, 0), port }
        },
    }
}

impl SweepCursor {
    /// A cursor at the start of the sweep.
    pub fn start(nets: &[IpNetwork], ports: &[u16]) -> (c: SweepCursor)
        requires
            nets_wf(nets@),
            ports@.len() > 0,
        ensures
            c == sweep_start(nets@),
            cursor_ok(nets@, ports@, c),
    {
        if nets.len() == 0 {
            SweepCursor { net: 0, host: 0, port: 0 }
        } else {
            proof {
                lemma_host_range(nets@[0]);
            }
            let (first, _) = host_range(&nets[0]);
            SweepCursor { net: 0, host: first, port: 0 }
        }
    }

    /// Whether the sweep is over.
    pub fn is_done(&self, nets: &[IpNetwork]) -> (r: bool)
        ensures
            r == sweep_done(nets@, *self),
    {
        self.net >= nets.len()
    }

    /// Moves to the next position.
    fn step(&mut self, nets: &[IpNetwork], ports: &[u16])
        requires
            cursor_ok(nets@, ports@, *old(self)),
            !sweep_done(nets@, *old(self)),
        ensures
            *final(self) == advance(nets@, ports@, *old(self)),
            cursor_ok(nets@, ports@, *final(self)),
    {
        let ghost n0 = nets@[self.net as int];
        proof {
            lemma_host_range(n0);
        }
        let np = ports.len();
        if self.port + 1 < np {
            self.port = self.port + 1;
            return;
        }
        let (_, last) = host_range(&nets[self.net]);
        if self.host < last {
            self.host = self.host + 1;
            self.port = 0;
            return;
        }
        if self.net + 1 < nets.len() {
            proof {
                lemma_host_range(nets@[self.net + 1]);
            }
            let (first, _) = host_range(&nets[self.net + 1]);
            self.net = self.net + 1;
            self.host = first;
            self.port = 0;
            return;
        }
        self.net = nets.len();
        self.host = 0;
        self.port = 0;
    }

    /// The next batch of at most `n` sweep endpoints that `excluded` does
    /// not list; fewer only when the sweep ends.
    pub fn next_batch(&mut self, nets: &[IpNetwork], ports: &[u16], excluded: &[Endpoint], n: usize) -> (r: Vec<Endpoint>)
        requires
            cursor_ok(nets@, ports@, *old(self)),
        ensures
            cursor_ok(nets@, ports@, *final(self)),
            (endpoint_keys(r@), *final(self)) == sweep_batch(
                nets@,
                ports@,
                endpoint_keys(excluded@),
                *old(self),
                n as nat,
            ),
            r@.len() <= n,
            r@.len() < n ==> sweep_done(nets@, *final(self)),
    {
        let ghost c0 = *self;
        let ghost ex = endpoint_keys(excluded@);
        let mut out: Vec<Endpoint> = Vec::new();
        let nn = nets.len();
        let np = ports.len();
        while out.len() < n && self.net < nn
            invariant
                nn == nets@.len(),
                np == ports@.len(),
                cursor_ok(nets@, ports@, *self),
                out@.len() <= n,
                ex == endpoint_keys(excluded@),
                sweep_batch(nets@, ports@, ex, c0, n as nat) == ({
                    let rest = sweep_batch(nets@, ports@, ex, *self, (n - out@.len()) as nat);
                    (endpoint_keys(out@) + rest.0, rest.1)
                }),
            decreases nets@.len() - self.net, last_host(nets@[self.net as int]) - self.host, ports@.len()
                - self.port,
        {
            let ghost c = *self;
            let cur = nets[self.net];
            proof {
                lemma_host_range(cur);
            }
            let e = host_endpoint(&cur, self.host, ports[self.port]);
            let skip = has_endpoint(excluded, &e);
            let ghost before = out@;
            if !skip {
                out.push(e);
                assert(endpoint_keys(out@) =~= endpoint_keys(before).push(endpoint_key(e)));
            }
            proof {
                lemma_advance_decreases(nets@, ports@, c);
            }
            self.step(nets, ports);
            proof {
                let k = (n - before.len()) as nat;
                assert(key_at(nets@, ports@, c) == endpoint_key(e));
                assert(nets@.len() <= usize::MAX);
                let rest = sweep_batch(nets@, ports@, ex, *self, (n - out@.len()) as nat);
                if !skip {
                    assert(endpoint_keys(out@) + rest.0 =~= endpoint_keys(before) + (seq![
                        endpoint_key(e),
                    ] + rest.0));
                }
            }
        }
        proof {
            let rest = sweep_batch(nets@, ports@, ex, *self, (n - out@.len()) as nat);
            assert(rest.0 =~= Seq::<(bool, Seq<u8>, u32, u16)>::empty());
            assert(endpoint_keys(out@) + rest.0 =~= endpoint_keys(out@));
        }
        out
    }
}


/// Whether no endpoint of `ip` on any port is listed in `excluded`.
pub open spec fn host_unprobed(ip: Seq<u8>, ports: Seq<u16>, excluded: Seq<(bool, Seq<u8>, u32, u16)>) -> bool {
    forall|j: int| 0 <= j < ports.len() ==> !excluded.contains((true, ip, 0u32, #[trigger] ports[j]))
}

/// The unprobed hosts among the first `count` hosts of a network, in order.
pub open spec fn unprobed_hosts(n: IpNetwork, ports: Seq<u16>, excluded: Seq<(bool, Seq<u8>, u32, u16)>, count: nat) -> Seq<Seq<u8>>
    decreases count,
{
    if count == 0 {
        Seq::empty()
    } else {
        let rest = unprobed_hosts(n, ports, excluded, (count - 1) as nat);
        let ip = host_octets(n, (first_host(n) + count - 1) as nat);
        if host_unprobed(ip, ports, excluded) {
            rest.push(ip)
        } else {
            rest
        }
    }
}

/// The IPv4 hosts left for the ICMP pre-filter: every host of every IPv4
/// network, in order, of which no port was a priority endpoint.
pub open spec fn remaining_hosts_spec(nets: Seq<IpNetwork>, ports: Seq<u16>, excluded: Seq<(bool, Seq<u8>, u32, u16)>) -> Seq<Seq<u8>>
    decreases nets.len(),
{
    if nets.len() == 0 {
        Seq::empty()
    } else {
        let rest = remaining_hosts_spec(nets.drop_last(), ports, excluded);
        let n = nets.last();
        if n is V4 {
            rest + unprobed_hosts(n, ports, excluded, (last_host(n) - first_host(n) + 1) as nat)
        } else {
            rest
        }
    }
}

/// Whether no endpoint of `ip` on any port is listed.
fn host_is_unprobed(ip: [u8; 4], ports: &[u16], excluded: &[Endpoint]) -> (r: bool)
    ensures
        r == host_unprobed(ip@, ports@, endpoint_keys(excluded@)),
{
    let mut j: usize = 0;
    while j < ports.len()
        invariant
            j <= ports@.len(),
            forall|k: int|
                0 <= k < j ==> !endpoint_keys(excluded@).contains((true, ip@, 0u32, #[trigger] ports@[k])),
        decreases ports@.len() - j,
    {
        let e = Endpoint { host: HostAddr::V4(ip), port: ports[j] };
        if has_endpoint(excluded, &e) {
            assert(endpoint_key(e) == (true, ip@, 0u32, ports@[j as int]));
            return false;
        }
        j = j + 1;
    }
    true
}

/// The IPv4 hosts of the subnets that no priority endpoint covered, for
/// the ICMP pre-filter.
pub fn remaining_hosts(nets: &[IpNetwork], ports: &[u16], excluded: &[Endpoint]) -> (r: Vec<[u8; 4]>)
    requires
        nets_wf(nets@),
    ensures
        crate::net::responders::v4_view(r@) == remaining_hosts_spec(nets@, ports@, endpoint_keys(excluded@)),
{
    let ghost ex = endpoint_keys(excluded@);
    let mut out: Vec<[u8; 4]> = Vec::new();
    let mut i: usize = 0;
    while i < nets.len()
        invariant
            i <= nets@.len(),
            nets_wf(nets@),
            ex == endpoint_keys(excluded@),
            crate::net::responders::v4_view(out@) == remaining_hosts_spec(nets@.take(i as int), ports@, ex),
        decreases nets@.len() - i,
    {
        let n = nets[i];
        proof {
            assert(nets@.take(i + 1).drop_last() =~= nets@.take(i as int));
            assert(nets@.take(i + 1).last() == n);
            assert(ip_network_wf(n));
            lemma_host_range(n);
        }
        if let IpNetwork::V4 { .. } = n {
            proof {
                lemma_block_32();
            }
            let (first, last) = host_range(&n);
            let total: u128 = last - first + 1;
            let ghost start = crate::net::responders::v4_view(out@);
            let mut c: u128 = 0;
            while c < total
                invariant
                    c <= total,
                    n is V4,
                    first == first_host(n),
                    total == last_host(n) - first_host(n) + 1,
                    last_host(n) < 0x1_0000_0000,
                    ex == endpoint_keys(excluded@),
                    crate::net::responders::v4_view(out@) == start + unprobed_hosts(n, ports@, ex, c as nat),
                decreases total - c,
            {
                let h = first + c;
                let ip = u32_to_octets(h as u32);
                assert(ip@ == host_octets(n, (first_host(n) + (c + 1) - 1) as nat));
                if host_is_unprobed(ip, ports, excluded) {
                    let ghost before = out@;
                    out.push(ip);
                    assert(crate::net::responders::v4_view(out@) =~= crate::net::responders::v4_view(
                        before,
                    ).push(ip@));
                }
                c = c + 1;
            }
        }
        i = i + 1;
    }
    assert(nets@.take(nets@.len() as int) =~= nets@);
    out
}


/// A sweep batch holds at most the endpoints asked for, none of them
/// excluded.
pub proof fn lemma_sweep_batch_excludes(
    nets: Seq<IpNetwork>,
    ports: Seq<u16>,
    excluded: Seq<(bool, Seq<u8>, u32, u16)>,
    c: SweepCursor,
    n: nat,
)
    ensures
        sweep_batch(nets, ports, excluded, c, n).0.len() <= n,
        forall|i: int|
            0 <= i < sweep_batch(nets, ports, excluded, c, n).0.len() ==> !excluded.contains(
                #[trigger] sweep_batch(nets, ports, excluded, c, n).0[i],
            ),
    decreases nets.len() - c.net, last_host(nets[c.net as int]) - c.host, ports.len() - c.port,
{
    if n == 0 || !cursor_ok(nets, ports, c) || sweep_done(nets, c) || nets.len() > usize::MAX
        || ports.len() > usize::MAX {
    } else {
        lemma_advance_decreases(nets, ports, c);
        let k = key_at(nets, ports, c);
        let next = advance(nets, ports, c);
        if excluded.contains(k) {
            lemma_sweep_batch_excludes(nets, ports, excluded, next, n);
        } else {
            lemma_sweep_batch_excludes(nets, ports, excluded, next, (n - 1) as nat);
            let rest = sweep_batch(nets, ports, excluded, next, (n - 1) as nat);
            let all = sweep_batch(nets, ports, excluded, c, n).0;
            assert(all == seq![k] + rest.0);
            assert forall|i: int| 0 <= i < all.len() implies !excluded.contains(#[trigger] all[i]) by {
                if i > 0 {
                    assert(all[i] == rest.0[i - 1]);
                }
            }
        }
    }
}
/// Batching loses and repeats nothing: a batch of `n` followed by a batch
/// of `m` from where it stopped is the batch of `n + m`.
pub proof fn lemma_sweep_batches_concatenate(
    nets: Seq<IpNetwork>,
    ports: Seq<u16>,
    excluded: Seq<(bool, Seq<u8>, u32, u16)>,
    c: SweepCursor,
    n: nat,
    m: nat,
)
    ensures
        ({
            let first = sweep_batch(nets, ports, excluded, c, n);
            let second = sweep_batch(nets, ports, excluded, first.1, m);
            (first.0 + second.0, second.1) == sweep_batch(nets, ports, excluded, c, n + m)
        }),
    decreases nets.len() - c.net, last_host(nets[c.net as int]) - c.host, ports.len() - c.port,
{
    let first = sweep_batch(nets, ports, excluded, c, n);
    if n == 0 {
        assert(first.0 =~= Seq::<(bool, Seq<u8>, u32, u16)>::empty());
        let second = sweep_batch(nets, ports, excluded, first.1, m);
        assert(first.0 + second.0 =~= second.0);
    } else if !cursor_ok(nets, ports, c) || sweep_done(nets, c) || nets.len() > usize::MAX
        || ports.len() > usize::MAX {
        let second = sweep_batch(nets, ports, excluded, first.1, m);
        assert(first.0 + second.0 =~= second.0);
    } else {
        lemma_advance_decreases(nets, ports, c);
        let k = key_at(nets, ports, c);
        let next = advance(nets, ports, c);
        if excluded.contains(k) {
            lemma_sweep_batches_concatenate(nets, ports, excluded, next, n, m);
        } else {
            lemma_sweep_batches_concatenate(nets, ports, excluded, next, (n - 1) as nat, m);
            let rest = sweep_batch(nets, ports, excluded, next, (n - 1) as nat);
            let second = sweep_batch(nets, ports, excluded, rest.1, m);
            assert((n - 1) as nat + m == (n + m - 1) as nat);
            assert(seq![k] + rest.0 + second.0 =~= seq![k] + (rest.0 + second.0));
        }
    }
}

} // verus!
