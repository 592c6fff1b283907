//! Multicast filtering in two stages, as network cards do it: an imperfect
//! hardware filter — one bit per CRC-32 hash bucket of the destination MAC —
//! drops most unwanted frames, and an exact software filter over the
//! subscribed group addresses decides what the hardware let through.

use vstd::prelude::*;

verus! {

/// One shift-and-conditionally-xor step of the reflected CRC-32 polynomial
/// 0xEDB88320 (IEEE 802.3).
pub open spec fn crc_step(c: u32) -> u32 {
    if c & 1 == 1 {
        (c >> 1u32) ^ 0xEDB8_8320u32
    } else {
        c >> 1u32
    }
}

/// `n` CRC steps applied to `c`.
pub open spec fn crc_steps(c: u32, n: nat) -> u32
    decreases n,
{
    if n == 0 {
        c
    } else {
        crc_step(crc_steps(c, (n - 1) as nat))
    }
}

/// The table entry for one input byte value: eight CRC steps.
pub open spec fn crc_table_entry(i: u32) -> u32 {
    crc_steps(i, 8)
}

/// Absorbing one byte into the running CRC accumulator.
pub open spec fn crc_byte_step(acc: u32, b: u8) -> u32 {
    (acc >> 8u32) ^ crc_table_entry((acc ^ b as u32) & 0xFF)
}

/// The accumulator after absorbing all of `s`, front to back.
pub open spec fn crc_accum(s: Seq<u8>, acc: u32) -> u32
    decreases s.len(),
{
    if s.len() == 0 {
        acc
    } else {
        crc_accum(s.drop_first(), crc_byte_step(acc, s[0]))
    }
}

/// The CRC-32 checksum of `s`: absorb from the all-ones state, then invert.
pub open spec fn spec_crc32(s: Seq<u8>) -> u32 {
    !crc_accum(s, 0xFFFF_FFFFu32)
}

/// A 48-bit MAC address, one tuple element per byte, most significant first.
#[derive(Clone, Copy, PartialEq, Eq, Structural, Hash, Debug)]
pub struct MacAddress(pub u8, pub u8, pub u8, pub u8, pub u8, pub u8);

/// An IPv4 address, one tuple element per octet, most significant first.
#[derive(Clone, Copy, PartialEq, Eq, Structural, Hash, Debug)]
pub struct IpAddress(pub u8, pub u8, pub u8, pub u8);

/// The bytes of a MAC address, in wire order.
pub open spec fn mac_bytes(m: MacAddress) -> Seq<u8> {
    seq![m.0, m.1, m.2, m.3, m.4, m.5]
}

/// The MAC address a multicast IP maps to: the fixed multicast OUI
/// 01:00:5E, then the low 23 bits of the address.
pub open spec fn spec_mac_of(ip: IpAddress) -> MacAddress {
    MacAddress(0x01, 0x00, 0x5E, ip.1 & 0x7F, ip.2, ip.3)
}

/// The hash bucket for a CRC value in a table indexed by `bits` bits: the
/// top `bits` bits of the CRC.
pub open spec fn spec_hash_index(crc: u32, bits: u8) -> usize {
    ((crc >> ((32 - bits) as u32)) & (((1u32 << (bits as u32)) - 1) as u32)) as usize
}

/// The bucket of a MAC address in a `bits`-bit hardware table.
pub open spec fn hw_index(mac: MacAddress, bits: u8) -> usize {
    spec_hash_index(spec_crc32(mac_bytes(mac)), bits)
}

/// A hash bucket fits its table.
pub proof fn lemma_hash_index_bound(crc: u32, bits: u8)
    requires
        1 <= bits <= 31,
    ensures
        spec_hash_index(crc, bits) < (1usize << (bits as u32)),
{
    assert((crc >> ((32 - bits) as u32)) & (((1u32 << (bits as u32)) - 1) as u32) < (1u32
        << (bits as u32))) by (bit_vector)
        requires
            1 <= bits <= 31,
    ;
    assert((1u32 << (bits as u32)) as usize == 1usize << (bits as u32)) by (bit_vector)
        requires
            1 <= bits <= 31,
    ;
}

impl MacAddress {
    /// The hardware multicast MAC for a multicast IP destination.
    pub fn from_multicast_ip(ip: &IpAddress) -> (r: Self)
        ensures
            r == spec_mac_of(*ip),
    {
        MacAddress(0x01, 0x00, 0x5E, ip.1 & 0x7F, ip.2, ip.3)
    }
}

impl IpAddress {
    pub fn new(a: u8, b: u8, c: u8, d: u8) -> (r: Self)
        ensures
            r == (IpAddress(a, b, c, d)),
    {
        IpAddress(a, b, c, d)
    }

    /// Whether the address lies in the multicast range 224.0.0.0/4.
    pub fn is_multicast(&self) -> (r: bool)
        ensures
            r == (224 <= self.0 <= 239),
    {
        self.0 >= 224 && self.0 <= 239
    }
}

/// CRC-32 with the byte-indexed lookup table precomputed.
pub struct Crc32 {
    table: Vec<u32>,
}

impl Crc32 {
    /// The table holds the entry for every byte value.
    pub closed spec fn wf(self) -> bool {
        &&& self.table@.len() == 256
        &&& (forall|i: int| 0 <= i < 256 ==> self.table@[i] == crc_table_entry(i as u32))
    }

    pub fn new() -> (c: Self)
        ensures
            c.wf(),
    {
        let mut table: Vec<u32> = Vec::new();
        let mut i: usize = 0;
        while i < 256
            invariant
                i <= 256,
                table@.len() == i,
                forall|k: int| 0 <= k < i ==> table@[k] == crc_table_entry(k as u32),
            decreases 256 - i,
        {
            let mut crc: u32 = i as u32;
            let mut j: usize = 0;
            while j < 8
                invariant
                    j <= 8,
                    i <= 255,
                    crc == crc_steps(i as u32, j as nat),
                decreases 8 - j,
            {
                proof {
                    assert(crc & 1 == 0 || crc & 1 == 1) by (bit_vector);
                }
                if crc & 1 != 0 {
                    crc = (crc >> 1u32) ^ 0xEDB8_8320u32;
                } else {
                    crc = crc >> 1u32;
                }
                j += 1;
            }
            table.push(crc);
            i += 1;
        }
        Crc32 { table }
    }

    /// The CRC-32 checksum of `data`.
    pub fn compute(&self, data: &[u8]) -> (r: u32)
        requires
            self.wf(),
        ensures
            r == spec_crc32(data@),
    {
        let mut crc: u32 = 0xFFFF_FFFF;
        let n = data.len();
        let mut k: usize = 0;
        proof {
            assert(data@.skip(0) =~= data@);
        }
        while k < n
            invariant
                self.wf(),
                k <= n,
                n == data@.len(),
                crc_accum(data@.skip(k as int), crc) == crc_accum(data@, 0xFFFF_FFFFu32),
            decreases n - k,
        {
            let byte = data[k];
            proof {
                assert((crc ^ byte as u32) & 0xFF < 256) by (bit_vector);
                assert(data@.skip(k as int)[0] == data@[k as int]);
                assert(data@.skip(k as int).drop_first() =~= data@.skip(k as int + 1));
            }
            let idx = ((crc ^ byte as u32) & 0xFF) as usize;
            crc = (crc >> 8u32) ^ self.table[idx];
            k += 1;
        }
        proof {
            assert(data@.skip(n as int) =~= Seq::<u8>::empty());
        }
        !crc
    }

    /// The hash bucket of a MAC address in a table of `bits` index bits.
    pub fn hash_to_index(&self, mac: &MacAddress, bits: u8) -> (r: usize)
        requires
            self.wf(),
            1 <= bits <= 31,
        ensures
            r == hw_index(*mac, bits),
            r < (1usize << (bits as u32)),
    {
        let mut data: Vec<u8> = Vec::new();
        data.push(mac.0);
        data.push(mac.1);
        data.push(mac.2);
        data.push(mac.3);
        data.push(mac.4);
        data.push(mac.5);
        proof {
            assert(data@ =~= mac_bytes(*mac));
        }
        let crc = self.compute(data.as_slice());
        let shift = 32 - bits;
        proof {
            assert(1u32 << (bits as u32) >= 1) by (bit_vector)
                requires
                    bits <= 31,
            ;
        }
        let masked = (crc >> (shift as u32)) & ((1u32 << (bits as u32)) - 1);
        proof {
            lemma_hash_index_bound(crc, bits);
            assert((1u32 << (bits as u32)) as usize == 1usize << (bits as u32)) by (bit_vector)
                requires
                    1 <= bits <= 31,
            ;
        }
        masked as usize
    }
}

/// The hardware stage: one bit per hash bucket of the destination MAC.
pub struct HardwareHashTable {
    bits: Vec<bool>,
    size_bits: u8,
    crc: Crc32,
}

impl HardwareHashTable {
    pub closed spec fn wf(self) -> bool {
        &&& self.crc.wf()
        &&& 1 <= self.size_bits <= 31
        &&& self.bits@.len() == (1usize << (self.size_bits as u32))
    }

    /// The number of index bits the table was made with.
    pub closed spec fn spec_size_bits(self) -> u8 {
        self.size_bits
    }

    /// The bucket bits, one boolean per bucket.
    pub closed spec fn bits_view(self) -> Seq<bool> {
        self.bits@
    }

    pub fn new(size_bits: u8) -> (t: Self)
        requires
            1 <= size_bits <= 31,
        ensures
            t.wf(),
            t.spec_size_bits() == size_bits,
            t.bits_view() == Seq::new((1usize << (size_bits as u32)) as nat, |k: int| false),
    {
        let n = 1usize << (size_bits as u32);
        let mut bits: Vec<bool> = Vec::new();
        let mut k: usize = 0;
        while k < n
            invariant
                k <= n,
                bits@.len() == k,
                forall|j: int| 0 <= j < k ==> !bits@[j],
            decreases n - k,
        {
            bits.push(false);
            k += 1;
        }
        let t = HardwareHashTable { bits, size_bits, crc: Crc32::new() };
        proof {
            assert(t.bits_view() =~= Seq::new((1usize << (size_bits as u32)) as nat, |j: int| false));
        }
        t
    }

    /// Set the bucket bit of `mac`; every other bucket keeps its bit.
    pub fn add_mac(&mut self, mac: &MacAddress)
        requires
            old(self).wf(),
        ensures
            final(self).wf(),
            final(self).spec_size_bits() == old(self).spec_size_bits(),
            final(self).bits_view() == old(self).bits_view().update(
                hw_index(*mac, old(self).spec_size_bits()) as int,
                true,
            ),
    {
        let idx = self.crc.hash_to_index(mac, self.size_bits);
        self.bits[idx] = true;
    }

    /// Whether the bucket bit of `mac` is set: set for every added MAC, and
    /// possibly for others whose hash collides with an added one.
    pub fn check_mac(&self, mac: &MacAddress) -> (r: bool)
        requires
            self.wf(),
        ensures
            r == self.bits_view()[hw_index(*mac, self.spec_size_bits()) as int],
    {
        let idx = self.crc.hash_to_index(mac, self.size_bits);
        self.bits[idx]
    }
}

/// The software stage: the exact set of subscribed group addresses.
pub struct SoftwareFilter {
    subscribed: Vec<IpAddress>,
}

impl SoftwareFilter {
    /// The subscribed addresses, in subscription order, each held once.
    pub closed spec fn subs(self) -> Seq<IpAddress> {
        self.subscribed@
    }

    pub fn new() -> (f: Self)
        ensures
            f.subs().len() == 0,
    {
        SoftwareFilter { subscribed: Vec::new() }
    }

    /// Record a subscription; already-subscribed addresses are kept once.
    pub fn subscribe(&mut self, ip: IpAddress)
        ensures
            forall|x: IpAddress|
                final(self).subs().contains(x) <==> (old(self).subs().contains(x) || x == ip),
    {
        if !self.is_subscribed(&ip) {
            self.subscribed.push(ip);
            proof {
                assert forall|x: IpAddress| #[trigger]
                    final(self).subs().contains(x) <==> (old(self).subs().contains(x) || x
                    == ip) by {
                    if old(self).subs().contains(x) {
                        let j = choose|j: int|
                            0 <= j < old(self).subs().len() && old(self).subs()[j] == x;
                        assert(final(self).subs()[j] == x);
                    }
                    assert(final(self).subs().last() == ip);
                    if final(self).subs().contains(x) {
                        let j = choose|j: int|
                            0 <= j < final(self).subs().len() && final(self).subs()[j] == x;
                        if j < final(self).subs().len() - 1 {
                            assert(old(self).subs()[j] == x);
                        }
                    }
                }
            }
        }
    }

    /// Whether `ip` is subscribed.
    pub fn is_subscribed(&self, ip: &IpAddress) -> (r: bool)
        ensures
            r == self.subs().contains(*ip),
    {
        let n = self.subscribed.len();
        let mut k: usize = 0;
        while k < n
            invariant
                k <= n,
                n == self.subs().len(),
                forall|j: int| 0 <= j < k ==> self.subs()[j] != *ip,
            decreases n - k,
        {
            if self.subscribed[k] == *ip {
                return true;
            }
            k += 1;
        }
        false
    }
}

/// Counters of a simulation run.
#[derive(Clone, Copy, PartialEq, Eq, Structural, Debug)]
pub struct SimulationStats {
    pub total: usize,
    pub hw_dropped: usize,
    pub hw_passed: usize,
    pub sw_accepted: usize,
    pub sw_dropped: usize,
}

impl Default for SimulationStats {
    /// All counters start at zero.
    fn default() -> (s: Self)
        ensures
            s == (SimulationStats {
                total: 0,
                hw_dropped: 0,
                hw_passed: 0,
                sw_accepted: 0,
                sw_dropped: 0,
            }),
    {
        SimulationStats { total: 0, hw_dropped: 0, hw_passed: 0, sw_accepted: 0, sw_dropped: 0 }
    }
}

/// A multicast frame: its destination IP and the MAC it rides on.
#[derive(Clone, Copy)]
pub struct MulticastPacket {
    pub dst_ip: IpAddress,
    pub dst_mac: MacAddress,
}

impl MulticastPacket {
    pub fn new(dst_ip: IpAddress) -> (p: Self)
        ensures
            p.dst_ip == dst_ip,
            p.dst_mac == spec_mac_of(dst_ip),
    {
        let dst_mac = MacAddress::from_multicast_ip(&dst_ip);
        MulticastPacket { dst_ip, dst_mac }
    }
}

/// The position of `mac` among the group keys, or -1 when absent.
pub open spec fn group_index(gs: Seq<(MacAddress, Seq<IpAddress>)>, mac: MacAddress) -> int
    decreases gs.len(),
{
    if gs.len() == 0 {
        -1
    } else if gs[0].0 == mac {
        0
    } else {
        let r = group_index(gs.drop_first(), mac);
        if r == -1 {
            -1
        } else {
            r + 1
        }
    }
}

/// What `group_index` finds: the first entry keyed by `mac`, or nothing.
pub proof fn lemma_group_index(gs: Seq<(MacAddress, Seq<IpAddress>)>, mac: MacAddress)
    ensures
        group_index(gs, mac) == -1 ==> forall|j: int|
            0 <= j < gs.len() ==> (#[trigger] gs[j]).0 != mac,
        group_index(gs, mac) != -1 ==> 0 <= group_index(gs, mac) < gs.len() && gs[group_index(
            gs,
            mac,
        )].0 == mac && (forall|j: int| 0 <= j < group_index(gs, mac) ==> (#[trigger] gs[j]).0
            != mac),
    decreases gs.len(),
{
    if gs.len() > 0 && gs[0].0 != mac {
        lemma_group_index(gs.drop_first(), mac);
        let r = group_index(gs.drop_first(), mac);
        if r == -1 {
            assert forall|j: int| 0 <= j < gs.len() implies (#[trigger] gs[j]).0 != mac by {
                if j > 0 {
                    assert(gs.drop_first()[j - 1].0 != mac);
                }
            }
        } else {
            assert(gs[r + 1] == gs.drop_first()[r]);
            assert forall|j: int| 0 <= j < r + 1 implies (#[trigger] gs[j]).0 != mac by {
                if j > 0 {
                    assert(gs.drop_first()[j - 1].0 != mac);
                }
            }
        }
    }
}

/// The whole two-stage filter with its counters and, for collision
/// analysis, the subscribed IPs grouped by the MAC they hash to.
pub struct MulticastFilterSimulator {
    hw: HardwareHashTable,
    sw: SoftwareFilter,
    stats: SimulationStats,
    mac_to_ips: Vec<(MacAddress, Vec<IpAddress>)>,
}

impl MulticastFilterSimulator {
    /// The grouped subscriptions: each MAC key once, with its IPs in
    /// subscription order.
    pub closed spec fn groups(self) -> Seq<(MacAddress, Seq<IpAddress>)> {
        self.mac_to_ips@.map(|i: int, e: (MacAddress, Vec<IpAddress>)| (e.0, e.1@))
    }

    pub closed spec fn spec_stats(self) -> SimulationStats {
        self.stats
    }

    pub closed spec fn spec_hw(self) -> HardwareHashTable {
        self.hw
    }

    pub closed spec fn spec_sw(self) -> SoftwareFilter {
        self.sw
    }

    /// Well-formed: the hardware table is, the counters add up — every frame
    /// was dropped or passed by hardware, and every hardware-passed frame
    /// was accepted or dropped by software — and each MAC keys one group.
    pub closed spec fn wf(self) -> bool {
        &&& self.hw.wf()
        &&& self.stats.total == self.stats.hw_dropped + self.stats.hw_passed
        &&& self.stats.hw_passed == self.stats.sw_accepted + self.stats.sw_dropped
        &&& (forall|i: int, j: int|
            0 <= i < self.groups().len() && 0 <= j < self.groups().len() && i != j ==> (
            #[trigger] self.groups()[i]).0 != (#[trigger] self.groups()[j]).0)
    }

    /// The counter consistency that `wf` keeps is public knowledge.
    pub proof fn lemma_stats_consistent(self)
        requires
            self.wf(),
        ensures
            self.spec_stats().total == self.spec_stats().hw_dropped + self.spec_stats().hw_passed,
            self.spec_stats().hw_passed == self.spec_stats().sw_accepted
                + self.spec_stats().sw_dropped,
    {
    }

    pub fn new(bits: u8) -> (s: Self)
        requires
            1 <= bits <= 31,
        ensures
            s.wf(),
            s.spec_stats() == (SimulationStats {
                total: 0,
                hw_dropped: 0,
                hw_passed: 0,
                sw_accepted: 0,
                sw_dropped: 0,
            }),
            s.spec_hw().spec_size_bits() == bits,
            s.spec_hw().bits_view() == Seq::new((1usize << (bits as u32)) as nat, |k: int| false),
            s.spec_sw().subs().len() == 0,
            s.groups().len() == 0,
    {
        let s = MulticastFilterSimulator {
            hw: HardwareHashTable::new(bits),
            sw: SoftwareFilter::new(),
            stats: SimulationStats::default(),
            mac_to_ips: Vec::new(),
        };
        proof {
            assert(s.groups() =~= Seq::<(MacAddress, Seq<IpAddress>)>::empty());
        }
        s
    }

    /// Subscribe to a multicast group: record it in the software filter, set
    /// its MAC's bucket in the hardware filter, and append the IP to its
    /// MAC's group (a new group if the MAC is new). The counters stay.
    pub fn subscribe(&mut self, ip: IpAddress)
        requires
            old(self).wf(),
            224 <= ip.0 <= 239,
        ensures
            final(self).wf(),
            forall|x: IpAddress|
                final(self).spec_sw().subs().contains(x) <==> (old(self).spec_sw().subs().contains(
                    x,
                ) || x == ip),
            final(self).spec_hw().spec_size_bits() == old(self).spec_hw().spec_size_bits(),
            final(self).spec_hw().bits_view() == old(self).spec_hw().bits_view().update(
                hw_index(spec_mac_of(ip), old(self).spec_hw().spec_size_bits()) as int,
                true,
            ),
            final(self).spec_stats() == old(self).spec_stats(),
            ({
                let gi = group_index(old(self).groups(), spec_mac_of(ip));
                if gi == -1 {
                    final(self).groups() == old(self).groups().push(
                        (spec_mac_of(ip), seq![ip]),
                    )
                } else {
                    final(self).groups() == old(self).groups().update(
                        gi,
                        (spec_mac_of(ip), old(self).groups()[gi].1.push(ip)),
                    )
                }
            }),
    {
        self.sw.subscribe(ip);
        let mac = MacAddress::from_multicast_ip(&ip);
        self.hw.add_mac(&mac);
        let ghost gs = self.groups();
        proof {
            assert(gs =~= old(self).groups());
            lemma_group_index(gs, mac);
        }
        let n = self.mac_to_ips.len();
        let mut k: usize = 0;
        let mut found = false;
        while !found && k < n
            invariant
                k <= n,
                n == self.mac_to_ips@.len(),
                gs == self.groups(),
                gs.len() == n,
                forall|j: int| 0 <= j < gs.len() ==> (#[trigger] gs[j]) == (
                self.mac_to_ips@[j].0, self.mac_to_ips@[j].1@),
                forall|j: int| 0 <= j < k ==> (#[trigger] gs[j]).0 != mac,
                found ==> k < n && gs[k as int].0 == mac,
            decreases n - k, (if found { 0int } else { 1int }),
        {
            if self.mac_to_ips[k].0 == mac {
                found = true;
            } else {
                k += 1;
            }
        }
        if found {
            proof {
                assert(group_index(gs, mac) == k as int) by {
                    lemma_group_index(gs, mac);
                    let gi = group_index(gs, mac);
                    if gi == -1 {
                        assert(gs[k as int].0 != mac);
                    } else {
                        if gi < k {
                            assert(gs[gi].0 != mac);
                        }
                        if k < gi {
                            assert(gs[k as int].0 != mac);
                        }
                    }
                }
            }
            let entry = self.mac_to_ips.remove(k);
            let mut ips = entry.1;
            ips.push(ip);
            self.mac_to_ips.insert(k, (entry.0, ips));
            proof {
                assert(self.groups() =~= gs.update(
                    k as int,
                    (mac, gs[k as int].1.push(ip)),
                ));
            }
        } else {
            proof {
                assert(group_index(gs, mac) == -1) by {
                    lemma_group_index(gs, mac);
                    if group_index(gs, mac) != -1 {
                        assert(gs[group_index(gs, mac)].0 == mac);
                    }
                }
            }
            let mut ips: Vec<IpAddress> = Vec::new();
            ips.push(ip);
            self.mac_to_ips.push((mac, ips));
            proof {
                assert(seq![ip] =~= ips@);
                assert(self.groups() =~= gs.push((mac, seq![ip])));
            }
        }
    }

    /// The counters as they stand.
    pub fn stats(&self) -> (s: SimulationStats)
        ensures
            s == self.spec_stats(),
    {
        self.stats
    }

    /// The grouped subscriptions, for collision reporting.
    pub fn groups_list(&self) -> (r: &Vec<(MacAddress, Vec<IpAddress>)>)
        ensures
            r@.len() == self.groups().len(),
            forall|k: int|
                0 <= k < r@.len() ==> ((#[trigger] r@[k]).0, r@[k].1@) == self.groups()[k],
    {
        &self.mac_to_ips
    }

    /// Run one frame through both stages and count it: hardware drops it
    /// when its MAC's bucket is clear; otherwise software accepts it exactly
    /// when its destination IP is subscribed. Nothing but the counters moves.
    pub fn process(&mut self, pkt: MulticastPacket)
        requires
            old(self).wf(),
            old(self).spec_stats().total < usize::MAX,
        ensures
            final(self).wf(),
            final(self).spec_hw() == old(self).spec_hw(),
            final(self).spec_sw() == old(self).spec_sw(),
            final(self).groups() == old(self).groups(),
            ({
                let passed = old(self).spec_hw().bits_view()[hw_index(
                    pkt.dst_mac,
                    old(self).spec_hw().spec_size_bits(),
                ) as int];
                let subbed = old(self).spec_sw().subs().contains(pkt.dst_ip);
                &&& final(self).spec_stats().total == old(self).spec_stats().total + 1
                &&& final(self).spec_stats().hw_dropped == old(self).spec_stats().hw_dropped + (
                if passed {
                    0int
                } else {
                    1int
                })
                &&& final(self).spec_stats().hw_passed == old(self).spec_stats().hw_passed + (
                if passed {
                    1int
                } else {
                    0int
                })
                &&& final(self).spec_stats().sw_accepted == old(self).spec_stats().sw_accepted + (
                if passed && subbed {
                    1int
                } else {
                    0int
                })
                &&& final(self).spec_stats().sw_dropped == old(self).spec_stats().sw_dropped + (
                if passed && !subbed {
                    1int
                } else {
                    0int
                })
            }),
    {
        self.stats.total = self.stats.total + 1;
        if !self.hw.check_mac(&pkt.dst_mac) {
            self.stats.hw_dropped = self.stats.hw_dropped + 1;
            proof {
                assert(self.groups() =~= old(self).groups());
            }
            return ;
        }
        self.stats.hw_passed = self.stats.hw_passed + 1;
        if self.sw.is_subscribed(&pkt.dst_ip) {
            self.stats.sw_accepted = self.stats.sw_accepted + 1;
        } else {
            self.stats.sw_dropped = self.stats.sw_dropped + 1;
        }
        proof {
            assert(self.groups() =~= old(self).groups());
        }
    }
}

/// The well-known local multicast groups the demo seeds its table with.
pub fn generate_well_known_addresses() -> (r: Vec<IpAddress>)
    ensures
        r@ == seq![
            (IpAddress(224, 0, 0, 1)),
            (IpAddress(224, 0, 0, 2)),
            (IpAddress(224, 0, 0, 5)),
            (IpAddress(224, 0, 0, 6)),
            (IpAddress(224, 0, 0, 9)),
        ],
{
    let mut r: Vec<IpAddress> = Vec::new();
    r.push(IpAddress(224, 0, 0, 1));
    r.push(IpAddress(224, 0, 0, 2));
    r.push(IpAddress(224, 0, 0, 5));
    r.push(IpAddress(224, 0, 0, 6));
    r.push(IpAddress(224, 0, 0, 9));
    proof {
        assert(r@ =~= seq![
            (IpAddress(224, 0, 0, 1)),
            (IpAddress(224, 0, 0, 2)),
            (IpAddress(224, 0, 0, 5)),
            (IpAddress(224, 0, 0, 6)),
            (IpAddress(224, 0, 0, 9)),
        ]);
    }
    r
}

} // verus!
