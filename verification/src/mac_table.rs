//! MAC-address-to-port lookup over a fixed array of slots, using address
//! folding (48 bits XOR-folded to 32) and open addressing with double
//! hashing: slot `(h1 + i * h2) mod size` on the `i`-th probe. The exact
//! effect of each operation is stated over the probe sequence itself.

use vstd::prelude::*;
use vstd::string::StrSliceExecFns;
use vstd::string::StringExecFns;

use crate::text::find_sep;
use crate::text::lemma_split_on_first;
use crate::text::lemma_split_on_no_sep;
use crate::text::split_on;

verus! {

/// `c` is a hexadecimal digit, of either case.
pub open spec fn is_hex_digit(c: char) -> bool {
    (48 <= c as int <= 57) || (97 <= c as int <= 102) || (65 <= c as int <= 70)
}

/// The value of a hexadecimal digit.
pub open spec fn hex_digit_val(c: char) -> int {
    if 48 <= c as int <= 57 {
        c as int - 48
    } else if 97 <= c as int <= 102 {
        c as int - 87
    } else {
        c as int - 55
    }
}

/// Every character of `s` is a hexadecimal digit.
pub open spec fn all_hex_digits(s: Seq<char>) -> bool {
    forall|k: int| 0 <= k < s.len() ==> is_hex_digit(#[trigger] s[k])
}

/// The value of a string of hexadecimal digits, most significant first.
pub open spec fn hex_val(s: Seq<char>) -> int
    decreases s.len(),
{
    if s.len() == 0 {
        0
    } else {
        hex_val(s.drop_last()) * 16 + hex_digit_val(s.last())
    }
}

pub proof fn lemma_hex_val_nonneg(s: Seq<char>)
    requires
        all_hex_digits(s),
    ensures
        hex_val(s) >= 0,
    decreases s.len(),
{
    if s.len() > 0 {
        assert(all_hex_digits(s.drop_last()));
        lemma_hex_val_nonneg(s.drop_last());
    }
}

/// A hex string is worth at least any of its leading parts.
pub proof fn lemma_hex_val_take_le(s: Seq<char>, i: int)
    requires
        all_hex_digits(s),
        0 <= i <= s.len(),
    ensures
        hex_val(s.take(i)) <= hex_val(s),
    decreases s.len(),
{
    if i == s.len() {
        assert(s.take(i) =~= s);
    } else {
        let d = s.drop_last();
        assert(all_hex_digits(d));
        assert(d.take(i) =~= s.take(i));
        lemma_hex_val_take_le(d, i);
        lemma_hex_val_nonneg(d);
    }
}

/// What byte-sized hexadecimal parsing accepts: an optional sign, then at
/// least one hex digit, a value at most 255 — and zero only, after a minus.
pub open spec fn parse_hex_u8(s: Seq<char>) -> Option<u8> {
    let signed = s.len() > 0 && (s[0] == '+' || s[0] == '-');
    let digits = if signed {
        s.drop_first()
    } else {
        s
    };
    if digits.len() == 0 {
        None
    } else if !all_hex_digits(digits) {
        None
    } else if hex_val(digits) > 255 {
        None
    } else if s[0] == '-' && hex_val(digits) > 0 {
        None
    } else {
        Some(hex_val(digits) as u8)
    }
}

/// A 48-bit MAC address, one tuple element per byte, most significant first.
#[derive(Clone, Copy, PartialEq, Eq, Structural, Debug)]
pub struct MacAddress(pub u8, pub u8, pub u8, pub u8, pub u8, pub u8);

/// The 32-bit fold of a MAC address: the first four bytes packed, XORed
/// with the last two bytes packed.
pub open spec fn spec_fold(m: MacAddress) -> u32 {
    (((m.0 as u32) << 24u32) | ((m.1 as u32) << 16u32) | ((m.2 as u32) << 8u32) | (m.3 as u32)) ^ (
    ((m.4 as u32) << 8u32) | (m.5 as u32))
}

impl MacAddress {
    pub fn new(bytes: [u8; 6]) -> (r: Self)
        ensures
            r == (MacAddress(bytes[0], bytes[1], bytes[2], bytes[3], bytes[4], bytes[5])),
    {
        MacAddress(bytes[0], bytes[1], bytes[2], bytes[3], bytes[4], bytes[5])
    }

    /// Parse `aa:bb:cc:dd:ee:ff` notation: six colon-separated parts, each
    /// a byte in hexadecimal. Any other number of parts is a format error;
    /// six parts with one that is no hexadecimal byte is a hex error.
    pub fn from_string(s: &str) -> (r: Result<Self, String>)
        requires
            s@.len() < usize::MAX,
        ensures
            ({
                let parts = split_on(s@, ':');
                match r {
                    Ok(m) => parts.len() == 6 && (forall|k: int|
                        0 <= k < 6 ==> parse_hex_u8(#[trigger] parts[k]) is Some) && seq![
                        m.0,
                        m.1,
                        m.2,
                        m.3,
                        m.4,
                        m.5,
                    ] == Seq::new(6, |k: int| parse_hex_u8(parts[k]).unwrap()),
                    Err(e) => {
                        &&& (parts.len() != 6 || exists|k: int|
                            0 <= k < parts.len() && parse_hex_u8(#[trigger] parts[k]) is None)
                        &&& (parts.len() != 6 ==> e@ == "invalid mac address format"@)
                        &&& (parts.len() == 6 ==> e@ == "invalid hex in mac address"@)
                    },
                }
            }),
    {
        let (cnt, values) = split_parse(s);
        if cnt != 6 {
            return Err(String::from_str("invalid mac address format"));
        }
        match values {
            None => Err(String::from_str("invalid hex in mac address")),
            Some(v) => {
                let m = MacAddress(v[0], v[1], v[2], v[3], v[4], v[5]);
                proof {
                    let parts = split_on(s@, ':');
                    assert(seq![m.0, m.1, m.2, m.3, m.4, m.5] =~= Seq::new(
                        6,
                        |k: int| parse_hex_u8(parts[k]).unwrap(),
                    ));
                }
                Ok(m)
            },
        }
    }

    /// Fold the 48-bit address to 32 bits for hashing.
    pub fn fold_to_32bit(&self) -> (r: u32)
        ensures
            r == spec_fold(*self),
    {
        let upper = ((self.0 as u32) << 24u32) | ((self.1 as u32) << 16u32) | ((self.2 as u32)
            << 8u32) | (self.3 as u32);
        let lower = ((self.4 as u32) << 8u32) | (self.5 as u32);
        upper ^ lower
    }
}

/// One hexadecimal byte, parsed as `u8` parsing in base 16 does.
fn parse_hex_part(p: &str) -> (r: Option<u8>)
    ensures
        r == parse_hex_u8(p@),
{
    let n = p.unicode_len();
    if n == 0 {
        return None;
    }
    let c0 = p.get_char(0);
    let neg = c0 == '-';
    let signed = neg || c0 == '+';
    let start: usize = if signed {
        1
    } else {
        0
    };
    let ghost digits = if signed {
        p@.drop_first()
    } else {
        p@
    };
    proof {
        assert(digits.len() == n - start);
        assert(forall|j: int| 0 <= j < digits.len() ==> #[trigger] digits[j] == p@[j + start]);
    }
    if n == start {
        return None;
    }
    let mut acc: u32 = 0;
    let mut k: usize = start;
    while k < n
        invariant
            start <= k <= n,
            n == p@.len(),
            n > 0,
            start == 0 || start == 1,
            start < n,
            (start == 1) == (p@[0] == '+' || p@[0] == '-'),
            neg == (p@[0] == '-'),
            digits == (if start == 1 {
                p@.drop_first()
            } else {
                p@
            }),
            digits.len() == n - start,
            forall|j: int| 0 <= j < k - start ==> is_hex_digit(#[trigger] digits[j]),
            acc as int == hex_val(digits.take(k - start)),
            acc <= 255,
        decreases n - k,
    {
        let c = p.get_char(k);
        let cv = c as u32;
        let d: u32 = if 48 <= cv && cv <= 57 {
            cv - 48
        } else if 97 <= cv && cv <= 102 {
            cv - 87
        } else if 65 <= cv && cv <= 70 {
            cv - 55
        } else {
            proof {
                assert(digits[k - start] == p@[k as int]);
                assert(!is_hex_digit(digits[k - start]));
                assert(0 <= k - start < digits.len());
                assert(!all_hex_digits(digits));
                assert(parse_hex_u8(p@) is None);
            }
            return None;
        };
        proof {
            assert(digits[k - start] == p@[k as int]);
            assert(is_hex_digit(digits[k - start]));
            assert(digits.take(k - start + 1).drop_last() =~= digits.take(k - start));
            assert(digits.take(k - start + 1).last() == digits[k - start]);
            assert(d as int == hex_digit_val(digits[k - start]));
        }
        let next = acc * 16 + d;
        if next > 255 {
            proof {
                assert(hex_val(digits.take(k - start + 1)) == next);
                if all_hex_digits(digits) {
                    lemma_hex_val_take_le(digits, k - start + 1);
                    assert(hex_val(digits) > 255);
                }
                assert(parse_hex_u8(p@) is None);
            }
            return None;
        }
        acc = next;
        k += 1;
    }
    proof {
        assert(digits.take(n - start) =~= digits);
        assert(all_hex_digits(digits));
    }
    if neg && acc > 0 {
        return None;
    }
    Some(acc as u8)
}

/// Split on colons and parse every part: the number of parts, and their
/// byte values when every part parses.
fn split_parse(s: &str) -> (r: (usize, Option<Vec<u8>>))
    requires
        s@.len() < usize::MAX,
    ensures
        ({
            let parts = split_on(s@, ':');
            &&& r.0 == parts.len()
            &&& r.0 <= s@.len() + 1
            &&& match r.1 {
                Some(v) => v@.len() == parts.len() && (forall|k: int|
                    0 <= k < parts.len() ==> parse_hex_u8(#[trigger] parts[k]) == Some(v@[k])),
                None => exists|k: int|
                    0 <= k < parts.len() && parse_hex_u8(#[trigger] parts[k]) is None,
            }
        }),
    decreases s@.len(),
{
    let n = s.unicode_len();
    match find_sep(s, 0, ':') {
        None => {
            proof {
                lemma_split_on_no_sep(s@, ':');
            }
            match parse_hex_part(s) {
                Some(b) => {
                    let mut v: Vec<u8> = Vec::new();
                    v.push(b);
                    proof {
                        assert(split_on(s@, ':')[0] == s@);
                        assert(v@ =~= seq![b]);
                    }
                    (1, Some(v))
                },
                None => {
                    proof {
                        assert(split_on(s@, ':')[0] == s@);
                        assert(parse_hex_u8(split_on(s@, ':')[0]) is None);
                    }
                    (1, None)
                },
            }
        },
        Some(i) => {
            let head = s.substring_char(0, i);
            let tail = s.substring_char(i + 1, n);
            let ghost parts = split_on(s@, ':');
            proof {
                lemma_split_on_first(s@, ':', i as int);
                assert(head@ =~= s@.take(i as int));
                assert(tail@ =~= s@.skip(i as int + 1));
                assert(parts == seq![head@] + split_on(tail@, ':'));
            }
            let hp = parse_hex_part(head);
            let (cnt, rest) = split_parse(tail);
            let total = cnt + 1;
            proof {
                assert(parts.len() == cnt + 1);
                assert(parts[0] == head@);
                assert(forall|k: int|
                    0 <= k < cnt ==> #[trigger] parts[k + 1] == split_on(tail@, ':')[k]);
            }
            match (hp, rest) {
                (Some(b), Some(v)) => {
                    let mut v2 = v;
                    v2.insert(0, b);
                    proof {
                        assert forall|k: int| 0 <= k < parts.len() implies parse_hex_u8(
                            #[trigger] parts[k],
                        ) == Some(v2@[k]) by {
                            if k > 0 {
                                assert(parts[k] == split_on(tail@, ':')[k - 1]);
                                assert(v2@[k] == v@[k - 1]);
                            }
                        }
                    }
                    (total, Some(v2))
                },
                (None, _) => {
                    proof {
                        assert(parse_hex_u8(parts[0]) is None);
                    }
                    (total, None)
                },
                (_, None) => {
                    proof {
                        let k = choose|k: int|
                            0 <= k < split_on(tail@, ':').len() && parse_hex_u8(
                                #[trigger] split_on(tail@, ':')[k],
                            ) is None;
                        assert(parts[k + 1] == split_on(tail@, ':')[k]);
                        assert(parse_hex_u8(parts[k + 1]) is None);
                    }
                    (total, None)
                },
            }
        },
    }
}

/// One table slot: a binding of a MAC to a port, live while `occupied`.
#[derive(Clone, Copy, Debug)]
pub struct Entry {
    pub mac: MacAddress,
    pub port: u32,
    pub occupied: bool,
}

impl Entry {
    /// A free slot.
    pub fn new() -> (e: Self)
        ensures
            e == (Entry { mac: MacAddress(0, 0, 0, 0, 0, 0), port: 0, occupied: false }),
    {
        Entry { mac: MacAddress(0, 0, 0, 0, 0, 0), port: 0, occupied: false }
    }
}

/// How many slots of `s` are occupied.
pub open spec fn occupied_count(s: Seq<Entry>) -> int
    decreases s.len(),
{
    if s.len() == 0 {
        0
    } else {
        occupied_count(s.drop_last()) + if s.last().occupied {
            1int
        } else {
            0int
        }
    }
}

pub proof fn lemma_occupied_count_nonneg(s: Seq<Entry>)
    ensures
        0 <= occupied_count(s) <= s.len(),
    decreases s.len(),
{
    if s.len() > 0 {
        lemma_occupied_count_nonneg(s.drop_last());
    }
}

/// Replacing one slot moves the occupied count by the difference the slot
/// itself contributes.
pub proof fn lemma_occupied_count_update(s: Seq<Entry>, i: int, e: Entry)
    requires
        0 <= i < s.len(),
    ensures
        occupied_count(s.update(i, e)) == occupied_count(s) - (if s[i].occupied {
            1int
        } else {
            0int
        }) + (if e.occupied {
            1int
        } else {
            0int
        }),
    decreases s.len(),
{
    if i == s.len() - 1 {
        assert(s.update(i, e).drop_last() =~= s.drop_last());
    } else {
        assert(s.update(i, e).drop_last() =~= s.drop_last().update(i, e));
        lemma_occupied_count_update(s.drop_last(), i, e);
    }
}

/// An occupied slot witnesses a positive occupied count.
pub proof fn lemma_occupied_count_pos(s: Seq<Entry>, i: int)
    requires
        0 <= i < s.len(),
        s[i].occupied,
    ensures
        occupied_count(s) >= 1,
    decreases s.len(),
{
    if i == s.len() - 1 {
        lemma_occupied_count_nonneg(s.drop_last());
    } else {
        lemma_occupied_count_pos(s.drop_last(), i);
    }
}

/// The primary hash: the folded address modulo the table size.
pub open spec fn spec_h1(folded: u32, size: int) -> int {
    folded as int % size
}

/// The secondary hash, the probe stride: never zero, so probing moves.
pub open spec fn spec_h2(folded: u32, size: int) -> int {
    1 + folded as int % (size - 1)
}

/// The slot inspected on probe `j`.
pub open spec fn probe_at(folded: u32, j: int, size: int) -> int {
    (spec_h1(folded, size) + j * spec_h2(folded, size)) % size
}

/// What a probe walk runs into.
pub enum ProbeResult {
    /// The slot at this index holds the sought MAC.
    Found(int),
    /// The slot at this index is free; the MAC is not in the table.
    Vacant(int),
    /// `size` probes hit foreign occupied slots; the walk gives up.
    Exhausted,
}

/// Walk the probe sequence from probe `j`: stop at the first free slot or
/// at the first slot holding `mac`, and give up after `size` probes.
pub open spec fn probe_find(table: Seq<Entry>, mac: MacAddress, folded: u32, j: int) -> ProbeResult
    decreases table.len() - j,
{
    if j < 0 || j >= table.len() {
        ProbeResult::Exhausted
    } else {
        let idx = probe_at(folded, j, table.len() as int);
        if !table[idx].occupied {
            ProbeResult::Vacant(idx)
        } else if table[idx].mac == mac {
            ProbeResult::Found(idx)
        } else {
            probe_find(table, mac, folded, j + 1)
        }
    }
}

/// The port table: `size` slots, `count` of them occupied.
pub struct HashTable {
    table: Vec<Entry>,
    size: usize,
    count: usize,
}

impl HashTable {
    /// The slots as they stand.
    pub closed spec fn entries(self) -> Seq<Entry> {
        self.table@
    }

    pub closed spec fn spec_size(self) -> usize {
        self.size
    }

    pub closed spec fn spec_count(self) -> usize {
        self.count
    }

    /// Well-formed: the slot vector has exactly `size` slots, the size is
    /// small enough that probe arithmetic cannot overflow, and `count` is
    /// the number of occupied slots.
    pub closed spec fn wf(self) -> bool {
        &&& self.table@.len() == self.size
        &&& 2 <= self.size <= 0xFFFF_FFFF
        &&& self.count as int == occupied_count(self.table@)
    }

    /// A table of `size` free slots.
    pub fn new(size: usize) -> (t: Self)
        requires
            2 <= size <= 0xFFFF_FFFF,
        ensures
            t.wf(),
            t.spec_size() == size,
            t.spec_count() == 0,
            t.entries().len() == size,
            forall|k: int| 0 <= k < size ==> !(#[trigger] t.entries()[k]).occupied,
    {
        let mut table: Vec<Entry> = Vec::new();
        let mut k: usize = 0;
        while k < size
            invariant
                k <= size,
                table@.len() == k,
                occupied_count(table@) == 0,
                forall|j: int| 0 <= j < k ==> !(#[trigger] table@[j]).occupied,
            decreases size - k,
        {
            let ghost before = table@;
            table.push(Entry::new());
            proof {
                assert(table@.drop_last() =~= before);
            }
            k += 1;
        }
        HashTable { table, size, count: 0 }
    }

    /// How many slots are occupied.
    pub fn count(&self) -> (c: usize)
        ensures
            c == self.spec_count(),
    {
        self.count
    }

    /// How many slots the table has.
    pub fn size(&self) -> (s: usize)
        ensures
            s == self.spec_size(),
    {
        self.size
    }

    /// The primary hash of a folded address for this table.
    pub fn hash1(&self, folded: u32) -> (h: usize)
        requires
            self.wf(),
        ensures
            h as int == spec_h1(folded, self.spec_size() as int),
            h < self.spec_size(),
    {
        (folded as usize) % self.size
    }

    /// The secondary hash of a folded address: the probe stride, in
    /// `1 .. size`.
    pub fn hash2(&self, folded: u32) -> (h: usize)
        requires
            self.wf(),
        ensures
            h as int == spec_h2(folded, self.spec_size() as int),
            1 <= h < self.spec_size(),
    {
        let h2 = 1 + ((folded as usize) % (self.size - 1));
        h2
    }

    /// Bind `mac` to `port`. A full table is refused outright. Otherwise
    /// the probe walk decides: a slot already holding `mac` gets the new
    /// port, the first free slot takes the new binding, and a walk that
    /// gives up after `size` occupied foreign slots reports failure.
    pub fn insert(&mut self, mac: MacAddress, port: u32) -> (r: Result<(), String>)
        requires
            old(self).wf(),
        ensures
            final(self).wf(),
            final(self).spec_size() == old(self).spec_size(),
            ({
                let t = old(self).entries();
                let folded = spec_fold(mac);
                if old(self).spec_count() >= old(self).spec_size() {
                    &&& r is Err
                    &&& r->Err_0@ == "hash table is full"@
                    &&& *final(self) == *old(self)
                } else {
                    match probe_find(t, mac, folded, 0) {
                        ProbeResult::Found(i) => r is Ok && final(self).entries() == t.update(
                            i,
                            (Entry { mac, port, occupied: true }),
                        ) && final(self).spec_count() == old(self).spec_count(),
                        ProbeResult::Vacant(i) => r is Ok && final(self).entries() == t.update(
                            i,
                            (Entry { mac, port, occupied: true }),
                        ) && final(self).spec_count() == old(self).spec_count() + 1,
                        ProbeResult::Exhausted => r is Err && r->Err_0@
                            == "could not find empty slot"@ && *final(self) == *old(self),
                    }
                }
            }),
    {
        if self.count >= self.size {
            return Err(String::from_str("hash table is full"));
        }
        let folded = mac.fold_to_32bit();
        let h1 = self.hash1(folded);
        let h2 = self.hash2(folded);
        let ghost t = self.table@;
        let ghost sz = self.size as int;
        let mut index = h1;
        let mut probes: usize = 0;
        proof {
            vstd::arithmetic::div_mod::lemma_small_mod(h1 as nat, self.size as nat);
            assert(probe_at(folded, 0, sz) == h1 as int);
        }
        while self.table[index].occupied && probes < self.size
            invariant
                *self == *old(self),
                self.wf(),
                old(self).spec_count() < old(self).spec_size(),
                folded == spec_fold(mac),
                t == self.table@,
                sz == self.size as int,
                h1 as int == spec_h1(folded, sz),
                h2 as int == spec_h2(folded, sz),
                1 <= h2 < self.size,
                probes <= self.size,
                index < self.size,
                index as int == probe_at(folded, probes as int, sz),
                probe_find(t, mac, folded, probes as int) == probe_find(t, mac, folded, 0),
            decreases self.size - probes,
        {
            if self.table[index].mac == mac {
                let mut e = self.table[index];
                e.port = port;
                self.table[index] = e;
                proof {
                    assert(probe_find(t, mac, folded, probes as int) == ProbeResult::Found(
                        index as int,
                    ));
                    assert(e == (Entry { mac: t[index as int].mac, port, occupied: true }));
                    assert(self.table@ =~= t.update(
                        index as int,
                        (Entry { mac, port, occupied: true }),
                    ));
                    lemma_occupied_count_update(
                        t,
                        index as int,
                        (Entry { mac, port, occupied: true }),
                    );
                }
                return Ok(());
            }
            probes += 1;
            proof {
                assert((probes as u64) * (h2 as u64) <= 0xFFFF_FFFFu64 * 0xFFFF_FFFFu64)
                    by (nonlinear_arith)
                    requires
                        probes <= 0xFFFF_FFFFusize,
                        h2 <= 0xFFFF_FFFFusize,
                ;
            }
            let wide = (h1 as u64) + (probes as u64) * (h2 as u64);
            index = (wide % (self.size as u64)) as usize;
        }
        if probes >= self.size {
            proof {
                assert(probe_find(t, mac, folded, probes as int) == ProbeResult::Exhausted);
            }
            return Err(String::from_str("could not find empty slot"));
        }
        proof {
            assert(probe_find(t, mac, folded, probes as int) == ProbeResult::Vacant(index as int));
            lemma_occupied_count_update(t, index as int, (Entry { mac, port, occupied: true }));
        }
        self.table[index] = Entry { mac, port, occupied: true };
        self.count += 1;
        proof {
            assert(self.table@ =~= t.update(index as int, (Entry { mac, port, occupied: true })));
        }
        Ok(())
    }

    /// The port bound to `mac`, if the probe walk finds its slot before a
    /// free slot or giving up.
    pub fn lookup(&self, mac: MacAddress) -> (r: Option<u32>)
        requires
            self.wf(),
        ensures
            r == (match probe_find(self.entries(), mac, spec_fold(mac), 0) {
                ProbeResult::Found(i) => Some(self.entries()[i].port),
                ProbeResult::Vacant(i) => None::<u32>,
                ProbeResult::Exhausted => None::<u32>,
            }),
    {
        let folded = mac.fold_to_32bit();
        let h1 = self.hash1(folded);
        let h2 = self.hash2(folded);
        let ghost t = self.table@;
        let ghost sz = self.size as int;
        let mut index = h1;
        let mut probes: usize = 0;
        proof {
            vstd::arithmetic::div_mod::lemma_small_mod(h1 as nat, self.size as nat);
            assert(probe_at(folded, 0, sz) == h1 as int);
        }
        while probes < self.size
            invariant
                self.wf(),
                folded == spec_fold(mac),
                t == self.table@,
                sz == self.size as int,
                h1 as int == spec_h1(folded, sz),
                h2 as int == spec_h2(folded, sz),
                1 <= h2 < self.size,
                probes <= self.size,
                index < self.size,
                index as int == probe_at(folded, probes as int, sz),
                probe_find(t, mac, folded, probes as int) == probe_find(t, mac, folded, 0),
            decreases self.size - probes,
        {
            if !self.table[index].occupied {
                return None;
            }
            if self.table[index].mac == mac {
                return Some(self.table[index].port);
            }
            probes += 1;
            proof {
                assert((probes as u64) * (h2 as u64) <= 0xFFFF_FFFFu64 * 0xFFFF_FFFFu64)
                    by (nonlinear_arith)
                    requires
                        probes <= 0xFFFF_FFFFusize,
                        h2 <= 0xFFFF_FFFFusize,
                ;
            }
            let wide = (h1 as u64) + (probes as u64) * (h2 as u64);
            index = (wide % (self.size as u64)) as usize;
        }
        None
    }

    /// Unbind `mac`: its slot, when the probe walk finds one, is marked
    /// free with its contents left in place, and the count drops by one.
    /// Returns whether a slot was freed.
    pub fn delete(&mut self, mac: MacAddress) -> (r: bool)
        requires
            old(self).wf(),
        ensures
            final(self).wf(),
            final(self).spec_size() == old(self).spec_size(),
            ({
                let t = old(self).entries();
                match probe_find(t, mac, spec_fold(mac), 0) {
                    ProbeResult::Found(i) => r && final(self).entries() == t.update(
                        i,
                        (Entry { mac: t[i].mac, port: t[i].port, occupied: false }),
                    ) && final(self).spec_count() == old(self).spec_count() - 1,
                    ProbeResult::Vacant(i) => !r && *final(self) == *old(self),
                    ProbeResult::Exhausted => !r && *final(self) == *old(self),
                }
            }),
    {
        let folded = mac.fold_to_32bit();
        let h1 = self.hash1(folded);
        let h2 = self.hash2(folded);
        let ghost t = self.table@;
        let ghost sz = self.size as int;
        let mut index = h1;
        let mut probes: usize = 0;
        proof {
            vstd::arithmetic::div_mod::lemma_small_mod(h1 as nat, self.size as nat);
            assert(probe_at(folded, 0, sz) == h1 as int);
        }
        while probes < self.size
            invariant
                *self == *old(self),
                self.wf(),
                folded == spec_fold(mac),
                t == self.table@,
                sz == self.size as int,
                h1 as int == spec_h1(folded, sz),
                h2 as int == spec_h2(folded, sz),
                1 <= h2 < self.size,
                probes <= self.size,
                index < self.size,
                index as int == probe_at(folded, probes as int, sz),
                probe_find(t, mac, folded, probes as int) == probe_find(t, mac, folded, 0),
            decreases self.size - probes,
        {
            if !self.table[index].occupied {
                return false;
            }
            if self.table[index].mac == mac {
                proof {
                    assert(probe_find(t, mac, folded, probes as int) == ProbeResult::Found(
                        index as int,
                    ));
                    lemma_occupied_count_pos(t, index as int);
                    lemma_occupied_count_update(
                        t,
                        index as int,
                        (Entry { mac: t[index as int].mac, port: t[index as int].port, occupied: false }),
                    );
                }
                let mut e = self.table[index];
                e.occupied = false;
                self.table[index] = e;
                self.count -= 1;
                proof {
                    assert(self.table@ =~= t.update(
                        index as int,
                        (Entry { mac: t[index as int].mac, port: t[index as int].port, occupied: false }),
                    ));
                }
                return true;
            }
            probes += 1;
            proof {
                assert((probes as u64) * (h2 as u64) <= 0xFFFF_FFFFu64 * 0xFFFF_FFFFu64)
                    by (nonlinear_arith)
                    requires
                        probes <= 0xFFFF_FFFFusize,
                        h2 <= 0xFFFF_FFFFusize,
                ;
            }
            let wide = (h1 as u64) + (probes as u64) * (h2 as u64);
            index = (wide % (self.size as u64)) as usize;
        }
        false
    }
}

} // verus!
