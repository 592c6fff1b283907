//! Bit-level model of IPv4 prefixes: an address as a sequence of 32 bits
//! (most significant first), a route prefix as the sequence of its top bits,
//! and the mask form of prefix matching used by the search tree.

use vstd::prelude::*;

verus! {

/// The view of an optional next hop as an optional character sequence.
pub open spec fn hop_view(h: Option<String>) -> Option<Seq<char>> {
    match h {
        Some(s) => Some(s@),
        None => None,
    }
}

/// Bit `i` of `x` (bit 31 is the most significant), as a boolean.
pub open spec fn bit_of(x: u32, i: u32) -> bool {
    ((x >> i) & 1) == 1
}

/// The 32 bits of an address, most significant first.
pub open spec fn addr_bits(a: u32) -> Seq<bool> {
    Seq::new(32, |k: int| bit_of(a, (31 - k) as u32))
}

/// The top `len` bits of a prefix, most significant first.
/// Bits beyond `len` are not part of the route and do not appear here.
pub open spec fn prefix_bits(p: u32, len: int) -> Seq<bool> {
    Seq::new(len as nat, |k: int| bit_of(p, (31 - k) as u32))
}

/// The bits of `p` at depths `depth` (inclusive) to `len` (exclusive):
/// the part of a prefix still to be consumed after `depth` bits of a descent.
pub open spec fn suffix_bits(p: u32, depth: int, len: int) -> Seq<bool> {
    Seq::new((len - depth) as nat, |k: int| bit_of(p, (31 - depth - k) as u32))
}

/// The mask that keeps the top `len` bits of an address.
pub open spec fn mask_of(len: int) -> u32 {
    if len <= 0 {
        0u32
    } else {
        0xFFFF_FFFFu32 << ((32 - len) as u32)
    }
}

/// A route `(prefix, len)` applies to address `a` when the top `len` bits
/// of `a` equal the top `len` bits of the prefix, stated with the mask.
pub open spec fn masked_matches(prefix: u32, len: int, a: u32) -> bool {
    (a & mask_of(len)) == (prefix & mask_of(len))
}

/// A route `(prefix, len)` applies to address `a`, stated over bits:
/// the route's bit path is a prefix of the address's bit path.
pub open spec fn route_matches(prefix: u32, len: int, a: u32) -> bool {
    prefix_bits(prefix, len) == addr_bits(a).take(len)
}

/// A prefix consumed down to its full length leaves an empty suffix, and
/// starting at depth zero the suffix is the whole prefix path.
pub proof fn lemma_suffix_bits_full(p: u32, len: int)
    ensures
        suffix_bits(p, 0, len) =~= prefix_bits(p, len),
        suffix_bits(p, len, len) =~= Seq::<bool>::empty(),
{
}

/// One step of consuming a prefix path: its head is the bit at the current
/// depth and its tail is the path from the next depth down.
pub proof fn lemma_suffix_bits_unfold(p: u32, depth: int, len: int)
    requires
        0 <= depth < len <= 32,
    ensures
        suffix_bits(p, depth, len).len() == len - depth,
        suffix_bits(p, depth, len)[0] == bit_of(p, (31 - depth) as u32),
        suffix_bits(p, depth, len).drop_first() =~= suffix_bits(p, depth + 1, len),
{
}

/// The mask statement and the bit statement of prefix matching agree.
pub proof fn lemma_masked_matches_is_route_matches(prefix: u32, len: int, a: u32)
    requires
        0 <= len <= 32,
    ensures
        masked_matches(prefix, len, a) == route_matches(prefix, len, a),
    decreases len,
{
    if len == 0 {
        assert((a & 0u32) == (prefix & 0u32)) by (bit_vector);
        assert(prefix_bits(prefix, 0) =~= addr_bits(a).take(0));
    } else {
        lemma_masked_matches_is_route_matches(prefix, len - 1, a);
        let l = len as u32;
        let s = (32 - l) as u32;
        let ml = mask_of(len);
        let ml1 = mask_of(len - 1);
        assert((a & ml) == (prefix & ml) <==> ((a & ml1) == (prefix & ml1) && (((a >> s) & 1)
            == 1) == (((prefix >> s) & 1) == 1))) by (bit_vector)
            requires
                1 <= l <= 32,
                s == (32 - l) as u32,
                ml == 0xFFFF_FFFFu32 << ((32 - l) as u32),
                l == 1 ==> ml1 == 0u32,
                l >= 2 ==> ml1 == 0xFFFF_FFFFu32 << ((33 - l) as u32),
        ;
        assert(bit_of(a, s) == (((a >> s) & 1) == 1));
        assert(bit_of(prefix, s) == (((prefix >> s) & 1) == 1));
        assert(prefix_bits(prefix, len)[len - 1] == bit_of(prefix, s));
        assert(addr_bits(a)[len - 1] == bit_of(a, s));
        if masked_matches(prefix, len, a) {
            assert(masked_matches(prefix, len - 1, a));
            assert(route_matches(prefix, len - 1, a));
            assert(bit_of(prefix, s) == bit_of(a, s));
            assert forall|k: int| 0 <= k < len implies prefix_bits(prefix, len)[k] == addr_bits(
                a,
            ).take(len)[k] by {
                if k < len - 1 {
                    assert(prefix_bits(prefix, len - 1)[k] == addr_bits(a).take(len - 1)[k]);
                    assert(prefix_bits(prefix, len - 1)[k] == prefix_bits(prefix, len)[k]);
                    assert(addr_bits(a).take(len - 1)[k] == addr_bits(a)[k]);
                }
            }
            assert(prefix_bits(prefix, len) =~= addr_bits(a).take(len));
            assert(route_matches(prefix, len, a));
        }
        if route_matches(prefix, len, a) {
            assert(prefix_bits(prefix, len)[len - 1] == addr_bits(a).take(len)[len - 1]);
            assert(bit_of(prefix, s) == bit_of(a, s));
            assert forall|k: int| 0 <= k < len - 1 implies #[trigger] prefix_bits(
                prefix,
                len - 1,
            )[k] == addr_bits(a).take(len - 1)[k] by {
                assert(prefix_bits(prefix, len)[k] == addr_bits(a).take(len)[k]);
            }
            assert(prefix_bits(prefix, len - 1) =~= addr_bits(a).take(len - 1));
            assert(route_matches(prefix, len - 1, a));
            assert(masked_matches(prefix, len - 1, a));
            assert(masked_matches(prefix, len, a));
        }
    }
}

} // verus!
