//! Binary radix trie for longest-prefix-match lookup. Each level of the trie
//! consumes one bit of an address, most significant first; a node reached by
//! consuming the top `len` bits of a prefix may carry the next hop of the
//! route `(prefix, len)`. Lookup walks at most 32 levels and keeps the
//! deepest next hop seen, so the deepest (most specific) route wins.

use vstd::prelude::*;

use crate::bits::addr_bits;
use crate::bits::bit_of;
use crate::bits::hop_view;
use crate::bits::lemma_suffix_bits_full;
use crate::bits::lemma_suffix_bits_unfold;
use crate::bits::prefix_bits;
use crate::bits::suffix_bits;

verus! {

pub struct TrieNode {
    left: Option<Box<TrieNode>>,
    right: Option<Box<TrieNode>>,
    next_hop: Option<String>,
}

/// The route stored under `path` in an optional subtree.
pub open spec fn optional_route(node: Option<Box<TrieNode>>, path: Seq<bool>) -> Option<
    Seq<char>,
> {
    match node {
        Some(c) => c.spec_route(path),
        None => None,
    }
}

impl TrieNode {
    /// The next hop configured for the route whose bit path is exactly
    /// `path`, descending left on `false` and right on `true`.
    pub closed spec fn spec_route(self, path: Seq<bool>) -> Option<Seq<char>>
        decreases self,
    {
        if path.len() == 0 {
            hop_view(self.next_hop)
        } else {
            let child = if path[0] {
                self.right
            } else {
                self.left
            };
            match child {
                Some(c) => c.spec_route(path.drop_first()),
                None => None,
            }
        }
    }

    /// What a walk along `bits` returns: the route stored deepest along the
    /// walk, where the walk stops at a missing child.
    pub closed spec fn spec_lookup(self, bits: Seq<bool>) -> Option<Seq<char>>
        decreases self,
    {
        let here = hop_view(self.next_hop);
        if bits.len() == 0 {
            here
        } else {
            let child = if bits[0] {
                self.right
            } else {
                self.left
            };
            match child {
                Some(c) => match c.spec_lookup(bits.drop_first()) {
                    Some(h) => Some(h),
                    None => here,
                },
                None => here,
            }
        }
    }

    /// An empty trie: no children, no route stored anywhere.
    pub fn new() -> (t: Self)
        ensures
            forall|path: Seq<bool>| t.spec_route(path) is None,
    {
        TrieNode { left: None, right: None, next_hop: None }
    }

    fn insert_child(
        node: &mut Option<Box<TrieNode>>,
        prefix: u32,
        prefix_len: u8,
        depth: u8,
        next_hop: String,
    )
        requires
            depth < prefix_len,
            prefix_len <= 32,
        ensures
            forall|path: Seq<bool>|
                optional_route(*final(node), path) == (if path == suffix_bits(
                    prefix,
                    depth as int + 1,
                    prefix_len as int,
                ) {
                    Some(next_hop@)
                } else {
                    optional_route(*old(node), path)
                }),
        decreases prefix_len - depth, 0int,
    {
        match node.take() {
            None => {
                let mut fresh = TrieNode::new();
                fresh.insert_descend(prefix, prefix_len, depth + 1, next_hop);
                *node = Some(Box::new(fresh));
            },
            Some(mut boxed) => {
                (&mut *boxed).insert_descend(prefix, prefix_len, depth + 1, next_hop);
                *node = Some(boxed);
            },
        }
    }

    fn insert_descend(&mut self, prefix: u32, prefix_len: u8, depth: u8, next_hop: String)
        requires
            depth <= prefix_len,
            prefix_len <= 32,
        ensures
            forall|path: Seq<bool>|
                final(self).spec_route(path) == (if path == suffix_bits(
                    prefix,
                    depth as int,
                    prefix_len as int,
                ) {
                    Some(next_hop@)
                } else {
                    old(self).spec_route(path)
                }),
        decreases prefix_len - depth, 1int,
    {
        if depth == prefix_len {
            self.next_hop = Some(next_hop);
            proof {
                let sfx = suffix_bits(prefix, depth as int, prefix_len as int);
                assert(sfx =~= Seq::<bool>::empty());
                assert forall|path: Seq<bool>|
                    final(self).spec_route(path) == (if path == sfx {
                        Some(next_hop@)
                    } else {
                        old(self).spec_route(path)
                    }) by {
                    if path.len() == 0 {
                        assert(path =~= sfx);
                    } else {
                        assert(path != sfx);
                    }
                }
            }
        } else {
            let bit = ((prefix >> ((31 - depth) as u32)) & 1) == 1;
            proof {
                lemma_suffix_bits_unfold(prefix, depth as int, prefix_len as int);
            }
            if bit {
                Self::insert_child(&mut self.right, prefix, prefix_len, depth, next_hop);
            } else {
                Self::insert_child(&mut self.left, prefix, prefix_len, depth, next_hop);
            }
            proof {
                let sfx = suffix_bits(prefix, depth as int, prefix_len as int);
                let tail = suffix_bits(prefix, depth as int + 1, prefix_len as int);
                assert forall|path: Seq<bool>|
                    final(self).spec_route(path) == (if path == sfx {
                        Some(next_hop@)
                    } else {
                        old(self).spec_route(path)
                    }) by {
                    if path.len() == 0 {
                        assert(path != sfx);
                    } else {
                        let q = path.drop_first();
                        if path[0] {
                            assert(final(self).spec_route(path) == optional_route(
                                final(self).right,
                                q,
                            ));
                            assert(old(self).spec_route(path) == optional_route(
                                old(self).right,
                                q,
                            ));
                        } else {
                            assert(final(self).spec_route(path) == optional_route(
                                final(self).left,
                                q,
                            ));
                            assert(old(self).spec_route(path) == optional_route(
                                old(self).left,
                                q,
                            ));
                        }
                        if path[0] == bit && path.drop_first() == tail {
                            assert forall|k: int| 0 <= k < path.len() implies path[k]
                                == sfx[k] by {
                                if k > 0 {
                                    assert(path[k] == path.drop_first()[k - 1]);
                                    assert(sfx[k] == tail[k - 1]);
                                }
                            }
                            assert(path =~= sfx);
                        }
                        if path == sfx {
                            assert(path[0] == bit && path.drop_first() == tail);
                        }
                    }
                }
            }
        }
    }

    /// Store `next_hop` for the route given by the top `prefix_len` bits of
    /// `prefix`; bits beyond the prefix length are ignored. Every other
    /// route is left as it was; reinserting the same prefix and length
    /// replaces the earlier next hop. A zero-length prefix sets the default
    /// route at the root.
    pub fn insert(&mut self, prefix: u32, prefix_len: u8, next_hop: String)
        requires
            prefix_len <= 32,
        ensures
            forall|path: Seq<bool>|
                final(self).spec_route(path) == (if path == prefix_bits(
                    prefix,
                    prefix_len as int,
                ) {
                    Some(next_hop@)
                } else {
                    old(self).spec_route(path)
                }),
    {
        proof {
            lemma_suffix_bits_full(prefix, prefix_len as int);
        }
        self.insert_descend(prefix, prefix_len, 0, next_hop);
    }

    fn lookup_descend(&self, ip: u32, depth: u8) -> (r: Option<String>)
        requires
            depth <= 32,
        ensures
            hop_view(r) == self.spec_lookup(suffix_bits(ip, depth as int, 32)),
        decreases 32 - depth,
    {
        let here = match &self.next_hop {
            Some(h) => Some(h.clone()),
            None => None,
        };
        if depth == 32 {
            proof {
                assert(suffix_bits(ip, 32, 32) =~= Seq::<bool>::empty());
            }
            here
        } else {
            proof {
                lemma_suffix_bits_unfold(ip, depth as int, 32);
            }
            let bit = ((ip >> ((31 - depth) as u32)) & 1) == 1;
            proof {
                assert(suffix_bits(ip, depth as int, 32)[0] == bit_of(ip, (31 - depth) as u32));
            }
            let child = if bit {
                &self.right
            } else {
                &self.left
            };
            match child {
                None => here,
                Some(c) => match c.lookup_descend(ip, depth + 1) {
                    Some(h) => Some(h),
                    None => here,
                },
            }
        }
    }

    /// A walk returns exactly the deepest route stored along the walked bit
    /// path: it returns `None` only when no prefix of the path holds a
    /// route, and otherwise the route at the greatest depth holding one.
    pub proof fn lemma_lookup_is_deepest(self, bits: Seq<bool>)
        ensures
            self.spec_lookup(bits) is None ==> forall|l: int|
                0 <= l <= bits.len() ==> self.spec_route(#[trigger] bits.take(l)) is None,
            self.spec_lookup(bits) is Some ==> exists|l: int|
                0 <= l <= bits.len() && self.spec_lookup(bits) == self.spec_route(
                    #[trigger] bits.take(l),
                ) && self.spec_route(bits.take(l)) is Some && (forall|l2: int|
                    l < l2 <= bits.len() ==> self.spec_route(#[trigger] bits.take(l2)) is None),
        decreases self,
    {
        assert(bits.take(0) =~= Seq::<bool>::empty());
        assert(self.spec_route(bits.take(0)) == hop_view(self.next_hop));
        if bits.len() == 0 {
            assert(bits.take(0) =~= bits);
            if self.spec_lookup(bits) is Some {
                assert(0 <= 0 <= bits.len() && self.spec_lookup(bits) == self.spec_route(
                    bits.take(0),
                ) && self.spec_route(bits.take(0)) is Some && (forall|l2: int|
                    0 < l2 <= bits.len() ==> self.spec_route(#[trigger] bits.take(l2)) is None));
            }
        } else {
            let child = if bits[0] {
                self.right
            } else {
                self.left
            };
            let q = bits.drop_first();
            assert forall|l: int| 1 <= l <= bits.len() implies self.spec_route(
                #[trigger] bits.take(l),
            ) == optional_route(child, q.take(l - 1)) by {
                assert(bits.take(l)[0] == bits[0]);
                assert(bits.take(l).drop_first() =~= q.take(l - 1));
            }
            match child {
                None => {
                    assert(self.spec_lookup(bits) == hop_view(self.next_hop));
                    if self.spec_lookup(bits) is Some {
                        assert(0 <= 0 <= bits.len() && self.spec_lookup(bits) == self.spec_route(
                            bits.take(0),
                        ) && self.spec_route(bits.take(0)) is Some && (forall|l2: int|
                            0 < l2 <= bits.len() ==> self.spec_route(
                                #[trigger] bits.take(l2),
                            ) is None));
                    }
                },
                Some(c) => {
                    c.lemma_lookup_is_deepest(q);
                    let deeper = c.spec_lookup(q);
                    if deeper is Some {
                        assert(self.spec_lookup(bits) == deeper);
                        let lc = choose|lc: int|
                            0 <= lc <= q.len() && c.spec_lookup(q) == c.spec_route(
                                #[trigger] q.take(lc),
                            ) && c.spec_route(q.take(lc)) is Some && (forall|l2: int|
                                lc < l2 <= q.len() ==> c.spec_route(#[trigger] q.take(l2)) is None);
                        assert(self.spec_route(bits.take(lc + 1)) == c.spec_route(q.take(lc)));
                        assert forall|l2: int|
                            lc + 1 < l2 <= bits.len() implies self.spec_route(
                            #[trigger] bits.take(l2),
                        ) is None by {
                            assert(c.spec_route(q.take(l2 - 1)) is None);
                        }
                        assert(0 <= lc + 1 <= bits.len() && self.spec_lookup(bits)
                            == self.spec_route(bits.take(lc + 1)) && self.spec_route(
                            bits.take(lc + 1),
                        ) is Some && (forall|l2: int|
                            lc + 1 < l2 <= bits.len() ==> self.spec_route(
                                #[trigger] bits.take(l2),
                            ) is None));
                    } else {
                        assert(self.spec_lookup(bits) == hop_view(self.next_hop));
                        assert forall|l2: int| 0 < l2 <= bits.len() implies self.spec_route(
                            #[trigger] bits.take(l2),
                        ) is None by {
                            assert(c.spec_route(q.take(l2 - 1)) is None);
                        }
                        if self.spec_lookup(bits) is Some {
                            assert(0 <= 0 <= bits.len() && self.spec_lookup(bits)
                                == self.spec_route(bits.take(0)) && self.spec_route(
                                bits.take(0),
                            ) is Some && (forall|l2: int|
                                0 < l2 <= bits.len() ==> self.spec_route(
                                    #[trigger] bits.take(l2),
                                ) is None));
                        }
                    }
                },
            }
        }
    }

    /// The next hop of the most specific route covering `ip`, walking the
    /// trie for at most 32 levels, or `None` when no stored route covers it.
    pub fn lookup(&self, ip: u32) -> (r: Option<String>)
        ensures
            hop_view(r) == self.spec_lookup(addr_bits(ip)),
    {
        proof {
            assert(suffix_bits(ip, 0, 32) =~= addr_bits(ip));
        }
        self.lookup_descend(ip, 0)
    }
}

} // verus!
