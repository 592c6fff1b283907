//! Binary search tree over route prefixes, ordered by the raw numeric value
//! of the prefix. The ordering carries no information about prefix
//! containment, so a lookup must visit every node; it keeps the matching
//! route with the greatest prefix length seen so far in a pair of
//! accumulators, exactly as a pre-order fold over the stored routes.

use vstd::prelude::*;

use crate::bits::hop_view;
use crate::bits::mask_of;
use crate::bits::masked_matches;

verus! {

/// One step of the lookup accumulator: a route replaces the best seen so far
/// exactly when it matches the address and is strictly more specific.
pub open spec fn fold_best(
    s: Seq<(u32, u8, Seq<char>)>,
    ip: u32,
    best: Option<Seq<char>>,
    best_len: int,
) -> (Option<Seq<char>>, int)
    decreases s.len(),
{
    if s.len() == 0 {
        (best, best_len)
    } else {
        let r = s[0];
        if masked_matches(r.0, r.1 as int, ip) && r.1 as int > best_len {
            fold_best(s.drop_first(), ip, Some(r.2), r.1 as int)
        } else {
            fold_best(s.drop_first(), ip, best, best_len)
        }
    }
}

/// Folding nothing leaves the accumulator as it is.
pub proof fn lemma_fold_best_empty(ip: u32, best: Option<Seq<char>>, best_len: int)
    ensures
        fold_best(Seq::empty(), ip, best, best_len) == (best, best_len),
{
}

/// Folding a single route takes exactly one accumulator step.
pub proof fn lemma_fold_best_single(
    r: (u32, u8, Seq<char>),
    ip: u32,
    best: Option<Seq<char>>,
    best_len: int,
)
    ensures
        fold_best(seq![r], ip, best, best_len) == (if masked_matches(r.0, r.1 as int, ip)
            && r.1 as int > best_len {
            (Some(r.2), r.1 as int)
        } else {
            (best, best_len)
        }),
{
    assert(seq![r].drop_first() =~= Seq::<(u32, u8, Seq<char>)>::empty());
    if masked_matches(r.0, r.1 as int, ip) && r.1 as int > best_len {
        lemma_fold_best_empty(ip, Some(r.2), r.1 as int);
    } else {
        lemma_fold_best_empty(ip, best, best_len);
    }
}

/// Folding a concatenation folds the first part, then the second from the
/// accumulator the first part produced.
pub proof fn lemma_fold_best_concat(
    s1: Seq<(u32, u8, Seq<char>)>,
    s2: Seq<(u32, u8, Seq<char>)>,
    ip: u32,
    best: Option<Seq<char>>,
    best_len: int,
)
    ensures
        fold_best(s1 + s2, ip, best, best_len) == ({
            let mid = fold_best(s1, ip, best, best_len);
            fold_best(s2, ip, mid.0, mid.1)
        }),
    decreases s1.len(),
{
    if s1.len() == 0 {
        assert(s1 + s2 =~= s2);
    } else {
        assert((s1 + s2).drop_first() =~= s1.drop_first() + s2);
        let r = s1[0];
        if masked_matches(r.0, r.1 as int, ip) && r.1 as int > best_len {
            lemma_fold_best_concat(s1.drop_first(), s2, ip, Some(r.2), r.1 as int);
        } else {
            lemma_fold_best_concat(s1.drop_first(), s2, ip, best, best_len);
        }
    }
}

pub struct BSTNode {
    prefix: u32,
    prefix_len: u8,
    next_hop: String,
    left: Option<Box<BSTNode>>,
    right: Option<Box<BSTNode>>,
}

impl BSTNode {
    /// The routes stored in an optional subtree, in pre-order.
    pub closed spec fn opt_to_seq(node: Option<Box<BSTNode>>) -> Seq<(u32, u8, Seq<char>)>
        decreases node,
    {
        match node {
            None => Seq::empty(),
            Some(n) => n.to_seq(),
        }
    }

    /// The routes stored in this tree, in pre-order: the node's own route,
    /// then the left subtree's, then the right subtree's.
    pub closed spec fn to_seq(self) -> Seq<(u32, u8, Seq<char>)>
        decreases self,
    {
        seq![(self.prefix, self.prefix_len, self.next_hop@)] + Self::opt_to_seq(self.left)
            + Self::opt_to_seq(self.right)
    }

    /// The route bound at this node itself.
    pub closed spec fn head(self) -> (u32, u8, Seq<char>) {
        (self.prefix, self.prefix_len, self.next_hop@)
    }

    pub closed spec fn opt_wf(node: Option<Box<BSTNode>>) -> bool
        decreases node,
    {
        match node {
            None => true,
            Some(n) => n.wf(),
        }
    }

    /// Well-formedness: prefix lengths are at most 32, every prefix value in
    /// the left subtree is strictly below this node's, and every prefix value
    /// in the right subtree is at or above it.
    pub closed spec fn wf(self) -> bool
        decreases self,
    {
        &&& self.prefix_len <= 32
        &&& (forall|k: int|
            0 <= k < Self::opt_to_seq(self.left).len() ==> (#[trigger] Self::opt_to_seq(
                self.left,
            )[k]).0 < self.prefix)
        &&& (forall|k: int|
            0 <= k < Self::opt_to_seq(self.right).len() ==> (#[trigger] Self::opt_to_seq(
                self.right,
            )[k]).0 >= self.prefix)
        &&& Self::opt_wf(self.left)
        &&& Self::opt_wf(self.right)
    }

    /// The node's own route stands first in its pre-order view.
    pub proof fn lemma_head_is_first(self)
        ensures
            self.to_seq().len() >= 1,
            self.to_seq()[0] == self.head(),
    {
    }

    /// A single-node tree holding the given route.
    pub fn new(prefix: u32, prefix_len: u8, next_hop: String) -> (n: Self)
        requires
            prefix_len <= 32,
        ensures
            n.wf(),
            n.to_seq() == seq![(prefix, prefix_len, next_hop@)],
    {
        let n = BSTNode { prefix, prefix_len, next_hop, left: None, right: None };
        proof {
            assert(n.to_seq() =~= seq![(prefix, prefix_len, n.next_hop@)]);
        }
        n
    }

    fn insert_opt(node: &mut Option<Box<BSTNode>>, prefix: u32, prefix_len: u8, next_hop: String)
        requires
            Self::opt_wf(*old(node)),
            prefix_len <= 32,
        ensures
            Self::opt_wf(*final(node)),
            Self::opt_to_seq(*final(node)).to_multiset() == Self::opt_to_seq(
                *old(node),
            ).to_multiset().insert((prefix, prefix_len, next_hop@)),
        decreases *old(node),
    {
        broadcast use vstd::seq_lib::group_to_multiset_ensures;

        match node.take() {
            None => {
                let fresh = BSTNode::new(prefix, prefix_len, next_hop);
                proof {
                    let t = (prefix, prefix_len, fresh.next_hop@);
                    assert(seq![t] =~= Seq::<(u32, u8, Seq<char>)>::empty().push(t));
                    assert(seq![t].to_multiset() =~= Seq::<(u32, u8, Seq<char>)>::empty()
                        .to_multiset().insert(t));
                }
                *node = Some(Box::new(fresh));
            },
            Some(mut boxed) => {
                (&mut *boxed).insert(prefix, prefix_len, next_hop);
                *node = Some(boxed);
            },
        }
    }

    /// Place a route in the tree: strictly smaller prefix values descend
    /// left, equal or greater descend right, and a new leaf is created where
    /// a child is absent. The stored routes grow by exactly this triple;
    /// nothing is overwritten, so a repeated prefix value yields a second
    /// node rather than replacing the first.
    pub fn insert(&mut self, prefix: u32, prefix_len: u8, next_hop: String)
        requires
            old(self).wf(),
            prefix_len <= 32,
        ensures
            final(self).wf(),
            final(self).to_seq().to_multiset() == old(self).to_seq().to_multiset().insert(
                (prefix, prefix_len, next_hop@),
            ),
        decreases *old(self),
    {
        broadcast use vstd::seq_lib::group_to_multiset_ensures;
        broadcast use vstd::seq_lib::lemma_multiset_commutative;

        let ghost t = (prefix, prefix_len, next_hop@);
        let ghost head = seq![(self.prefix, self.prefix_len, self.next_hop@)];
        if prefix < self.prefix {
            Self::insert_opt(&mut self.left, prefix, prefix_len, next_hop);
            proof {
                let l = Self::opt_to_seq(old(self).left);
                let l2 = Self::opt_to_seq(final(self).left);
                let r = Self::opt_to_seq(final(self).right);
                assert(final(self).to_seq().to_multiset() =~= old(self).to_seq()
                    .to_multiset().insert(t)) by {
                    assert((head + l2 + r).to_multiset() == head.to_multiset().add(
                        l2.to_multiset(),
                    ).add(r.to_multiset()));
                    assert((head + l + r).to_multiset() == head.to_multiset().add(
                        l.to_multiset(),
                    ).add(r.to_multiset()));
                }
                assert forall|k: int| 0 <= k < l2.len() implies (#[trigger] l2[k]).0
                    < final(self).prefix by {
                    assert(l2.contains(l2[k]));
                    assert(l2.to_multiset().count(l2[k]) > 0);
                    if l2[k] != t {
                        assert(l.to_multiset().count(l2[k]) > 0);
                        assert(l.contains(l2[k]));
                        let j = choose|j: int| 0 <= j < l.len() && l[j] == l2[k];
                        assert((l[j]).0 < old(self).prefix);
                    }
                }
            }
        } else {
            Self::insert_opt(&mut self.right, prefix, prefix_len, next_hop);
            proof {
                let r = Self::opt_to_seq(old(self).right);
                let r2 = Self::opt_to_seq(final(self).right);
                let l = Self::opt_to_seq(final(self).left);
                assert(final(self).to_seq().to_multiset() =~= old(self).to_seq()
                    .to_multiset().insert(t)) by {
                    assert((head + l + r2).to_multiset() == head.to_multiset().add(
                        l.to_multiset(),
                    ).add(r2.to_multiset()));
                    assert((head + l + r).to_multiset() == head.to_multiset().add(
                        l.to_multiset(),
                    ).add(r.to_multiset()));
                }
                assert forall|k: int| 0 <= k < r2.len() implies (#[trigger] r2[k]).0
                    >= final(self).prefix by {
                    assert(r2.contains(r2[k]));
                    assert(r2.to_multiset().count(r2[k]) > 0);
                    if r2[k] != t {
                        assert(r.to_multiset().count(r2[k]) > 0);
                        assert(r.contains(r2[k]));
                        let j = choose|j: int| 0 <= j < r.len() && r[j] == r2[k];
                        assert((r[j]).0 >= old(self).prefix);
                    }
                }
            }
        }
    }

    /// Whether this node's route applies to `ip`: the address agrees with
    /// the stored prefix on the top `prefix_len` bits, compared under the
    /// mask that keeps exactly those bits.
    pub fn matches(&self, ip: u32) -> (r: bool)
        requires
            self.wf(),
        ensures
            r == masked_matches(self.head().0, self.head().1 as int, ip),
    {
        let mask = if self.prefix_len == 0 {
            0u32
        } else {
            0xFFFF_FFFFu32 << ((32 - self.prefix_len) as u32)
        };
        proof {
            assert(mask == mask_of(self.prefix_len as int));
        }
        (ip & mask) == (self.prefix & mask)
    }

    /// Visit every stored route — this node, then the whole left subtree,
    /// then the whole right subtree — and keep in the accumulators the
    /// matching route with the greatest prefix length, preferring the first
    /// one visited on equal lengths. The caller starts a fresh search with
    /// `best = None` and `best_len = -1`.
    pub fn lookup(&self, ip: u32, best: &mut Option<String>, best_len: &mut i32)
        requires
            self.wf(),
        ensures
            (hop_view(*final(best)), (*final(best_len)) as int) == fold_best(
                self.to_seq(),
                ip,
                hop_view(*old(best)),
                (*old(best_len)) as int,
            ),
        decreases self,
    {
        let ghost head = seq![(self.prefix, self.prefix_len, self.next_hop@)];
        let ghost l = Self::opt_to_seq(self.left);
        let ghost r = Self::opt_to_seq(self.right);
        let ghost b0 = hop_view(*old(best));
        let ghost n0 = (*old(best_len)) as int;
        if self.matches(ip) && (self.prefix_len as i32) > *best_len {
            *best_len = self.prefix_len as i32;
            *best = Some(self.next_hop.clone());
        }
        proof {
            assert(head =~= seq![(self.prefix, self.prefix_len, self.next_hop@)]);
            lemma_fold_best_single((self.prefix, self.prefix_len, self.next_hop@), ip, b0, n0);
            assert((hop_view(*best), *best_len as int) == fold_best(head, ip, b0, n0));
        }
        let ghost b1 = hop_view(*best);
        let ghost n1 = *best_len as int;
        match &self.left {
            Some(node) => node.lookup(ip, best, best_len),
            None => {
                proof {
                    lemma_fold_best_empty(ip, b1, n1);
                    assert(l =~= Seq::<(u32, u8, Seq<char>)>::empty());
                }
            },
        }
        proof {
            assert((hop_view(*best), *best_len as int) == fold_best(l, ip, b1, n1));
        }
        let ghost b2 = hop_view(*best);
        let ghost n2 = *best_len as int;
        match &self.right {
            Some(node) => node.lookup(ip, best, best_len),
            None => {
                proof {
                    lemma_fold_best_empty(ip, b2, n2);
                    assert(r =~= Seq::<(u32, u8, Seq<char>)>::empty());
                }
            },
        }
        proof {
            assert((hop_view(*best), *best_len as int) == fold_best(r, ip, b2, n2));
            lemma_fold_best_concat(head, l, ip, b0, n0);
            lemma_fold_best_concat(head + l, r, ip, b0, n0);
            assert(self.to_seq() == head + l + r);
        }
    }
}

} // verus!
