//! The laws the two lookup structures obey, proved against the contracts of
//! `trie` and `bst`: longest-match semantics of a route table, agreement of
//! the two structures, the 32-level depth bound of the trie walk, replacement
//! on reinsertion, and the default route.

use vstd::prelude::*;

use crate::bits::addr_bits;
use crate::bits::lemma_masked_matches_is_route_matches;
use crate::bits::masked_matches;
use crate::bits::prefix_bits;
use crate::bits::route_matches;
use crate::bst::fold_best;
use crate::bst::BSTNode;
use crate::trie::TrieNode;

verus! {

/// The route table written by a sequence of inserts, as a function from a
/// bit path to the next hop stored there: the latest insert of a path wins.
pub open spec fn table_route(rs: Seq<(u32, u8, Seq<char>)>, path: Seq<bool>) -> Option<Seq<char>>
    decreases rs.len(),
{
    if rs.len() == 0 {
        None
    } else if prefix_bits(rs.last().0, rs.last().1 as int) == path {
        Some(rs.last().2)
    } else {
        table_route(rs.drop_last(), path)
    }
}

/// An empty table stores no route.
pub proof fn lemma_table_route_empty(path: Seq<bool>)
    ensures
        table_route(Seq::empty(), path) is None,
{
}

/// Recording one more route changes the table at exactly that route's path,
/// which is how a built structure is related to its insert history.
pub proof fn lemma_table_route_extend(
    rs: Seq<(u32, u8, Seq<char>)>,
    r: (u32, u8, Seq<char>),
    path: Seq<bool>,
)
    ensures
        table_route(rs.push(r), path) == (if path == prefix_bits(r.0, r.1 as int) {
            Some(r.2)
        } else {
            table_route(rs, path)
        }),
{
    assert(rs.push(r).drop_last() =~= rs);
    assert(rs.push(r).last() == r);
}

/// A path of length `l` holds a route exactly when some inserted route has
/// prefix length `l` and matches the address; the stored hop is the hop of
/// the latest such route.
pub proof fn lemma_table_route_matching(rs: Seq<(u32, u8, Seq<char>)>, a: u32, l: int)
    requires
        0 <= l <= 32,
        forall|i: int| 0 <= i < rs.len() ==> (#[trigger] rs[i]).1 <= 32,
    ensures
        table_route(rs, addr_bits(a).take(l)) is Some <==> exists|i: int|
            0 <= i < rs.len() && (#[trigger] rs[i]).1 == l && route_matches(rs[i].0, l, a),
        table_route(rs, addr_bits(a).take(l)) is Some ==> exists|i: int|
            0 <= i < rs.len() && (#[trigger] rs[i]).1 == l && route_matches(rs[i].0, l, a)
                && table_route(rs, addr_bits(a).take(l)) == Some(rs[i].2) && (forall|j: int|
                i < j < rs.len() ==> !((#[trigger] rs[j]).1 == l && route_matches(
                    rs[j].0,
                    l,
                    a,
                ))),
    decreases rs.len(),
{
    let path = addr_bits(a).take(l);
    assert(path.len() == l);
    if rs.len() == 0 {
    } else {
        let r = rs.last();
        let rest = rs.drop_last();
        let n = rs.len() - 1;
        assert(forall|i: int| 0 <= i < rest.len() ==> #[trigger] rest[i] == rs[i]);
        lemma_table_route_matching(rest, a, l);
        if prefix_bits(r.0, r.1 as int) == path {
            assert(prefix_bits(r.0, r.1 as int).len() == r.1 as int);
            assert(r.1 == l);
            assert(route_matches(r.0, l, a));
            assert(0 <= n < rs.len() && (rs[n]).1 == l && route_matches(rs[n].0, l, a)
                && table_route(rs, path) == Some(rs[n].2) && (forall|j: int|
                n < j < rs.len() ==> !((#[trigger] rs[j]).1 == l && route_matches(
                    rs[j].0,
                    l,
                    a,
                ))));
        } else {
            assert(!(r.1 == l && route_matches(r.0, l, a))) by {
                if r.1 == l && route_matches(r.0, l, a) {
                    assert(prefix_bits(r.0, r.1 as int) == path);
                }
            }
            if table_route(rest, path) is Some {
                let i = choose|i: int|
                    0 <= i < rest.len() && (#[trigger] rest[i]).1 == l && route_matches(
                        rest[i].0,
                        l,
                        a,
                    ) && table_route(rest, path) == Some(rest[i].2) && (forall|j: int|
                        i < j < rest.len() ==> !((#[trigger] rest[j]).1 == l && route_matches(
                            rest[j].0,
                            l,
                            a,
                        )));
                assert(rest[i] == rs[i]);
                assert(table_route(rs, path) == table_route(rest, path));
                assert forall|j: int| i < j < rs.len() implies !((#[trigger] rs[j]).1 == l
                    && route_matches(rs[j].0, l, a)) by {
                    if j < rs.len() - 1 {
                        assert(rs[j] == rest[j]);
                    }
                }
                assert(0 <= i < rs.len() && (rs[i]).1 == l && route_matches(rs[i].0, l, a)
                    && table_route(rs, path) == Some(rs[i].2) && (forall|j: int|
                    i < j < rs.len() ==> !((#[trigger] rs[j]).1 == l && route_matches(
                        rs[j].0,
                        l,
                        a,
                    ))));
            } else {
                if exists|i: int|
                    0 <= i < rs.len() && (#[trigger] rs[i]).1 == l && route_matches(
                        rs[i].0,
                        l,
                        a,
                    ) {
                    let i = choose|i: int|
                        0 <= i < rs.len() && (#[trigger] rs[i]).1 == l && route_matches(
                            rs[i].0,
                            l,
                            a,
                        );
                    assert(i < n);
                    assert(rest[i] == rs[i]);
                    assert(false);
                }
            }
        }
    }
}

/// LONGEST MATCH. For a trie whose stored routes are exactly the table
/// written by the inserts `rs`, a lookup of `a` returns no route exactly
/// when no inserted route matches `a`; and whenever route `i` matches `a`,
/// no matching route is more specific, and no later insert repeats its
/// matching prefix at the same length, the lookup returns route `i`'s hop.
pub proof fn lemma_trie_longest_match(t: TrieNode, rs: Seq<(u32, u8, Seq<char>)>, a: u32)
    requires
        forall|path: Seq<bool>| #[trigger] t.spec_route(path) == table_route(rs, path),
        forall|i: int| 0 <= i < rs.len() ==> (#[trigger] rs[i]).1 <= 32,
    ensures
        t.spec_lookup(addr_bits(a)) is None <==> (forall|i: int|
            0 <= i < rs.len() ==> !route_matches((#[trigger] rs[i]).0, rs[i].1 as int, a)),
        forall|i: int|
            (0 <= i < rs.len() && route_matches((#[trigger] rs[i]).0, rs[i].1 as int, a) && (
            forall|j: int|
                0 <= j < rs.len() && route_matches((#[trigger] rs[j]).0, rs[j].1 as int, a)
                    ==> rs[j].1 <= rs[i].1) && (forall|j: int|
                i < j < rs.len() ==> !(route_matches((#[trigger] rs[j]).0, rs[j].1 as int, a)
                    && rs[j].1 == rs[i].1))) ==> t.spec_lookup(addr_bits(a)) == Some(rs[i].2),
{
    let bits = addr_bits(a);
    t.lemma_lookup_is_deepest(bits);
    if t.spec_lookup(bits) is None {
        assert forall|i: int| 0 <= i < rs.len() implies !route_matches(
            (#[trigger] rs[i]).0,
            rs[i].1 as int,
            a,
        ) by {
            if route_matches(rs[i].0, rs[i].1 as int, a) {
                let l = rs[i].1 as int;
                lemma_table_route_matching(rs, a, l);
                assert(table_route(rs, bits.take(l)) is Some);
                assert(t.spec_route(bits.take(l)) is Some);
                assert(false);
            }
        }
    } else {
        let lw = choose|lw: int|
            0 <= lw <= bits.len() && t.spec_lookup(bits) == t.spec_route(#[trigger] bits.take(lw))
                && t.spec_route(bits.take(lw)) is Some && (forall|l2: int|
                lw < l2 <= bits.len() ==> t.spec_route(#[trigger] bits.take(l2)) is None);
        lemma_table_route_matching(rs, a, lw);
        assert(table_route(rs, bits.take(lw)) is Some);
        assert(exists|i: int|
            0 <= i < rs.len() && (#[trigger] rs[i]).1 == lw && route_matches(rs[i].0, lw, a));
    }
    assert forall|i: int|
        (0 <= i < rs.len() && route_matches((#[trigger] rs[i]).0, rs[i].1 as int, a) && (forall|
            j: int,
        |
            0 <= j < rs.len() && route_matches((#[trigger] rs[j]).0, rs[j].1 as int, a) ==> rs[j].1
                <= rs[i].1) && (forall|j: int|
            i < j < rs.len() ==> !(route_matches((#[trigger] rs[j]).0, rs[j].1 as int, a)
                && rs[j].1 == rs[i].1))) implies t.spec_lookup(bits) == Some(rs[i].2) by {
        let ml = rs[i].1 as int;
        lemma_table_route_matching(rs, a, ml);
        assert(table_route(rs, bits.take(ml)) is Some);
        let iw = choose|iw: int|
            0 <= iw < rs.len() && (#[trigger] rs[iw]).1 == ml && route_matches(rs[iw].0, ml, a)
                && table_route(rs, bits.take(ml)) == Some(rs[iw].2) && (forall|j: int|
                iw < j < rs.len() ==> !((#[trigger] rs[j]).1 == ml && route_matches(
                    rs[j].0,
                    ml,
                    a,
                )));
        assert(iw == i) by {
            if iw < i {
                assert(!((rs[i]).1 == ml && route_matches(rs[i].0, ml, a)));
            }
            if i < iw {
                assert(!(route_matches(rs[iw].0, rs[iw].1 as int, a) && rs[iw].1 == rs[i].1));
            }
        }
        assert(t.spec_route(bits.take(ml)) == Some(rs[i].2));
        assert forall|l2: int| ml < l2 <= bits.len() implies t.spec_route(
            #[trigger] bits.take(l2),
        ) is None by {
            lemma_table_route_matching(rs, a, l2);
            if t.spec_route(bits.take(l2)) is Some {
                let j = choose|j: int|
                    0 <= j < rs.len() && (#[trigger] rs[j]).1 == l2 && route_matches(
                        rs[j].0,
                        l2,
                        a,
                    );
                assert(rs[j].1 <= rs[i].1);
                assert(false);
            }
        }
        assert(t.spec_lookup(bits) is Some);
        let lw = choose|lw: int|
            0 <= lw <= bits.len() && t.spec_lookup(bits) == t.spec_route(#[trigger] bits.take(lw))
                && t.spec_route(bits.take(lw)) is Some && (forall|l2: int|
                lw < l2 <= bits.len() ==> t.spec_route(#[trigger] bits.take(l2)) is None);
        assert(lw == ml) by {
            if lw < ml {
                assert(t.spec_route(bits.take(ml)) is None);
            }
            if ml < lw {
                assert(t.spec_route(bits.take(lw)) is None);
            }
        }
    }
}

/// DEPTH BOUND. A lookup of a 32-bit address inspects no more than 32 trie
/// levels: two tries that store the same routes on every path of length at
/// most 32 answer every lookup alike, whatever stands deeper.
pub proof fn lemma_depth_bound(t1: TrieNode, t2: TrieNode, a: u32)
    requires
        forall|path: Seq<bool>|
            path.len() <= 32 ==> #[trigger] t1.spec_route(path) == t2.spec_route(path),
    ensures
        t1.spec_lookup(addr_bits(a)) == t2.spec_lookup(addr_bits(a)),
{
    let bits = addr_bits(a);
    t1.lemma_lookup_is_deepest(bits);
    t2.lemma_lookup_is_deepest(bits);
    assert forall|l: int| 0 <= l <= 32 implies #[trigger] bits.take(l).len() <= 32 by {}
    if t1.spec_lookup(bits) is None {
        if t2.spec_lookup(bits) is Some {
            let lw = choose|lw: int|
                0 <= lw <= bits.len() && t2.spec_lookup(bits) == t2.spec_route(
                    #[trigger] bits.take(lw),
                ) && t2.spec_route(bits.take(lw)) is Some && (forall|l2: int|
                    lw < l2 <= bits.len() ==> t2.spec_route(#[trigger] bits.take(l2)) is None);
            assert(t1.spec_route(bits.take(lw)) is None);
            assert(false);
        }
    } else {
        let l1 = choose|l1: int|
            0 <= l1 <= bits.len() && t1.spec_lookup(bits) == t1.spec_route(#[trigger] bits.take(l1))
                && t1.spec_route(bits.take(l1)) is Some && (forall|l2: int|
                l1 < l2 <= bits.len() ==> t1.spec_route(#[trigger] bits.take(l2)) is None);
        if t2.spec_lookup(bits) is None {
            assert(t2.spec_route(bits.take(l1)) is None);
            assert(false);
        }
        let l2w = choose|l2w: int|
            0 <= l2w <= bits.len() && t2.spec_lookup(bits) == t2.spec_route(
                #[trigger] bits.take(l2w),
            ) && t2.spec_route(bits.take(l2w)) is Some && (forall|l2: int|
                l2w < l2 <= bits.len() ==> t2.spec_route(#[trigger] bits.take(l2)) is None);
        assert(l1 == l2w) by {
            if l1 < l2w {
                assert(t1.spec_route(bits.take(l2w)) is None);
                assert(t2.spec_route(bits.take(l2w)) is None);
            }
            if l2w < l1 {
                assert(t2.spec_route(bits.take(l1)) is None);
                assert(t1.spec_route(bits.take(l1)) is None);
            }
        }
    }
}

/// IDEMPOTENT REINSERTION. Inserting the same prefix and length twice with
/// different next hops leaves exactly one active mapping, holding the hop of
/// the most recent insert: the two updates collapse to the second one.
pub proof fn lemma_reinsert_replaces(
    t0: TrieNode,
    t1: TrieNode,
    t2: TrieNode,
    prefix: u32,
    prefix_len: u8,
    hop1: Seq<char>,
    hop2: Seq<char>,
)
    requires
        forall|path: Seq<bool>|
            #[trigger] t1.spec_route(path) == (if path == prefix_bits(prefix, prefix_len as int) {
                Some(hop1)
            } else {
                t0.spec_route(path)
            }),
        forall|path: Seq<bool>|
            #[trigger] t2.spec_route(path) == (if path == prefix_bits(prefix, prefix_len as int) {
                Some(hop2)
            } else {
                t1.spec_route(path)
            }),
    ensures
        forall|path: Seq<bool>|
            #[trigger] t2.spec_route(path) == (if path == prefix_bits(prefix, prefix_len as int) {
                Some(hop2)
            } else {
                t0.spec_route(path)
            }),
{
}

/// DEFAULT ROUTE. When a zero-length route with hop `H` is stored and no
/// longer stored prefix matches the address, the lookup resolves to `H`.
pub proof fn lemma_default_route(t: TrieNode, a: u32, hop: Seq<char>)
    requires
        t.spec_route(Seq::empty()) == Some(hop),
        forall|l: int| 1 <= l <= 32 ==> t.spec_route(#[trigger] addr_bits(a).take(l)) is None,
    ensures
        t.spec_lookup(addr_bits(a)) == Some(hop),
{
    let bits = addr_bits(a);
    t.lemma_lookup_is_deepest(bits);
    assert(bits.take(0) =~= Seq::<bool>::empty());
    if t.spec_lookup(bits) is None {
        assert(t.spec_route(bits.take(0)) is None);
        assert(false);
    }
    let lw = choose|lw: int|
        0 <= lw <= bits.len() && t.spec_lookup(bits) == t.spec_route(#[trigger] bits.take(lw))
            && t.spec_route(bits.take(lw)) is Some && (forall|l2: int|
            lw < l2 <= bits.len() ==> t.spec_route(#[trigger] bits.take(l2)) is None);
    assert(lw == 0);
}

/// What the accumulator fold of the search tree's lookup produces: the
/// length only grows, the result is either the starting accumulator or the
/// hop of some visited route matching at the final length, no matching route
/// is more specific than the final length, and an untouched accumulator
/// means nothing matched above the starting length.
pub proof fn lemma_fold_best_general(
    s: Seq<(u32, u8, Seq<char>)>,
    ip: u32,
    b: Option<Seq<char>>,
    n: int,
)
    ensures
        fold_best(s, ip, b, n).1 >= n,
        fold_best(s, ip, b, n) == (b, n) || exists|i: int|
            0 <= i < s.len() && masked_matches((#[trigger] s[i]).0, s[i].1 as int, ip) && s[i].1
                as int == fold_best(s, ip, b, n).1 && fold_best(s, ip, b, n).0 == Some(s[i].2),
        forall|i: int|
            0 <= i < s.len() && masked_matches((#[trigger] s[i]).0, s[i].1 as int, ip) ==> s[i].1
                as int <= fold_best(s, ip, b, n).1,
        (forall|i: int|
            0 <= i < s.len() ==> !(masked_matches((#[trigger] s[i]).0, s[i].1 as int, ip) && s[i].1
                as int > n)) ==> fold_best(s, ip, b, n) == (b, n),
    decreases s.len(),
{
    if s.len() == 0 {
    } else {
        let r = s[0];
        let rest = s.drop_first();
        assert(forall|i: int| 0 <= i < rest.len() ==> #[trigger] rest[i] == s[i + 1]);
        if masked_matches(r.0, r.1 as int, ip) && r.1 as int > n {
            lemma_fold_best_general(rest, ip, Some(r.2), r.1 as int);
            let f = fold_best(rest, ip, Some(r.2), r.1 as int);
            assert forall|i: int|
                0 <= i < s.len() && masked_matches((#[trigger] s[i]).0, s[i].1 as int, ip) implies
                s[i].1 as int <= fold_best(s, ip, b, n).1 by {
                if i > 0 {
                    assert(s[i] == rest[i - 1]);
                }
            }
            if f == (Some(r.2), r.1 as int) {
                assert(0 <= 0 < s.len() && masked_matches((s[0]).0, s[0].1 as int, ip) && s[0].1
                    as int == fold_best(s, ip, b, n).1 && fold_best(s, ip, b, n).0 == Some(
                    s[0].2,
                ));
            } else {
                let i = choose|i: int|
                    0 <= i < rest.len() && masked_matches((#[trigger] rest[i]).0, rest[i].1 as int, ip)
                        && rest[i].1 as int == f.1 && f.0 == Some(rest[i].2);
                assert(s[i + 1] == rest[i]);
            }
        } else {
            lemma_fold_best_general(rest, ip, b, n);
            let f = fold_best(rest, ip, b, n);
            assert forall|i: int|
                0 <= i < s.len() && masked_matches((#[trigger] s[i]).0, s[i].1 as int, ip) implies
                s[i].1 as int <= fold_best(s, ip, b, n).1 by {
                if i > 0 {
                    assert(s[i] == rest[i - 1]);
                }
            }
            if forall|i: int|
                0 <= i < s.len() ==> !(masked_matches((#[trigger] s[i]).0, s[i].1 as int, ip)
                    && s[i].1 as int > n) {
                assert forall|i: int|
                    0 <= i < rest.len() implies !(masked_matches(
                    (#[trigger] rest[i]).0,
                    rest[i].1 as int,
                    ip,
                ) && rest[i].1 as int > n) by {
                    assert(rest[i] == s[i + 1]);
                }
            }
            if f != (b, n) {
                let i = choose|i: int|
                    0 <= i < rest.len() && masked_matches((#[trigger] rest[i]).0, rest[i].1 as int, ip)
                        && rest[i].1 as int == f.1 && f.0 == Some(rest[i].2);
                assert(s[i + 1] == rest[i]);
            }
        }
    }
}

/// LONGEST MATCH, for the search tree. A fresh lookup over the stored
/// routes — accumulator `(None, -1)` — returns no route exactly when no
/// stored route matches the address, and otherwise the hop of a matching
/// route whose prefix length no other matching route exceeds.
pub proof fn lemma_bst_longest_match(b: BSTNode, a: u32)
    ensures
        ({
            let f = fold_best(b.to_seq(), a, None, -1);
            let s = b.to_seq();
            &&& (f.0 is None <==> (forall|k: int|
                0 <= k < s.len() ==> !masked_matches((#[trigger] s[k]).0, s[k].1 as int, a)))
            &&& (f.0 is Some ==> exists|k: int|
                0 <= k < s.len() && masked_matches((#[trigger] s[k]).0, s[k].1 as int, a) && s[k].1
                    as int == f.1 && f.0 == Some(s[k].2) && (forall|j: int|
                    0 <= j < s.len() && masked_matches((#[trigger] s[j]).0, s[j].1 as int, a)
                        ==> s[j].1 as int <= f.1))
        }),
{
    let s = b.to_seq();
    lemma_fold_best_general(s, a, None, -1int);
    let f = fold_best(s, a, None, -1int);
    if f.0 is None {
        assert(f == (None::<Seq<char>>, -1int));
        assert forall|k: int| 0 <= k < s.len() implies !masked_matches(
            (#[trigger] s[k]).0,
            s[k].1 as int,
            a,
        ) by {
            if masked_matches(s[k].0, s[k].1 as int, a) {
                assert(s[k].1 as int <= f.1);
            }
        }
    } else {
        assert(f != (None::<Seq<char>>, -1int));
    }
}

/// STRUCTURE AGREEMENT. For a route set in which no two routes occupy the
/// same trie node — distinct routes never share both their prefix length and
/// their masked prefix bits — the radix trie and the search tree answer
/// every address alike: the trie's walk and the tree's full visit with a
/// fresh accumulator (`best = None`, `best_len = -1`) return the same hop.
pub proof fn lemma_structure_agreement(
    t: TrieNode,
    b: BSTNode,
    rs: Seq<(u32, u8, Seq<char>)>,
    a: u32,
)
    requires
        forall|path: Seq<bool>| #[trigger] t.spec_route(path) == table_route(rs, path),
        b.to_seq().to_multiset() == rs.to_multiset(),
        forall|i: int| 0 <= i < rs.len() ==> (#[trigger] rs[i]).1 <= 32,
        forall|i: int, j: int|
            0 <= i < rs.len() && 0 <= j < rs.len() && i != j ==> !((#[trigger] rs[i]).1 == (
            #[trigger] rs[j]).1 && prefix_bits(rs[i].0, rs[i].1 as int) == prefix_bits(
                rs[j].0,
                rs[j].1 as int,
            )),
    ensures
        t.spec_lookup(addr_bits(a)) == fold_best(b.to_seq(), a, None, -1).0,
{
    broadcast use vstd::seq_lib::group_to_multiset_ensures;

    let s = b.to_seq();
    assert forall|x: (u32, u8, Seq<char>)| s.contains(x) implies rs.contains(x) by {
        assert(s.to_multiset().count(x) > 0);
    }
    assert forall|x: (u32, u8, Seq<char>)| rs.contains(x) implies s.contains(x) by {
        assert(rs.to_multiset().count(x) > 0);
    }
    assert forall|k: int| 0 <= k < s.len() implies (#[trigger] s[k]).1 <= 32 by {
        assert(s.contains(s[k]));
        let i = choose|i: int| 0 <= i < rs.len() && rs[i] == s[k];
    }
    assert forall|i: int| 0 <= i < rs.len() implies (route_matches(
        (#[trigger] rs[i]).0,
        rs[i].1 as int,
        a,
    ) <==> masked_matches(rs[i].0, rs[i].1 as int, a)) by {
        lemma_masked_matches_is_route_matches(rs[i].0, rs[i].1 as int, a);
    }
    lemma_fold_best_general(s, a, None, -1int);
    lemma_trie_longest_match(t, rs, a);
    let f = fold_best(s, a, None, -1int);
    if f == (None::<Seq<char>>, -1int) {
        assert forall|i: int| 0 <= i < rs.len() implies !route_matches(
            (#[trigger] rs[i]).0,
            rs[i].1 as int,
            a,
        ) by {
            if route_matches(rs[i].0, rs[i].1 as int, a) {
                assert(rs.contains(rs[i]));
                let k = choose|k: int| 0 <= k < s.len() && s[k] == rs[i];
                assert(masked_matches((s[k]).0, s[k].1 as int, a));
                assert(s[k].1 as int <= f.1);
                assert(false);
            }
        }
        assert(t.spec_lookup(addr_bits(a)) is None);
    } else {
        let k = choose|k: int|
            0 <= k < s.len() && masked_matches((#[trigger] s[k]).0, s[k].1 as int, a) && s[k].1
                as int == f.1 && f.0 == Some(s[k].2);
        assert(s.contains(s[k]));
        let i = choose|i: int| 0 <= i < rs.len() && rs[i] == s[k];
        assert(route_matches(rs[i].0, rs[i].1 as int, a));
        assert forall|j: int|
            0 <= j < rs.len() && route_matches((#[trigger] rs[j]).0, rs[j].1 as int, a) implies
            rs[j].1 <= rs[i].1 by {
            assert(rs.contains(rs[j]));
            let kj = choose|kj: int| 0 <= kj < s.len() && s[kj] == rs[j];
            assert(masked_matches((s[kj]).0, s[kj].1 as int, a));
            assert(s[kj].1 as int <= f.1);
        }
        assert forall|j: int| i < j < rs.len() implies !(route_matches(
            (#[trigger] rs[j]).0,
            rs[j].1 as int,
            a,
        ) && rs[j].1 == rs[i].1) by {
            if route_matches(rs[j].0, rs[j].1 as int, a) && rs[j].1 == rs[i].1 {
                assert(prefix_bits(rs[j].0, rs[j].1 as int) == addr_bits(a).take(rs[j].1 as int));
                assert(prefix_bits(rs[i].0, rs[i].1 as int) == addr_bits(a).take(rs[i].1 as int));
            }
        }
        assert(t.spec_lookup(addr_bits(a)) == Some(rs[i].2));
    }
}

} // verus!
