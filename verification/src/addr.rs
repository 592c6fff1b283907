//! Textual IPv4 conversion: a dotted quad of decimal octets to the 32-bit
//! address with the most significant octet in bits 31..24, and back.

use vstd::prelude::*;
use vstd::string::StrSliceExecFns;
use vstd::string::StringExecFns;

use crate::text::all_digits;
use crate::text::dec_rep;
use crate::text::dec_val;
use crate::text::dec_value;
use crate::text::digit_char;
use crate::text::find_sep;
use crate::text::lemma_split_on_first;
use crate::text::lemma_split_on_no_sep;
use crate::text::lemma_split_on_nonempty;
use crate::text::lemma_split_on_one_part;
use crate::text::split_on;

verus! {

/// A dotted quad: four parts split on dots, each a non-empty string of
/// decimal digits worth at most 255.
pub open spec fn valid_ipv4_quad(s: Seq<char>) -> bool {
    let parts = split_on(s, '.');
    &&& parts.len() == 4
    &&& (forall|k: int|
        0 <= k < 4 ==> (#[trigger] parts[k]).len() >= 1 && all_digits(parts[k]) && dec_val(
            parts[k],
        ) <= 255)
}

/// The address a dotted quad denotes: the four octet values packed most
/// significant first.
pub open spec fn ipv4_value(s: Seq<char>) -> u32 {
    let parts = split_on(s, '.');
    (dec_val(parts[0]) * 0x1000000 + dec_val(parts[1]) * 0x10000 + dec_val(parts[2]) * 0x100
        + dec_val(parts[3])) as u32
}

/// The dotted-quad text of an address.
pub open spec fn ipv4_text(ip: u32) -> Seq<char> {
    dec_rep(((ip >> 24u32) & 0xFF) as int) + seq!['.'] + dec_rep(((ip >> 16u32) & 0xFF) as int)
        + seq!['.'] + dec_rep(((ip >> 8u32) & 0xFF) as int) + seq!['.'] + dec_rep((ip & 0xFF) as int)
}

/// Parse a dotted quad into its 32-bit address value.
pub fn ip_to_u32(ip: &str) -> (r: u32)
    requires
        valid_ipv4_quad(ip@),
    ensures
        r == ipv4_value(ip@),
{
    let n = ip.unicode_len();
    let ghost s = ip@;
    let ghost parts = split_on(s, '.');
    let i1 = match find_sep(ip, 0, '.') {
        Some(i) => i,
        None => {
            proof {
                lemma_split_on_no_sep(s, '.');
                assert(false);
            }
            0
        },
    };
    proof {
        lemma_split_on_first(s, '.', i1 as int);
    }
    let ghost t1 = s.skip(i1 as int + 1);
    let i2 = match find_sep(ip, i1 + 1, '.') {
        Some(i) => i,
        None => {
            proof {
                assert forall|j: int| 0 <= j < t1.len() implies t1[j] != '.' by {
                    assert(t1[j] == s[j + i1 + 1]);
                }
                lemma_split_on_no_sep(t1, '.');
                assert(false);
            }
            0
        },
    };
    proof {
        assert(t1[i2 - i1 - 1] == s[i2 as int]);
        assert forall|j: int| 0 <= j < i2 - i1 - 1 implies t1[j] != '.' by {
            assert(t1[j] == s[j + i1 + 1]);
        }
        lemma_split_on_first(t1, '.', i2 - i1 as int - 1);
    }
    let ghost t2 = t1.skip(i2 - i1 as int);
    let i3 = match find_sep(ip, i2 + 1, '.') {
        Some(i) => i,
        None => {
            proof {
                assert(t2 =~= s.skip(i2 as int + 1));
                assert forall|j: int| 0 <= j < t2.len() implies t2[j] != '.' by {
                    assert(t2[j] == s[j + i2 + 1]);
                }
                lemma_split_on_no_sep(t2, '.');
                assert(false);
            }
            0
        },
    };
    let ghost t3 = t2.skip(i3 - i2 as int);
    let ghost p1 = s.take(i1 as int);
    let ghost p2 = t1.take(i2 - i1 as int - 1);
    let ghost p3 = t2.take(i3 - i2 as int - 1);
    proof {
        assert(t2 =~= s.skip(i2 as int + 1));
        assert(t2[i3 - i2 - 1] == s[i3 as int]);
        assert forall|j: int| 0 <= j < i3 - i2 - 1 implies t2[j] != '.' by {
            assert(t2[j] == s[j + i2 + 1]);
        }
        lemma_split_on_first(t2, '.', i3 - i2 as int - 1);
        assert(t3 =~= s.skip(i3 as int + 1));
        assert(parts == seq![p1] + (seq![p2] + (seq![p3] + split_on(t3, '.'))));
        lemma_split_on_nonempty(t3, '.');
        assert(split_on(t3, '.').len() == 1);
        lemma_split_on_one_part(t3, '.');
        lemma_split_on_no_sep(t3, '.');
        assert(parts =~= seq![p1, p2, p3, t3]);
        assert(p1 =~= s.subrange(0, i1 as int));
        assert(p2 =~= s.subrange(i1 as int + 1, i2 as int));
        assert(p3 =~= s.subrange(i2 as int + 1, i3 as int));
        assert(t3 =~= s.subrange(i3 as int + 1, n as int));
        assert(parts[1].len() >= 1 && parts[2].len() >= 1 && parts[3].len() >= 1);
    }
    let q1 = ip.substring_char(0, i1);
    let q2 = ip.substring_char(i1 + 1, i2);
    let q3 = ip.substring_char(i2 + 1, i3);
    let q4 = ip.substring_char(i3 + 1, n);
    let v1 = dec_value(q1);
    let v2 = dec_value(q2);
    let v3 = dec_value(q3);
    let v4 = dec_value(q4);
    let r = (v1 << 24u32) | (v2 << 16u32) | (v3 << 8u32) | v4;
    proof {
        assert((v1 << 24u32) | (v2 << 16u32) | (v3 << 8u32) | v4 == v1 * 0x1000000 + v2 * 0x10000
            + v3 * 0x100 + v4) by (bit_vector)
            requires
                v1 < 256,
                v2 < 256,
                v3 < 256,
                v4 < 256,
        ;
    }
    r
}

fn digit_str(d: u32) -> (r: &'static str)
    requires
        d <= 9,
    ensures
        r@ == seq![digit_char(d as int)],
{
    let s = match d {
        0 => "0",
        1 => "1",
        2 => "2",
        3 => "3",
        4 => "4",
        5 => "5",
        6 => "6",
        7 => "7",
        8 => "8",
        _ => "9",
    };
    proof {
        reveal_strlit("0");
        reveal_strlit("1");
        reveal_strlit("2");
        reveal_strlit("3");
        reveal_strlit("4");
        reveal_strlit("5");
        reveal_strlit("6");
        reveal_strlit("7");
        reveal_strlit("8");
        reveal_strlit("9");
        assert(s@ =~= seq![digit_char(d as int)]);
    }
    s
}

fn octet_string(o: u32) -> (r: String)
    requires
        o <= 255,
    ensures
        r@ == dec_rep(o as int),
{
    if o < 10 {
        let r = String::from_str(digit_str(o));
        proof {
            assert(r@ =~= dec_rep(o as int));
        }
        r
    } else if o < 100 {
        let mut r = String::from_str(digit_str(o / 10));
        r.append(digit_str(o % 10));
        proof {
            assert(dec_rep(o as int) == dec_rep(o as int / 10).push(digit_char(o as int % 10)));
            assert(r@ =~= dec_rep(o as int));
        }
        r
    } else {
        let mut r = String::from_str(digit_str(o / 100));
        r.append(digit_str((o / 10) % 10));
        r.append(digit_str(o % 10));
        proof {
            assert((o / 10) / 10 == o / 100) by (bit_vector);
            assert(dec_rep(o as int) == dec_rep(o as int / 10).push(digit_char(o as int % 10)));
            assert(dec_rep(o as int / 10) == dec_rep(o as int / 10 / 10).push(
                digit_char((o as int / 10) % 10),
            ));
            assert(r@ =~= dec_rep(o as int));
        }
        r
    }
}

/// Format an address as its dotted quad, most significant octet first.
pub fn u32_to_ip(ip: u32) -> (r: String)
    ensures
        r@ == ipv4_text(ip),
{
    let b0 = (ip >> 24u32) & 0xFF;
    let b1 = (ip >> 16u32) & 0xFF;
    let b2 = (ip >> 8u32) & 0xFF;
    let b3 = ip & 0xFF;
    proof {
        assert((ip >> 24u32) & 0xFF < 256 && (ip >> 16u32) & 0xFF < 256 && (ip >> 8u32) & 0xFF < 256
            && ip & 0xFF < 256) by (bit_vector);
        reveal_strlit(".");
    }
    let mut r = octet_string(b0);
    r.append(".");
    let o1 = octet_string(b1);
    r.append(o1.as_str());
    r.append(".");
    let o2 = octet_string(b2);
    r.append(o2.as_str());
    r.append(".");
    let o3 = octet_string(b3);
    r.append(o3.as_str());
    proof {
        assert("."@ =~= seq!['.']);
        assert(r@ =~= ipv4_text(ip));
    }
    r
}

} // verus!
