//! Addresses as sequences of four-bit digits.

use vstd::arithmetic::power2::pow2;
use vstd::bits::lemma_u32_shr_is_div;
use vstd::prelude::*;
use crate::prefix::{leading, lemma_network_leading, network};

verus! {

/// How many digits `nibbles` returns.
pub const STEPS: usize = 9;

/// Digit `i` of an address, the most significant one first. An address has
/// eight digits; a zero stands behind them.
pub open spec fn nibble(bits: u32, i: int) -> u8 {
    if 0 <= i < 8 {
        ((bits >> ((28 - 4 * i) as u32)) & 0xf) as u8
    } else {
        0
    }
}

/// The first `k` digits of an address.
pub open spec fn path_of(bits: u32, k: nat) -> Seq<u8> {
    Seq::new(k, |i: int| nibble(bits, i))
}

/// The first `r` bits of a digit, as a number.
pub open spec fn nibble_head(n: u8, r: u32) -> int {
    if r == 0 {
        0
    } else if r == 1 {
        n as int / 8
    } else if r == 2 {
        n as int / 4
    } else if r == 3 {
        n as int / 2
    } else {
        n as int
    }
}

/// The eight digits of an address, and a closing zero. A lookup takes a digit at
/// every node that it visits; with a prefix of all 32 bits the last of them can
/// be a node below the eighth digit, where no digit of the address is left.
pub fn nibbles(bits: u32) -> (r: [u8; 9])
    ensures
        forall|i: int| 0 <= i < STEPS ==> #[trigger] r[i] == nibble(bits, i) && r[i] < 16,
        bits == r[0] * 0x1000_0000 + r[1] * 0x100_0000 + r[2] * 0x10_0000 + r[3] * 0x1_0000 + r[4]
            * 0x1000 + r[5] * 0x100 + r[6] * 0x10 + r[7],
        r[8] == 0,
{
    let r: [u8; 9] = [
        ((bits >> 28) & 0xf) as u8,
        ((bits >> 24) & 0xf) as u8,
        ((bits >> 20) & 0xf) as u8,
        ((bits >> 16) & 0xf) as u8,
        ((bits >> 12) & 0xf) as u8,
        ((bits >> 8) & 0xf) as u8,
        ((bits >> 4) & 0xf) as u8,
        ((bits >> 0) & 0xf) as u8,
        0,
    ];
    proof {
        law_digits_make_up_address(bits);
        assert forall|i: int| 0 <= i < STEPS implies #[trigger] r[i] == nibble(bits, i)
            && r[i] < 16 by {
            lemma_nibble_bound(bits, i);
            assert(i == 0 || i == 1 || i == 2 || i == 3 || i == 4 || i == 5 || i == 6 || i == 7
                || i == 8);
        }
    }
    r
}

pub proof fn lemma_nibble_bound(bits: u32, i: int)
    ensures
        nibble(bits, i) < 16,
{
    if 0 <= i < 8 {
        let s: u32 = (28 - 4 * i) as u32;
        assert((((bits >> s) & 0xf) as u8) < 16) by (bit_vector);
    }
}

/// The leading bits of an address up to a point within a digit.
pub proof fn lemma_leading_nibble(bits: u32, k: u32, r: u32)
    requires
        k < 8,
        r <= 4,
    ensures
        leading(bits, (4 * k + r) as u32) == leading(bits, (4 * k) as u32) * (if r == 0 {
            1int
        } else if r == 1 {
            2
        } else if r == 2 {
            4
        } else if r == 3 {
            8
        } else {
            16
        }) + nibble_head(nibble(bits, k as int), r),
{
    let s: u32 = (28 - 4 * k) as u32;
    let n: u8 = nibble(bits, k as int);
    let top: u32 = leading(bits, (4 * k) as u32);
    let h: u32 = bits >> s;
    assert(n == (h & 0xf) as u8);
    assert(top == h >> 4) by {
        if k == 0 {
            assert((bits >> 28) >> 4 == 0) by (bit_vector);
        } else {
            assert(s < 28 ==> bits >> ((s + 4) as u32) == (bits >> s) >> 4) by (bit_vector);
        }
    }
    let t: u32 = (32 - (4 * k + r)) as u32;
    if r > 0 {
        let d: u32 = (4 - r) as u32;
        assert(s <= 28 && d < 4 ==> bits >> ((s + d) as u32) == (bits >> s) >> d) by (bit_vector);
        assert(t == s + d);
        assert({
            &&& h >> 3 == (h >> 4) * 2 + ((h & 0xf) as u8) / 8
            &&& h >> 2 == (h >> 4) * 4 + ((h & 0xf) as u8) / 4
            &&& h >> 1 == (h >> 4) * 8 + ((h & 0xf) as u8) / 2
            &&& h >> 0 == (h >> 4) * 16 + ((h & 0xf) as u8)
        }) by (bit_vector);
    }
}

/// Two addresses start with the same `k` digits exactly if their first `4 * k`
/// bits agree.
pub proof fn lemma_path_leading(a: u32, b: u32, k: u32)
    requires
        k <= 8,
    ensures
        path_of(a, k as nat) == path_of(b, k as nat) <==> leading(a, (4 * k) as u32) == leading(
            b,
            (4 * k) as u32,
        ),
    decreases k,
{
    if k == 0 {
        assert(path_of(a, 0) =~= path_of(b, 0));
    } else {
        let j: u32 = (k - 1) as u32;
        lemma_path_leading(a, b, j);
        lemma_leading_nibble(a, j, 4);
        lemma_leading_nibble(b, j, 4);
        lemma_nibble_bound(a, j as int);
        lemma_nibble_bound(b, j as int);
        lemma_path_push(a, j as nat);
        lemma_path_push(b, j as nat);
        if path_of(a, k as nat) == path_of(b, k as nat) {
            assert(path_of(a, k as nat).last() == path_of(b, k as nat).last());
            assert(path_of(a, k as nat).drop_last() =~= path_of(a, j as nat));
            assert(path_of(b, k as nat).drop_last() =~= path_of(b, j as nat));
        }
    }
}

pub proof fn lemma_path_push(bits: u32, k: nat)
    ensures
        path_of(bits, k + 1) == path_of(bits, k).push(nibble(bits, k as int)),
{
    assert(path_of(bits, k + 1) =~= path_of(bits, k).push(nibble(bits, k as int)));
}

/// Two addresses agree on their first `4 * k + r` bits exactly if they agree on
/// `k` digits and on the first `r` bits of the next.
pub proof fn lemma_network_path(a: u32, b: u32, k: u32, r: u32)
    requires
        k < 8 && r <= 4 || k == 8 && r == 0,
    ensures
        network(a, (4 * k + r) as u32) == network(b, (4 * k + r) as u32) <==> (path_of(
            a,
            k as nat,
        ) == path_of(b, k as nat) && nibble_head(nibble(a, k as int), r) == nibble_head(
            nibble(b, k as int),
            r,
        )),
{
    lemma_network_leading(a, b, (4 * k + r) as u32);
    lemma_path_leading(a, b, k);
    if k < 8 {
        lemma_leading_nibble(a, k, r);
        lemma_leading_nibble(b, k, r);
        lemma_nibble_bound(a, k as int);
        lemma_nibble_bound(b, k as int);
    }
}

/// The address that starts with the digits of `p`, and goes on with zeros.
pub open spec fn address_of(p: Seq<u8>) -> u32
    decreases p.len(),
{
    if p.len() == 0 {
        0
    } else {
        address_of(p.drop_last()) | ((p.last() as u32) << ((32 - 4 * p.len()) as u32))
    }
}

/// The digits of such an address.
pub proof fn lemma_address_of(p: Seq<u8>)
    requires
        p.len() <= 8,
        forall|i: int| 0 <= i < p.len() ==> p[i] < 16,
    ensures
        forall|i: int|
            0 <= i < 8 ==> #[trigger] nibble(address_of(p), i) == (if i < p.len() {
                p[i]
            } else {
                0
            }),
        path_of(address_of(p), p.len()) == p,
    decreases p.len(),
{
    if p.len() == 0 {
        assert forall|i: int| 0 <= i < 8 implies #[trigger] nibble(0, i) == 0 by {
            let s: u32 = (28 - 4 * i) as u32;
            assert(((0u32 >> s) & 0xf) as u8 == 0) by (bit_vector);
        }
    } else {
        let q: Seq<u8> = p.drop_last();
        let x: u32 = address_of(q);
        let d: u8 = p.last();
        let k: int = p.len() - 1;
        lemma_address_of(q);
        assert forall|i: int| 0 <= i < 8 implies #[trigger] nibble(address_of(p), i) == (if i
            < p.len() {
            p[i]
        } else {
            0
        }) by {
            let s: u32 = (28 - 4 * k) as u32;
            let t: u32 = (28 - 4 * i) as u32;
            assert(nibble(x, i) == (if i < k {
                q[i]
            } else {
                0
            }));
            assert(d < 16 && s <= 28 && t <= 28 && s % 4 == 0 && t % 4 == 0 && (s == t ==> ((x >> t)
                & 0xf) as u8 == 0) ==> (((x | ((d as u32) << s)) >> t) & 0xf) as u8 == (if s == t {
                d
            } else {
                ((x >> t) & 0xf) as u8
            })) by (bit_vector);
        }
    }
    assert(path_of(address_of(p), p.len()) =~= p);
}

/// The digits of an address are those of its number to the base 16, the most
/// significant one first; behind the eighth there are only zeros.
pub proof fn law_digits_are_base_sixteen(bits: u32, i: int)
    requires
        0 <= i,
    ensures
        i < 8 ==> nibble(bits, i) == (bits as nat / pow2((28 - 4 * i) as nat)) % 16,
        i >= 8 ==> nibble(bits, i) == 0,
{
    if i < 8 {
        let s: u32 = (28 - 4 * i) as u32;
        let h: u32 = bits >> s;
        lemma_u32_shr_is_div(bits, s);
        assert((h & 0xf) as u8 == h % 16) by (bit_vector);
    }
}

/// The digits make up the address again.
pub proof fn law_digits_make_up_address(bits: u32)
    ensures
        bits == nibble(bits, 0) * 0x1000_0000 + nibble(bits, 1) * 0x100_0000 + nibble(bits, 2)
            * 0x10_0000 + nibble(bits, 3) * 0x1_0000 + nibble(bits, 4) * 0x1000 + nibble(bits, 5)
            * 0x100 + nibble(bits, 6) * 0x10 + nibble(bits, 7),
{
    assert(bits == (((bits >> 28) & 0xf) as u8) * 0x1000_0000 + (((bits >> 24) & 0xf) as u8)
        * 0x100_0000 + (((bits >> 20) & 0xf) as u8) * 0x10_0000 + (((bits >> 16) & 0xf) as u8)
        * 0x1_0000 + (((bits >> 12) & 0xf) as u8) * 0x1000 + (((bits >> 8) & 0xf) as u8) * 0x100 + (
    ((bits >> 4) & 0xf) as u8) * 0x10 + (((bits >> 0) & 0xf) as u8)) by (bit_vector);
}

} // verus!
