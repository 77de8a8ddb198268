//! The two samplers: centered binomial noise and uniform rejection sampling.

use vstd::prelude::*;
use vstd::arithmetic::div_mod::{
    lemma_sub_mod_noop, lemma_mod_decreases, lemma_fundamental_div_mod,
    lemma_fundamental_div_mod_converse,
};
use crate::bytearray::{ByteArray, bit_at};
use crate::field::{F3329, q};
use crate::hash::{shake128_spec, xof_input, xof};
use crate::poly::{Poly3329, all_reduced};
use crate::polyvec::is_ring_elem;

verus! {

/// How many of the `n` bits of `bs` from position `start` on are set.
pub open spec fn bit_count(bs: Seq<u8>, start: int, n: nat) -> int
    decreases n,
{
    if n == 0 {
        0
    } else {
        bit_count(bs, start, (n - 1) as nat) + if bit_at(bs, start + n - 1) {
            1int
        } else {
            0int
        }
    }
}

/// The polynomial that `bs` gives under the centered binomial distribution
/// of width `eta`: coefficient `i` is the number of set bits among the first
/// `eta` of its `2 * eta` bits minus the number among the last `eta`, modulo
/// `q`.
pub open spec fn cbd_seq(bs: Seq<u8>, eta: nat) -> Seq<int> {
    Seq::new(
        256,
        |i: int|
            (bit_count(bs, 2 * eta * i, eta) - bit_count(bs, 2 * eta * i + eta, eta)) % q(),
    )
}

/// A count of `n` bits lies between 0 and `n`.
proof fn lemma_bit_count_bound(bs: Seq<u8>, start: int, n: nat)
    ensures
        0 <= bit_count(bs, start, n) <= n,
    decreases n,
{
    if n > 0 {
        lemma_bit_count_bound(bs, start, (n - 1) as nat);
    }
}

/// The residue of a difference of two counts up to `eta` lies within `eta`
/// of zero.
proof fn lemma_centered(a: int, b: int, eta: int)
    requires
        0 <= a <= eta,
        0 <= b <= eta,
    ensures
        (a - b) % q() <= eta || (a - b) % q() >= q() - eta,
{
    if a >= b {
        lemma_mod_decreases((a - b) as nat, q() as nat);
    } else {
        let d = b - a;
        let k = d / q();
        let r = d % q();
        lemma_fundamental_div_mod(d, q());
        if r == 0 {
            lemma_fundamental_div_mod_converse(a - b, q(), -k, 0);
        } else {
            lemma_fundamental_div_mod_converse(a - b, q(), -k - 1, q() - r);
            assert(r <= d) by {
                lemma_mod_decreases(d as nat, q() as nat);
            }
        }
    }
}

/// Samples a polynomial from the centered binomial distribution of width
/// `eta`, reading `2 * eta` bits of `bs` per coefficient.
pub fn cbd(bs: &ByteArray, eta: usize) -> (r: Poly3329)
    requires
        bs@.len() == 64 * eta,
        512 * eta <= usize::MAX,
    ensures
        is_ring_elem(r@),
        r@ == cbd_seq(bs@, eta as nat),
        forall|i: int| 0 <= i < 256 ==> #[trigger] r@[i] <= eta || r@[i] >= q() - eta,
{
    let mut f: Vec<F3329> = Vec::new();
    let mut i: usize = 0;
    while i < 256
        invariant
            i <= 256,
            bs@.len() == 64 * eta,
            512 * eta <= usize::MAX,
            f@.len() == i,
            forall|k: int|
                0 <= k < i ==> (#[trigger] f@[k]).wf() && f@[k]@ == cbd_seq(bs@, eta as nat)[k] && (
                f@[k]@ <= eta || f@[k]@ >= q() - eta),
        decreases 256 - i,
    {
        assert(2 * eta * i + 2 * eta <= 512 * eta && 0 <= 2 * eta * i) by (nonlinear_arith)
            requires
                0 <= i < 256,
                eta >= 0,
        ;
        let base: usize = 2 * eta * i;
        let mut a: usize = 0;
        let mut b: usize = 0;
        let mut j: usize = 0;
        while j < eta
            invariant
                j <= eta,
                base + 2 * eta <= 512 * eta,
                512 * eta <= usize::MAX,
                bs@.len() == 64 * eta,
                a == bit_count(bs@, base as int, j as nat),
                b == bit_count(bs@, base + eta, j as nat),
                a <= j,
                b <= j,
            decreases eta - j,
        {
            if bs.get_bit(base + j) {
                a += 1;
            }
            if bs.get_bit(base + eta + j) {
                b += 1;
            }
            j += 1;
        }
        proof {
            lemma_sub_mod_noop(a as int, b as int, q());
            lemma_centered(a as int, b as int, eta as int);
        }
        f.push(F3329::from_int(a).sub(&F3329::from_int(b)));
        i += 1;
    }
    let r = Poly3329 { coefficients: f };
    assert(r@ =~= cbd_seq(bs@, eta as nat));
    r
}

/// The first 12-bit candidate of a group of three bytes: `b0` and, above
/// it, the low four bits of `b1`.
pub open spec fn candidate_low(b0: u8, b1: u8) -> int {
    b0 + 256 * (b1 % 16)
}

/// The second 12-bit candidate of a group of three bytes: the high four
/// bits of `b1` and, above them, `b2`.
pub open spec fn candidate_high(b1: u8, b2: u8) -> int {
    b1 / 16 + 16 * b2
}

/// The candidates below `q` among those of the first `groups` groups of
/// three bytes of `stream`, in the order of the stream.
pub open spec fn accepted(stream: Seq<u8>, groups: nat) -> Seq<int>
    decreases groups,
{
    if groups == 0 {
        Seq::empty()
    } else {
        let g = groups - 1;
        let d1 = candidate_low(stream[3 * g], stream[3 * g + 1]);
        let d2 = candidate_high(stream[3 * g + 1], stream[3 * g + 2]);
        let before = accepted(stream, g as nat);
        let with_low = if d1 < q() {
            before.push(d1)
        } else {
            before
        };
        if d2 < q() {
            with_low.push(d2)
        } else {
            with_low
        }
    }
}

/// Everything accepted is a canonical representative.
pub proof fn lemma_accepted_reduced(stream: Seq<u8>, groups: nat)
    ensures
        all_reduced(accepted(stream, groups)),
    decreases groups,
{
    if groups > 0 {
        lemma_accepted_reduced(stream, (groups - 1) as nat);
    }
}

/// What more groups accept starts with what fewer groups accept.
pub proof fn lemma_accepted_prefix(stream: Seq<u8>, fewer: nat, more: nat)
    requires
        fewer <= more,
    ensures
        accepted(stream, fewer).len() <= accepted(stream, more).len(),
        accepted(stream, more).subrange(0, accepted(stream, fewer).len() as int) == accepted(
            stream,
            fewer,
        ),
    decreases more,
{
    let short = accepted(stream, fewer);
    if fewer == more {
        assert(short.subrange(0, short.len() as int) =~= short);
    } else {
        lemma_accepted_prefix(stream, fewer, (more - 1) as nat);
        let before = accepted(stream, (more - 1) as nat);
        assert(accepted(stream, more).subrange(0, short.len() as int) =~= before.subrange(
            0,
            short.len() as int,
        ));
    }
}

/// What is accepted from the first `groups` groups depends on their bytes
/// alone.
pub proof fn lemma_accepted_agree(s1: Seq<u8>, s2: Seq<u8>, groups: nat)
    requires
        forall|i: int| 0 <= i < 3 * groups ==> s1[i] == s2[i],
    ensures
        accepted(s1, groups) == accepted(s2, groups),
    decreases groups,
{
    if groups > 0 {
        lemma_accepted_agree(s1, s2, (groups - 1) as nat);
    }
}

/// Rejection sampling: the first 256 candidates below `q` that `stream`
/// holds in its whole groups of three bytes, or `None` where it holds fewer.
pub fn parse(stream: &ByteArray) -> (r: Option<Poly3329>)
    ensures
        r is Some <==> accepted(stream@, stream@.len() / 3).len() >= 256,
        r is Some ==> r->Some_0@ == accepted(stream@, stream@.len() / 3).subrange(0, 256)
            && is_ring_elem(r->Some_0@),
{
    let n: usize = stream.len();
    let groups: usize = n / 3;
    let mut f: Vec<F3329> = Vec::new();
    let mut g: usize = 0;
    while g < groups && f.len() < 256
        invariant
            g <= groups,
            n == stream@.len(),
            groups == n / 3,
            f@.len() <= 256,
            forall|k: int| 0 <= k < f@.len() ==> (#[trigger] f@[k]).wf(),
            f@.len() <= accepted(stream@, g as nat).len(),
            f@.len() < 256 ==> f@.len() == accepted(stream@, g as nat).len(),
            forall|k: int|
                0 <= k < f@.len() ==> (#[trigger] f@[k])@ == accepted(stream@, g as nat)[k],
        decreases groups - g,
    {
        let b0: u8 = stream.data[3 * g];
        let b1: u8 = stream.data[3 * g + 1];
        let b2: u8 = stream.data[3 * g + 2];
        let d1: usize = b0 as usize + 256 * (b1 % 16) as usize;
        let d2: usize = (b1 / 16) as usize + 16 * b2 as usize;
        if d1 < 3329 {
            f.push(F3329 { value: d1 as u32 });
        }
        if d2 < 3329 && f.len() < 256 {
            f.push(F3329 { value: d2 as u32 });
        }
        g += 1;
    }
    proof {
        lemma_accepted_prefix(stream@, g as nat, groups as nat);
        lemma_accepted_reduced(stream@, groups as nat);
    }
    if f.len() == 256 {
        let r = Poly3329 { coefficients: f };
        assert(r@ =~= accepted(stream@, groups as nat).subrange(0, 256)) by {
            let part = accepted(stream@, g as nat);
            let all = accepted(stream@, groups as nat);
            assert forall|k: int| 0 <= k < 256 implies r@[k] == all[k] by {
                assert(all.subrange(0, part.len() as int)[k] == all[k]);
            }
        }
        Some(r)
    } else {
        None
    }
}

/// The number of stream bytes that the first attempt reads: four blocks of
/// SHAKE-128.
pub const XOF_FIRST: usize = 672;

/// The longest stream prefix that is ever read.
pub const XOF_LIMIT: usize = 688128;

/// Whether the stream seeded by `seed` holds 256 acceptable candidates
/// within the longest prefix that is read.
pub open spec fn uniform_ok(seed: Seq<u8>) -> bool {
    accepted(shake128_spec(seed, XOF_LIMIT as nat), (XOF_LIMIT / 3) as nat).len() >= 256
}

/// The polynomial sampled from the stream seeded by `seed`: its first 256
/// acceptable candidates.
pub open spec fn uniform_seq(seed: Seq<u8>) -> Seq<int> {
    accepted(shake128_spec(seed, XOF_LIMIT as nat), (XOF_LIMIT / 3) as nat).subrange(0, 256)
}

/// A polynomial with coefficients uniform on `[0, q)`, sampled from the
/// SHAKE-128 stream seeded by `rho`, `first`, `second`. The stream is read
/// in prefixes of doubling length; `None` comes only where even the longest
/// holds fewer than 256 acceptable candidates.
pub fn sample_uniform(rho: &ByteArray, first: u8, second: u8) -> (r: Option<Poly3329>)
    ensures
        r is Some <==> uniform_ok(xof_input(rho@, first, second)),
        r is Some ==> r->Some_0@ == uniform_seq(xof_input(rho@, first, second)) && is_ring_elem(
            r->Some_0@,
        ),
{
    let ghost seed = xof_input(rho@, first, second);
    let ghost whole = shake128_spec(seed, XOF_LIMIT as nat);
    let mut len: usize = XOF_FIRST;
    loop
        invariant
            XOF_FIRST <= len <= XOF_LIMIT,
            seed == xof_input(rho@, first, second),
            whole == shake128_spec(seed, XOF_LIMIT as nat),
        decreases XOF_LIMIT - len,
    {
        let stream = xof(rho, first, second, len);
        let attempt = parse(&stream);
        proof {
            lemma_accepted_agree(stream@, whole, (len / 3) as nat);
            lemma_accepted_prefix(whole, (len / 3) as nat, (XOF_LIMIT / 3) as nat);
        }
        match attempt {
            Some(p) => {
                proof {
                    let part = accepted(whole, (len / 3) as nat);
                    let all = accepted(whole, (XOF_LIMIT / 3) as nat);
                    assert(part.subrange(0, 256) =~= all.subrange(0, 256)) by {
                        assert forall|k: int| 0 <= k < 256 implies part[k] == all[k] by {
                            assert(all.subrange(0, part.len() as int)[k] == all[k]);
                        }
                    }
                }
                return Some(p);
            },
            None => {
                if len == XOF_LIMIT {
                    return None;
                }
                len = if len > XOF_LIMIT / 2 {
                    XOF_LIMIT
                } else {
                    2 * len
                };
            },
        }
    }
}

} // verus!
