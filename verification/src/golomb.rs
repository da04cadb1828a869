//! The adaptive Golomb-Rice codec.
//!
//! Every byte is coded against a power-of-two divisor `2^k`: the quotient as
//! that many `1` bits with a `0` terminator, the remainder as `k` fixed-width
//! bits. The encoder tries all eight exponents `k = 0..=7` over the same
//! input, keeps the shortest trial (the lowest exponent on ties), and emits a
//! 3-bit header holding `k` followed by that trial. The decoder reads the
//! header and walks the payload until the bits run out; a remainder field cut
//! short, or a quotient that would overflow a byte, is an error.

use vstd::prelude::*;
use vstd::pervasive::unreached;
use crate::util::binary::{Bin, bits_of, bits_val, pow2};
use crate::util::binary::{
    lemma_bits_of_len,
    lemma_bits_of_val,
    lemma_bits_val_bound,
    lemma_pow2_le,
    lemma_pow2_pos,
    lemma_pow2_values,
};

verus! {

/// `n` consecutive `1` bits.
pub open spec fn unary(n: nat) -> Seq<bool> {
    Seq::new(n, |i: int| true)
}

/// The Rice code of one byte for exponent `k`: unary quotient, `0`
/// terminator, `k`-bit remainder.
pub open spec fn rice_code(k: nat, b: u8) -> Seq<bool> {
    unary(b as nat / pow2(k)) + seq![false] + bits_of(b as nat % pow2(k), k)
}

/// The trial encoding of a whole stream for exponent `k`.
pub open spec fn trial(k: nat, s: Seq<u8>) -> Seq<bool>
    decreases s.len(),
{
    if s.len() == 0 {
        Seq::empty()
    } else {
        rice_code(k, s[0]) + trial(k, s.drop_first())
    }
}

/// The exponent selected among `k..=7`: the shortest trial, and the lowest
/// exponent where trials tie.
pub open spec fn best_from(s: Seq<u8>, k: nat) -> nat
    decreases 7 - k,
{
    if k >= 7 {
        7
    } else {
        let b = best_from(s, k + 1);
        if trial(k, s).len() <= trial(b, s).len() {
            k
        } else {
            b
        }
    }
}

/// The exponent the encoder selects.
pub open spec fn best_k(s: Seq<u8>) -> nat {
    best_from(s, 0)
}

/// The Golomb container of a byte stream: a 3-bit header holding the
/// selected exponent, then that exponent's trial encoding.
pub open spec fn golomb_enc(s: Seq<u8>) -> Seq<bool> {
    bits_of(best_k(s), 3) + trial(best_k(s), s)
}

/// The decoder's walk over the payload with exponent `k` and `q` ones
/// already counted: count `1`s to the terminator, read `k` remainder bits,
/// rebuild the byte, repeat until the bits run out. A truncated remainder
/// field fails, as does a value over 255; a trailing run of `1`s without a
/// terminator is ignored.
pub open spec fn gwalk(k: nat, q: nat, bits: Seq<bool>) -> Option<Seq<u8>>
    decreases bits.len(),
{
    if bits.len() == 0 {
        Some(Seq::empty())
    } else if bits[0] {
        gwalk(k, q + 1, bits.drop_first())
    } else {
        let rest = bits.drop_first();
        if rest.len() < k {
            None
        } else {
            let v = q * pow2(k) + bits_val(rest.take(k as int));
            if v > 255 {
                None
            } else {
                match gwalk(k, 0, rest.skip(k as int)) {
                    Some(out) => Some(seq![v as u8] + out),
                    None => None,
                }
            }
        }
    }
}

/// What decoding a Golomb container yields: `None` on fewer than 3 header
/// bits, else the walk over the payload.
pub open spec fn golomb_dec(bits: Seq<bool>) -> Option<Seq<u8>> {
    if bits.len() < 3 {
        None
    } else {
        gwalk(bits_val(bits.take(3)), 0, bits.skip(3))
    }
}

/// `o` if `o` failed, else `out` glued onto `o`'s bytes.
pub open spec fn gout_prepend(out: Seq<u8>, o: Option<Seq<u8>>) -> Option<Seq<u8>> {
    match o {
        Some(rest) => Some(out + rest),
        None => None,
    }
}

/// Encoding one more byte appends its Rice code.
proof fn lemma_trial_snoc(k: nat, u: Seq<u8>, b: u8)
    ensures
        trial(k, u.push(b)) == trial(k, u) + rice_code(k, b),
    decreases u.len(),
{
    if u.len() == 0 {
        assert(u.push(b)[0] == b);
        assert(u.push(b).drop_first() =~= Seq::<u8>::empty());
        assert(trial(k, u.push(b)) == rice_code(k, b) + trial(k, Seq::<u8>::empty()));
        assert(rice_code(k, b) + Seq::<bool>::empty() =~= rice_code(k, b));
        assert(trial(k, u) + rice_code(k, b) =~= rice_code(k, b));
    } else {
        assert(u.push(b)[0] == u[0]);
        assert(u.push(b).drop_first() =~= u.drop_first().push(b));
        lemma_trial_snoc(k, u.drop_first(), b);
        assert((rice_code(k, u[0]) + trial(k, u.drop_first())) + rice_code(k, b) =~= rice_code(
            k,
            u[0],
        ) + (trial(k, u.drop_first()) + rice_code(k, b)));
    }
}

/// One trial encoding of a byte stream for a fixed exponent.
pub fn compress(exp: u8, input: &[u8]) -> (r: Vec<bool>)
    requires
        exp < 8,
    ensures
        r@ == trial(exp as nat, input@),
{
    let ghost k = exp as nat;
    proof {
        lemma_pow2_values();
        lemma_pow2_le(k, 7);
    }
    let mut factor: u8 = 1;
    let mut e: u8 = 0;
    while e < exp
        invariant
            e <= exp,
            exp < 8,
            factor as nat == pow2(e as nat),
        decreases exp - e,
    {
        proof {
            lemma_pow2_le(e as nat + 1, 7);
            lemma_pow2_values();
        }
        factor = factor * 2;
        e = e + 1;
    }
    proof {
        lemma_pow2_pos(k);
    }
    let mut out: Vec<bool> = Vec::new();
    let n = input.len();
    let mut i: usize = 0;
    proof {
        assert(input@.take(0) =~= Seq::<u8>::empty());
    }
    while i < n
        invariant
            i <= n,
            n == input@.len(),
            exp < 8,
            k == exp as nat,
            factor as nat == pow2(k),
            factor >= 1,
            out@ == trial(k, input@.take(i as int)),
        decreases n - i,
    {
        let b = input[i];
        let q = b / factor;
        let ghost pre = out@;
        let mut j: u8 = 0;
        while j < q
            invariant
                j <= q,
                out@ =~= pre + unary(j as nat),
            decreases q - j,
        {
            proof {
                assert(pre + unary(j as nat + 1) =~= (pre + unary(j as nat)).push(true));
            }
            out.push(true);
            j = j + 1;
        }
        out.push(false);
        let rem = b % factor;
        let rem_bits = match Bin::from_dec(rem as usize, exp as u32) {
            Ok(bin) => bin,
            Err(_) => unreached(),
        };
        let mut rem_vec = rem_bits.unwrap();
        out.append(&mut rem_vec);
        proof {
            lemma_trial_snoc(k, input@.take(i as int), b);
            assert(input@.take(i as int + 1) =~= input@.take(i as int).push(b));
            assert(((pre + unary(q as nat)).push(false)) + bits_of(b as nat % pow2(k), k) =~= pre
                + ((unary(q as nat) + seq![false]) + bits_of(b as nat % pow2(k), k)));
        }
        i = i + 1;
    }
    proof {
        assert(input@.take(n as int) =~= input@);
    }
    out
}

/// Where the selected exponent lands: between `k` and 7, never beaten, and
/// strictly better than every lower exponent in its range.
proof fn lemma_best_from_props(s: Seq<u8>, k: nat)
    requires
        k <= 7,
    ensures
        k <= best_from(s, k) <= 7,
        forall|j: nat|
            k <= j <= 7 ==> trial(best_from(s, k), s).len() <= #[trigger] trial(j, s).len(),
        forall|j: nat|
            k <= j < best_from(s, k) ==> #[trigger] trial(j, s).len() > trial(
                best_from(s, k),
                s,
            ).len(),
    decreases 7 - k,
{
    if k < 7 {
        lemma_best_from_props(s, k + 1);
    }
}

/// The walk swallows a run of ones by counting them.
proof fn lemma_gwalk_ones(k: nat, c: nat, q: nat, tail: Seq<bool>)
    ensures
        gwalk(k, c, unary(q) + tail) == gwalk(k, c + q, tail),
    decreases q,
{
    if q == 0 {
        assert(unary(0) + tail =~= tail);
    } else {
        assert((unary(q) + tail)[0] == true);
        assert((unary(q) + tail).drop_first() =~= unary((q - 1) as nat) + tail);
        lemma_gwalk_ones(k, c + 1, (q - 1) as nat, tail);
    }
}

/// Walking a trial encoding recovers the stream, for any exponent.
proof fn lemma_gwalk_trial(k: nat, s: Seq<u8>)
    requires
        k <= 7,
    ensures
        gwalk(k, 0, trial(k, s)) == Some(s),
    decreases s.len(),
{
    if s.len() == 0 {
        assert(gwalk(k, 0, trial(k, s)) == Some(Seq::<u8>::empty()));
        assert(Seq::<u8>::empty() =~= s);
    } else {
        let b = s[0];
        let f = pow2(k);
        lemma_pow2_pos(k);
        let q = b as nat / f;
        let rem = b as nat % f;
        let rbits = bits_of(rem, k);
        lemma_bits_of_len(rem, k);
        let rest = trial(k, s.drop_first());
        let tail = seq![false] + (rbits + rest);
        assert(trial(k, s) =~= unary(q) + tail);
        lemma_gwalk_ones(k, 0, q, tail);
        assert(tail[0] == false);
        assert(tail.drop_first() =~= rbits + rest);
        assert((rbits + rest).len() >= k);
        assert((rbits + rest).take(k as int) =~= rbits);
        assert((rbits + rest).skip(k as int) =~= rest);
        vstd::arithmetic::div_mod::lemma_fundamental_div_mod(b as int, f as int);
        assert(rem < f) by {
            vstd::arithmetic::div_mod::lemma_mod_division_less_than_divisor(b as int, f as int);
        }
        lemma_bits_of_val(rem, k);
        assert(q * f == f * q) by (nonlinear_arith);
        assert(q * f + rem == b as nat);
        lemma_gwalk_trial(k, s.drop_first());
        assert(seq![b] + s.drop_first() =~= s);
    }
}

/// Round trip: decoding an encoded byte stream gives the stream back.
pub proof fn lemma_golomb_round_trip(s: Seq<u8>)
    ensures
        golomb_dec(golomb_enc(s)) == Some(s),
{
    lemma_best_from_props(s, 0);
    let bk = best_k(s);
    lemma_bits_of_len(bk, 3);
    lemma_pow2_values();
    lemma_bits_of_val(bk, 3);
    let whole = golomb_enc(s);
    assert(whole.take(3) =~= bits_of(bk, 3));
    assert(whole.skip(3) =~= trial(bk, s));
    lemma_gwalk_trial(bk, s);
}

/// When one exponent's trial is strictly shortest, the encoder selects it.
pub proof fn lemma_strict_minimum_selected(s: Seq<u8>, k0: nat)
    requires
        k0 <= 7,
        forall|j: nat| j <= 7 && j != k0 ==> trial(k0, s).len() < #[trigger] trial(j, s).len(),
    ensures
        best_k(s) == k0,
{
    lemma_best_from_props(s, 0);
    let b = best_k(s);
    if b != k0 {
        assert(trial(k0, s).len() < trial(b, s).len());
        assert(trial(b, s).len() <= trial(k0, s).len());
    }
}

/// Re-encoding the decoded bytes of any valid container yields a container
/// that decodes to the same bytes, under the fixed tie-break rule.
pub proof fn lemma_reencode_decoded(bits: Seq<bool>, s: Seq<u8>)
    requires
        golomb_dec(bits) == Some(s),
    ensures
        golomb_dec(golomb_enc(s)) == Some(s),
{
    lemma_golomb_round_trip(s);
}

/// Encode a byte stream: run all eight trial encodings, keep the shortest
/// (the lowest exponent on ties), and emit the 3-bit exponent header followed
/// by that trial.
pub fn encode(input: Vec<u8>) -> (r: Vec<bool>)
    ensures
        r@ == golomb_enc(input@),
{
    let mut lens: Vec<usize> = Vec::new();
    let mut k: u8 = 0;
    while k < 8
        invariant
            k <= 8,
            lens@.len() == k as nat,
            forall|j: int| 0 <= j < k ==> lens@[j] as nat == trial(j as nat, input@).len(),
        decreases 8 - k,
    {
        let cand = compress(k, input.as_slice());
        lens.push(cand.len());
        k = k + 1;
    }
    let mut best: usize = 0;
    let mut j: usize = 1;
    while j < 8
        invariant
            1 <= j <= 8,
            best < j,
            lens@.len() == 8,
            forall|m: int| 0 <= m < 8 ==> lens@[m] as nat == trial(m as nat, input@).len(),
            forall|m: int| 0 <= m < j ==> lens@[best as int] <= lens@[m],
            forall|m: int| 0 <= m < best ==> lens@[m] > lens@[best as int],
        decreases 8 - j,
    {
        if lens[j] < lens[best] {
            best = j;
        }
        j = j + 1;
    }
    proof {
        lemma_best_from_props(input@, 0);
        let bk = best_k(input@);
        if best as nat != bk {
            if (best as nat) < bk {
                assert(trial(best as nat, input@).len() > trial(bk, input@).len());
                assert(lens@[bk as int] as nat == trial(bk, input@).len());
                assert(lens@[best as int] <= lens@[bk as int]);
            } else {
                assert(trial(bk, input@).len() <= trial(best as nat, input@).len());
                assert(lens@[bk as int] > lens@[best as int]);
            }
            assert(false);
        }
        lemma_pow2_values();
    }
    let header = match Bin::from_dec(best, 3) {
        Ok(b) => b,
        Err(_) => unreached(),
    };
    let mut output = header.unwrap();
    let mut code = compress(best as u8, input.as_slice());
    output.append(&mut code);
    output
}

/// Decode a Golomb container: read the 3-bit exponent, then walk the
/// payload. Fewer than 3 bits of input, a truncated remainder field, or a
/// quotient that would overflow a byte, is an error.
pub fn decode(input: &[bool]) -> (r: Result<Vec<u8>, ()>)
    ensures
        r matches Ok(out) ==> golomb_dec(input@) == Some(out@),
        r is Err ==> golomb_dec(input@) is None,
{
    let n = input.len();
    if n < 3 {
        return Err(());
    }
    let mut header_bits: Vec<bool> = Vec::new();
    let mut j: usize = 0;
    while j < 3
        invariant
            j <= 3,
            n == input@.len(),
            n >= 3,
            header_bits@ =~= input@.subrange(0, j as int),
        decreases 3 - j,
    {
        header_bits.push(input[j]);
        j = j + 1;
    }
    proof {
        assert(header_bits@ =~= input@.take(3));
        lemma_bits_val_bound(input@.take(3));
        lemma_pow2_values();
    }
    let exp = Bin::from_bits(header_bits).to_dec();
    let mut payload: Vec<bool> = Vec::new();
    let mut j: usize = 3;
    while j < n
        invariant
            3 <= j <= n,
            n == input@.len(),
            payload@ =~= input@.subrange(3, j as int),
        decreases n - j,
    {
        payload.push(input[j]);
        j = j + 1;
    }
    proof {
        assert(payload@ =~= input@.skip(3));
    }
    decompress(exp as u8, payload.as_slice())
}

/// Walk a payload with a fixed exponent: count `1`s to each terminator, read
/// the remainder bits, and rebuild `quotient * 2^exp + remainder`. A
/// truncated remainder field or an overflowing value is an error; a trailing
/// run of `1`s without a terminator is ignored, as is a terminator-free
/// empty payload.
pub fn decompress(exp: u8, input: &[bool]) -> (r: Result<Vec<u8>, ()>)
    requires
        exp < 8,
    ensures
        r matches Ok(out) ==> gwalk(exp as nat, 0, input@) == Some(out@),
        r is Err ==> gwalk(exp as nat, 0, input@) is None,
{
    let ghost k = exp as nat;
    proof {
        lemma_pow2_values();
        lemma_pow2_le(k, 7);
        lemma_pow2_pos(k);
    }
    let mut factor: usize = 1;
    let mut e: u8 = 0;
    while e < exp
        invariant
            e <= exp,
            exp < 8,
            factor as nat == pow2(e as nat),
        decreases exp - e,
    {
        proof {
            lemma_pow2_le(e as nat + 1, 7);
            lemma_pow2_values();
        }
        factor = factor * 2;
        e = e + 1;
    }
    let rest_len = exp as usize;
    let mut out: Vec<u8> = Vec::new();
    let mut counter: usize = 0;
    let n = input.len();
    let mut i: usize = 0;
    proof {
        assert(input@.skip(0) =~= input@);
        if let Some(rest) = gwalk(k, 0, input@) {
            assert(Seq::<u8>::empty() + rest =~= rest);
        }
    }
    while i < n
        invariant
            i <= n,
            counter <= i,
            n == input@.len(),
            exp < 8,
            k == exp as nat,
            rest_len == exp as nat,
            factor as nat == pow2(k),
            gwalk(k, 0, input@) == gout_prepend(
                out@,
                gwalk(k, counter as nat, input@.skip(i as int)),
            ),
        decreases n - i,
    {
        let ghost pre = input@.skip(i as int);
        proof {
            assert(pre[0] == input@[i as int]);
            assert(pre.drop_first() =~= input@.skip(i as int + 1));
        }
        if input[i] {
            counter = counter + 1;
            i = i + 1;
        } else {
            if n - (i + 1) < rest_len {
                proof {
                    assert(pre.drop_first().len() < k);
                    assert(gwalk(k, counter as nat, pre) is None);
                }
                return Err(());
            }
            let mut rem_bits: Vec<bool> = Vec::new();
            let mut j: usize = 0;
            while j < rest_len
                invariant
                    j <= rest_len,
                    i + 1 + rest_len <= n,
                    n == input@.len(),
                    n <= usize::MAX,
                    rem_bits@ =~= input@.subrange(i as int + 1, i as int + 1 + j as int),
                decreases rest_len - j,
            {
                rem_bits.push(input[i + 1 + j]);
                j = j + 1;
            }
            proof {
                assert(rem_bits@ =~= pre.drop_first().take(k as int));
                lemma_bits_val_bound(rem_bits@);
                lemma_pow2_le(k, 7);
                lemma_pow2_values();
            }
            let rem = Bin::from_bits(rem_bits).to_dec();
            let ghost v = (counter as nat) * pow2(k) + (rem as nat);
            if counter > 255 {
                proof {
                    assert((counter as nat) * pow2(k) >= (counter as nat) * 1) by (nonlinear_arith)
                        requires
                            pow2(k) >= 1,
                    ;
                    assert(v > 255);
                    assert(gwalk(k, counter as nat, pre) is None);
                }
                return Err(());
            }
            proof {
                lemma_pow2_le(k, 7);
                lemma_pow2_values();
                assert(counter * factor <= 255 * 128) by (nonlinear_arith)
                    requires
                        counter <= 255,
                        factor <= 128,
                ;
                assert(rem < 128);
            }
            let value = counter * factor + rem;
            if value > 255 {
                proof {
                    assert(gwalk(k, counter as nat, pre) is None);
                }
                return Err(());
            }
            proof {
                assert(pre.drop_first().skip(k as int) =~= input@.skip(i as int + 1 + k));
                if let Some(rest) = gwalk(k, 0, input@.skip(i as int + 1 + k)) {
                    assert(out@ + (seq![value as u8] + rest) =~= out@.push(value as u8) + rest);
                }
            }
            out.push(value as u8);
            counter = 0;
            i = i + 1 + rest_len;
        }
    }
    proof {
        assert(input@.skip(n as int) =~= Seq::<bool>::empty());
        assert(out@ + Seq::<u8>::empty() =~= out@);
    }
    Ok(out)
}

} // verus!
