//! Fixed-width binary values.
//!
//! A `Bin` is an ordered sequence of bits in little-endian bit order: the bit
//! at index `i` contributes `2^i` to the value. `from_dec` turns an unsigned
//! integer into a fixed number of bits (failing when the value does not fit),
//! and `to_dec` reads the integer back.

use vstd::prelude::*;

verus! {

/// `2^n`, the weight of bit position `n`.
pub open spec fn pow2(n: nat) -> nat
    decreases n,
{
    if n == 0 {
        1
    } else {
        2 * pow2((n - 1) as nat)
    }
}

/// The `width` low bits of `v`, little-endian: bit `i` is `(v / 2^i) % 2`.
pub open spec fn bits_of(v: nat, width: nat) -> Seq<bool>
    decreases width,
{
    if width == 0 {
        Seq::empty()
    } else {
        seq![v % 2 == 1] + bits_of(v / 2, (width - 1) as nat)
    }
}

/// The value of a little-endian bit sequence: the sum of `2^i` over the
/// indices `i` whose bit is set.
pub open spec fn bits_val(s: Seq<bool>) -> nat
    decreases s.len(),
{
    if s.len() == 0 {
        0
    } else {
        (if s[0] {
            1nat
        } else {
            0nat
        }) + 2 * bits_val(s.drop_first())
    }
}

pub proof fn lemma_pow2_pos(n: nat)
    ensures
        pow2(n) >= 1,
    decreases n,
{
    if n > 0 {
        lemma_pow2_pos((n - 1) as nat);
    }
}

pub proof fn lemma_pow2_le(a: nat, b: nat)
    requires
        a <= b,
    ensures
        pow2(a) <= pow2(b),
    decreases b,
{
    if a < b {
        lemma_pow2_le(a, (b - 1) as nat);
        lemma_pow2_pos((b - 1) as nat);
    }
}

pub proof fn lemma_bits_of_len(v: nat, width: nat)
    ensures
        bits_of(v, width).len() == width,
    decreases width,
{
    if width > 0 {
        lemma_bits_of_len(v / 2, (width - 1) as nat);
    }
}

/// Encoding then evaluating is the identity on values that fit in `width` bits.
pub proof fn lemma_bits_of_val(v: nat, width: nat)
    requires
        v < pow2(width),
    ensures
        bits_val(bits_of(v, width)) == v,
    decreases width,
{
    if width > 0 {
        let s = bits_of(v, width);
        let rest = bits_of(v / 2, (width - 1) as nat);
        assert(s.drop_first() =~= rest);
        assert(v / 2 < pow2((width - 1) as nat)) by {
            vstd::arithmetic::div_mod::lemma_fundamental_div_mod(v as int, 2);
        }
        lemma_bits_of_val(v / 2, (width - 1) as nat);
        assert(v == 2 * (v / 2) + v % 2) by {
            vstd::arithmetic::div_mod::lemma_fundamental_div_mod(v as int, 2);
        }
    }
}

/// A sequence of `n` bits holds a value below `2^n`.
pub proof fn lemma_bits_val_bound(s: Seq<bool>)
    ensures
        bits_val(s) < pow2(s.len()),
    decreases s.len(),
{
    if s.len() > 0 {
        lemma_bits_val_bound(s.drop_first());
    }
}

/// Positional split: the value of `s` is the value of its first `i` bits plus
/// `2^i` times the value of the rest.
pub proof fn lemma_bits_val_split(s: Seq<bool>, i: int)
    requires
        0 <= i <= s.len(),
    ensures
        bits_val(s) == bits_val(s.take(i)) + pow2(i as nat) * bits_val(s.skip(i)),
    decreases i,
{
    if i == 0 {
        assert(s.skip(0) =~= s);
        assert(s.take(0) =~= Seq::<bool>::empty());
        assert(bits_val(s.take(0)) == 0);
        assert(pow2(0) == 1);
        let x0 = bits_val(s.skip(0));
        assert(pow2(0) * x0 == x0) by (nonlinear_arith);
        assert(bits_val(s) == bits_val(s.take(i)) + pow2(i as nat) * bits_val(s.skip(i)));
    } else {
        let d = s.drop_first();
        lemma_bits_val_split(d, i - 1);
        assert(d.take(i - 1) =~= s.take(i).drop_first());
        assert(d.skip(i - 1) =~= s.skip(i));
        let p = pow2((i - 1) as nat);
        let x = bits_val(s.skip(i));
        let b0: nat = if s[0] {
            1
        } else {
            0
        };
        assert(s.take(i)[0] == s[0]);
        assert(s.take(i).len() == i);
        assert(bits_val(s.take(i)) == b0 + 2 * bits_val(s.take(i).drop_first()));
        assert(bits_val(s) == b0 + 2 * (bits_val(d.take(i - 1)) + p * x));
        assert(pow2(i as nat) == 2 * p);
        assert(2 * (p * x) == (2 * p) * x) by (nonlinear_arith);
        assert(bits_val(s) == bits_val(s.take(i)) + (2 * p) * x);
        assert(bits_val(s) == bits_val(s.take(i)) + pow2(i as nat) * bits_val(s.skip(i)));
    }
}

/// Halving a value steps one bit position down: `v < 2^r` exactly when
/// `v / 2 < 2^(r-1)`.
proof fn lemma_half_pow2(v: nat, r: nat)
    requires
        r >= 1,
    ensures
        (v < pow2(r)) <==> (v / 2 < pow2((r - 1) as nat)),
{
    vstd::arithmetic::div_mod::lemma_fundamental_div_mod(v as int, 2);
}

/// Decoding then re-encoding at the same width is the identity on bit
/// sequences.
pub proof fn lemma_bits_of_of_val(s: Seq<bool>)
    ensures
        bits_of(bits_val(s), s.len()) == s,
    decreases s.len(),
{
    if s.len() == 0 {
        assert(bits_of(bits_val(s), s.len()) =~= s);
    } else {
        let d = s.drop_first();
        let b0: nat = if s[0] {
            1
        } else {
            0
        };
        let v = bits_val(s);
        vstd::arithmetic::div_mod::lemma_fundamental_div_mod_converse(
            v as int,
            2,
            bits_val(d) as int,
            b0 as int,
        );
        lemma_bits_of_of_val(d);
        assert(bits_of(v, s.len()) =~= s);
    }
}

/// The small powers of two that the container formats use.
pub proof fn lemma_pow2_values()
    ensures
        pow2(3) == 8,
        pow2(7) == 128,
        pow2(8) == 256,
        pow2(12) == 4096,
{
    assert(pow2(0) == 1);
    assert(pow2(1) == 2);
    assert(pow2(2) == 4);
    assert(pow2(3) == 8);
    assert(pow2(4) == 16);
    assert(pow2(5) == 32);
    assert(pow2(6) == 64);
    assert(pow2(7) == 128);
    assert(pow2(8) == 256);
    assert(pow2(9) == 512);
    assert(pow2(10) == 1024);
    assert(pow2(11) == 2048);
    assert(pow2(12) == 4096);
}

/// The digits of a bit sequence, most significant first.
pub open spec fn bits_str(s: Seq<bool>) -> Seq<char>
    decreases s.len(),
{
    if s.len() == 0 {
        Seq::empty()
    } else {
        seq![
            if s.last() {
                '1'
            } else {
                '0'
            },
        ] + bits_str(s.drop_last())
    }
}

/// Prepending a low bit appends its digit.
proof fn lemma_bits_str_cons(b: bool, w: Seq<bool>)
    ensures
        bits_str(seq![b] + w) == bits_str(w).push(
            if b {
                '1'
            } else {
                '0'
            },
        ),
    decreases w.len(),
{
    let c = if b {
        '1'
    } else {
        '0'
    };
    let u = seq![b] + w;
    if w.len() == 0 {
        assert(u.last() == b);
        assert(u.drop_last() =~= Seq::<bool>::empty());
        assert(bits_str(Seq::<bool>::empty()) == Seq::<char>::empty());
        assert(bits_str(u) == seq![c] + Seq::<char>::empty());
        assert(bits_str(w) == Seq::<char>::empty());
        assert(bits_str(u) =~= bits_str(w).push(c));
    } else {
        assert(u.last() == w.last());
        assert(u.drop_last() =~= seq![b] + w.drop_last());
        lemma_bits_str_cons(b, w.drop_last());
        let d = if w.last() {
            '1'
        } else {
            '0'
        };
        assert(bits_str(u) == seq![d] + bits_str(w.drop_last()).push(c));
        assert(seq![d] + bits_str(w.drop_last()).push(c) =~= (seq![d] + bits_str(
            w.drop_last(),
        )).push(c));
    }
}

/// Relies on String::push: appends exactly one character.
#[verifier::external_body]
fn push_char(s: &mut String, c: char)
    ensures
        final(s)@ == old(s)@.push(c),
{
    s.push(c)
}

/// A fixed-width little-endian binary value.
#[derive(Debug, PartialEq, Eq)]
pub struct Bin {
    bits: Vec<bool>,
}

impl View for Bin {
    type V = Seq<bool>;

    closed spec fn view(&self) -> Seq<bool> {
        self.bits@
    }
}

impl Bin {
    /// Encode `dec` as exactly `bits` little-endian bits; `Err` exactly when
    /// the value does not fit in that many bits.
    pub fn from_dec(dec: usize, bits: u32) -> (r: Result<Self, ()>)
        ensures
            dec < pow2(bits as nat) ==> (r matches Ok(b) && b@ == bits_of(dec as nat, bits as nat)),
            dec >= pow2(bits as nat) ==> r is Err,
    {
        let mut out: Vec<bool> = Vec::new();
        let mut v: usize = dec;
        let mut i: u32 = 0;
        while i < bits
            invariant
                i <= bits,
                out@.len() == i as nat,
                bits_of(dec as nat, bits as nat) == out@ + bits_of(
                    v as nat,
                    (bits - i) as nat,
                ),
                (dec < pow2(bits as nat)) <==> (v < pow2((bits - i) as nat)),
            decreases bits - i,
        {
            let ghost rem = (bits - i) as nat;
            let bit = v % 2 == 1;
            proof {
                assert(bits_of(v as nat, rem) == seq![bit] + bits_of(
                    (v / 2) as nat,
                    (rem - 1) as nat,
                ));
                assert(out@.push(bit) + bits_of((v / 2) as nat, (rem - 1) as nat) =~= out@ + (
                seq![bit] + bits_of((v / 2) as nat, (rem - 1) as nat)));
                lemma_half_pow2(v as nat, rem);
            }
            out.push(bit);
            v = v / 2;
            i = i + 1;
        }
        if v != 0 {
            proof {
                lemma_pow2_pos(0);
            }
            Err(())
        } else {
            proof {
                assert(out@ + bits_of(0, 0) =~= out@);
            }
            Ok(Bin { bits: out })
        }
    }

    /// Read the value back from the bits. The machine-width bound is the only
    /// restriction: the mathematical value must fit in a `usize`.
    pub fn to_dec(&self) -> (r: usize)
        requires
            bits_val(self@) <= usize::MAX,
        ensures
            r as nat == bits_val(self@),
    {
        let mut dec: usize = 0;
        let mut i: usize = self.bits.len();
        while i > 0
            invariant
                i <= self.bits.len(),
                bits_val(self@) <= usize::MAX,
                dec as nat == bits_val(self@.skip(i as int)),
            decreases i,
        {
            proof {
                let s = self@;
                let j = i - 1;
                assert(s.skip(j)[0] == s[j]);
                assert(s.skip(j).drop_first() =~= s.skip(j + 1));
                lemma_bits_val_split(s, j);
                lemma_pow2_pos(j as nat);
                let p = pow2(j as nat);
                let x = bits_val(s.skip(j));
                assert(p * x >= 1 * x) by (nonlinear_arith)
                    requires
                        p >= 1,
                        x >= 0,
                ;
            }
            i = i - 1;
            let bit: usize = if self.bits[i] {
                1
            } else {
                0
            };
            dec = dec * 2 + bit;
        }
        proof {
            assert(self@.skip(0) =~= self@);
        }
        dec
    }

    /// The value's digits as text, most significant bit first.
    pub fn to_binary_string(&self) -> (r: String)
        ensures
            r@ == bits_str(self@),
    {
        let mut out = String::new();
        let mut i: usize = self.bits.len();
        proof {
            assert(self@.skip(self@.len() as int) =~= Seq::<bool>::empty());
        }
        while i > 0
            invariant
                i <= self.bits.len(),
                out@ == bits_str(self@.skip(i as int)),
            decreases i,
        {
            i = i - 1;
            let c = if self.bits[i] {
                '1'
            } else {
                '0'
            };
            proof {
                assert(self@.skip(i as int) =~= seq![self@[i as int]] + self@.skip(i as int + 1));
                lemma_bits_str_cons(self@[i as int], self@.skip(i as int + 1));
            }
            push_char(&mut out, c);
        }
        proof {
            assert(self@.skip(0) =~= self@);
        }
        out
    }

    /// Wrap an explicit bit sequence.
    pub fn from_bits(bits: Vec<bool>) -> (r: Self)
        ensures
            r@ == bits@,
    {
        Bin { bits }
    }

    /// Give up the wrapper and hand the bits out.
    pub fn unwrap(self) -> (r: Vec<bool>)
        ensures
            r@ == self@,
    {
        self.bits
    }
}

} // verus!
