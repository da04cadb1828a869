//! The Huffman codec: frequency-driven tree construction, code derivation by
//! tree traversal, and the container format
//! `[12-bit tree bit-length][serialized tree][payload]`.
//!
//! Compression looks each byte up in a dictionary derived from the tree and
//! concatenates the codes; decompression walks the tree bit by bit, emitting
//! a symbol and returning to the root at each leaf. The payload has no
//! terminator: it is decoded until the bits run out, and it is an error for
//! the bits to run out in the middle of a path.

pub mod tree;

pub use tree::Tree;

use vstd::prelude::*;
use vstd::pervasive::unreached;
use crate::util::binary::{Bin, bits_of, bits_val};
use crate::util::binary::{
    lemma_bits_of_len,
    lemma_bits_of_val,
    lemma_bits_val_bound,
    lemma_pow2_values,
};
use crate::util::histogram::{hist, counts_of, nonzero_below};
use crate::util::histogram::{
    lemma_count_positive,
    lemma_nonzero_at,
    lemma_nonzero_le,
    lemma_total_counts,
};
use crate::huffman::tree::{
    build_tree,
    init_queue,
    leaf_syms,
    lemma_hist_tree_stats,
    lemma_ser_len,
    lemma_ser_unique,
    ser_bits,
    tree_size,
};

verus! {

/// The code of `sym` as a path through `t`: `0` for a left edge, `1` for a
/// right edge; `None` when the symbol is on no leaf. Where a symbol sits on
/// several leaves, the rightmost one wins.
pub open spec fn tree_code(t: Tree, sym: u8) -> Option<Seq<bool>>
    decreases t,
{
    match t {
        Tree::Leaf(v) => if v == sym {
            Some(Seq::empty())
        } else {
            None
        },
        Tree::Inner(l, r) => {
            if tree_code(*r, sym) is Some {
                Some(seq![true] + tree_code(*r, sym)->Some_0)
            } else if tree_code(*l, sym) is Some {
                Some(seq![false] + tree_code(*l, sym)->Some_0)
            } else {
                None
            }
        },
    }
}

/// The dictionary a tree yields: the path code of each leaf symbol, except
/// that the single leaf of a one-leaf tree gets the one-bit code `0`.
pub open spec fn dict_spec(t: Tree, sym: u8) -> Option<Seq<bool>> {
    match t {
        Tree::Leaf(v) => if v == sym {
            Some(seq![false])
        } else {
            None
        },
        Tree::Inner(_, _) => tree_code(t, sym),
    }
}

/// The whole dictionary of a tree, indexed by symbol value.
pub open spec fn dict_view(t: Tree) -> Seq<Option<Seq<bool>>> {
    Seq::new(256, |i: int| dict_spec(t, i as u8))
}

/// A symbol has a code exactly when it sits on a leaf.
pub proof fn lemma_code_exists(t: Tree, sym: u8)
    ensures
        dict_spec(t, sym) is Some <==> leaf_syms(t).contains(sym),
    decreases t,
{
    match t {
        Tree::Leaf(_) => {},
        Tree::Inner(l, r) => {
            lemma_code_exists(*l, sym);
            lemma_code_exists(*r, sym);
            match *l {
                Tree::Leaf(v) => {
                    assert(dict_spec(*l, sym) is Some <==> tree_code(*l, sym) is Some);
                },
                Tree::Inner(_, _) => {},
            }
            match *r {
                Tree::Leaf(v) => {
                    assert(dict_spec(*r, sym) is Some <==> tree_code(*r, sym) is Some);
                },
                Tree::Inner(_, _) => {},
            }
        },
    }
}

/// Path codes within one tree never prefix one another.
proof fn lemma_tree_code_prefix(t: Tree, a: u8, b: u8)
    requires
        a != b,
        tree_code(t, a) is Some,
        tree_code(t, b) is Some,
    ensures
        !tree_code(t, a)->Some_0.is_prefix_of(tree_code(t, b)->Some_0),
    decreases t,
{
    match t {
        Tree::Leaf(_) => {},
        Tree::Inner(l, r) => {
            let ca = tree_code(t, a)->Some_0;
            let cb = tree_code(t, b)->Some_0;
            if tree_code(*r, a) is Some && tree_code(*r, b) is Some {
                lemma_tree_code_prefix(*r, a, b);
                let ca2 = tree_code(*r, a)->Some_0;
                let cb2 = tree_code(*r, b)->Some_0;
                if ca.is_prefix_of(cb) {
                    assert(ca2.is_prefix_of(cb2)) by {
                        assert(ca2 =~= cb2.take(ca2.len() as int)) by {
                            assert forall|k: int| 0 <= k < ca2.len() implies ca2[k] == cb2[k] by {
                                assert(ca[k + 1] == ca2[k]);
                                assert(cb[k + 1] == cb2[k]);
                                assert(ca[k + 1] == cb.take(ca.len() as int)[k + 1]);
                            }
                        }
                    }
                }
            } else if tree_code(*r, a) is None && tree_code(*r, b) is None {
                lemma_tree_code_prefix(*l, a, b);
                let ca2 = tree_code(*l, a)->Some_0;
                let cb2 = tree_code(*l, b)->Some_0;
                if ca.is_prefix_of(cb) {
                    assert(ca2.is_prefix_of(cb2)) by {
                        assert(ca2 =~= cb2.take(ca2.len() as int)) by {
                            assert forall|k: int| 0 <= k < ca2.len() implies ca2[k] == cb2[k] by {
                                assert(ca[k + 1] == ca2[k]);
                                assert(cb[k + 1] == cb2[k]);
                                assert(ca[k + 1] == cb.take(ca.len() as int)[k + 1]);
                            }
                        }
                    }
                }
            } else {
                if ca.is_prefix_of(cb) {
                    assert(ca[0] == cb.take(ca.len() as int)[0]);
                    assert(ca[0] == cb[0]);
                    assert(false);
                }
            }
        },
    }
}

/// Dictionaries are prefix-free: the code of one symbol is never a prefix of
/// the code of a different symbol from the same tree.
pub proof fn lemma_dict_prefix_free(t: Tree, a: u8, b: u8)
    requires
        a != b,
        dict_spec(t, a) is Some,
        dict_spec(t, b) is Some,
    ensures
        !dict_spec(t, a)->Some_0.is_prefix_of(dict_spec(t, b)->Some_0),
{
    match t {
        Tree::Leaf(_) => {},
        Tree::Inner(_, _) => {
            lemma_tree_code_prefix(t, a, b);
        },
    }
}

/// What compressing `s` with dictionary `d` yields: the concatenation of the
/// codes, or `None` as soon as a byte has no code.
pub open spec fn enc_syms(d: Seq<Option<Seq<bool>>>, s: Seq<u8>) -> Option<Seq<bool>>
    decreases s.len(),
{
    if s.len() == 0 {
        Some(Seq::empty())
    } else {
        match d[s[0] as int] {
            Some(c) => match enc_syms(d, s.drop_first()) {
                Some(rest) => Some(c + rest),
                None => None,
            },
            None => None,
        }
    }
}

/// What walking the tree over `bits` yields, starting from `cur`: descend
/// once per bit, emit and return to the root at a leaf, and fail when the
/// bits run out away from the root. A single-leaf tree emits its symbol for
/// every bit.
pub open spec fn walk(root: Tree, cur: Tree, bits: Seq<bool>) -> Option<Seq<u8>>
    decreases bits.len(),
{
    if bits.len() == 0 {
        if cur == root {
            Some(Seq::empty())
        } else {
            None
        }
    } else {
        let next = match cur {
            Tree::Inner(l, r) => if bits[0] {
                *r
            } else {
                *l
            },
            Tree::Leaf(_) => cur,
        };
        match next {
            Tree::Leaf(v) => match walk(root, root, bits.drop_first()) {
                Some(rest) => Some(seq![v] + rest),
                None => None,
            },
            Tree::Inner(_, _) => walk(root, next, bits.drop_first()),
        }
    }
}

/// `o` if `o` failed, else `out` glued onto `o`'s bytes.
pub open spec fn emit_prepend(out: Seq<u8>, o: Option<Seq<u8>>) -> Option<Seq<u8>> {
    match o {
        Some(rest) => Some(out + rest),
        None => None,
    }
}

/// `o` if `o` failed, else `out` glued onto `o`'s bits.
pub open spec fn bits_prepend(out: Seq<bool>, o: Option<Seq<bool>>) -> Option<Seq<bool>> {
    match o {
        Some(rest) => Some(out + rest),
        None => None,
    }
}

/// The tree that the histogram of `s` yields.
pub open spec fn huff_tree(s: Seq<u8>) -> Tree {
    build_tree(init_queue(counts_of(s)))
}

/// The Huffman container of a nonempty byte stream: a 12-bit header holding
/// the serialized tree's bit length `10 * L - 1`, the serialized tree, and
/// the dictionary-coded payload.
pub open spec fn huff_enc(s: Seq<u8>) -> Seq<bool> {
    let t = huff_tree(s);
    let l = nonzero_below(counts_of(s), 256);
    bits_of((10 * l - 1) as nat, 12) + ser_bits(t) + enc_syms(dict_view(t), s)->Some_0
}

/// What decoding a Huffman container yields: read the 12-bit tree length,
/// deserialize exactly that many tree bits, then walk the rest; `None` on a
/// short header, a short or malformed tree region, or a payload that stops
/// in the middle of a path.
pub open spec fn huff_dec(bits: Seq<bool>) -> Option<Seq<u8>> {
    if bits.len() < 12 {
        None
    } else {
        let size = bits_val(bits.take(12));
        if bits.len() < 12 + size {
            None
        } else {
            let treebits = bits.subrange(12, 12 + size as int);
            if exists|t: Tree| ser_bits(t) == treebits {
                let t = choose|t: Tree| ser_bits(t) == treebits;
                walk(t, t, bits.skip(12 + size as int))
            } else {
                None
            }
        }
    }
}

/// A symbol dictionary: one optional code per symbol value.
pub struct Dict {
    codes: Vec<Option<Vec<bool>>>,
}

impl View for Dict {
    type V = Seq<Option<Seq<bool>>>;

    closed spec fn view(&self) -> Seq<Option<Seq<bool>>> {
        self.codes@.map_values(
            |o: Option<Vec<bool>>|
                match o {
                    Some(v) => Some(v@),
                    None => None,
                },
        )
    }
}

impl Dict {
    /// A dictionary always has one slot per symbol value.
    pub open spec fn wf(&self) -> bool {
        self@.len() == 256
    }

    /// The code of a symbol, if the dictionary has one.
    pub fn get(&self, sym: u8) -> (r: Option<&Vec<bool>>)
        requires
            self.wf(),
        ensures
            match r {
                Some(code) => self@[sym as int] == Some(code@),
                None => self@[sym as int] is None,
            },
    {
        match &self.codes[sym as usize] {
            Some(code) => Some(code),
            None => None,
        }
    }
}

/// An owned copy of a bit vector.
fn clone_bits(v: &Vec<bool>) -> (r: Vec<bool>)
    ensures
        r@ == v@,
{
    let mut out: Vec<bool> = Vec::new();
    let mut i: usize = 0;
    while i < v.len()
        invariant
            i <= v@.len(),
            out@ =~= v@.take(i as int),
        decreases v@.len() - i,
    {
        out.push(v[i]);
        i = i + 1;
    }
    proof {
        assert(v@.take(v@.len() as int) =~= v@);
    }
    out
}

/// Record the code of every leaf under `t`, prefixed with the path taken so
/// far; later (rightmost) occurrences of a symbol overwrite earlier ones.
fn fill_codes(codes: &mut Vec<Option<Vec<bool>>>, t: &Tree, prefix: &Vec<bool>)
    requires
        old(codes)@.len() == 256,
    ensures
        final(codes)@.len() == 256,
        forall|sym: u8|
            match tree_code(*t, sym) {
                Some(c) => #[trigger] final(codes)@[sym as int] is Some
                    && final(codes)@[sym as int]->Some_0@ == prefix@ + c,
                None => final(codes)@[sym as int] == old(codes)@[sym as int],
            },
    decreases *t,
{
    match t {
        Tree::Leaf(v) => {
            let code = clone_bits(prefix);
            codes.set(*v as usize, Some(code));
            proof {
                assert(prefix@ + Seq::<bool>::empty() =~= prefix@);
            }
        },
        Tree::Inner(l, r) => {
            let mut pl = clone_bits(prefix);
            pl.push(false);
            fill_codes(codes, l, &pl);
            let ghost mid = codes@;
            let mut pr = clone_bits(prefix);
            pr.push(true);
            fill_codes(codes, r, &pr);
            proof {
                assert forall|sym: u8|
                    match tree_code(*t, sym) {
                        Some(c) => #[trigger] codes@[sym as int] is Some
                            && codes@[sym as int]->Some_0@ == prefix@ + c,
                        None => codes@[sym as int] == old(codes)@[sym as int],
                    } by {
                    match tree_code(*t, sym) {
                        Some(c) => {
                            if tree_code(**r, sym) is Some {
                                let cr = tree_code(**r, sym)->Some_0;
                                assert(pr@ =~= prefix@ + seq![true]);
                                assert((prefix@ + seq![true]) + cr =~= prefix@ + (seq![true] + cr));
                            } else {
                                let cl = tree_code(**l, sym)->Some_0;
                                assert(pl@ =~= prefix@ + seq![false]);
                                assert((prefix@ + seq![false]) + cl =~= prefix@ + (seq![false]
                                    + cl));
                            }
                        },
                        None => {},
                    }
                }
            }
        },
    }
}

impl Tree {
    /// Derive the symbol dictionary of this tree: each leaf's code is its
    /// path from the root, and a tree that is a single leaf assigns its one
    /// symbol the code `0`.
    pub fn to_dict(&self) -> (r: Dict)
        ensures
            r.wf(),
            forall|sym: u8| #[trigger] r@[sym as int] == dict_spec(*self, sym),
    {
        let mut codes: Vec<Option<Vec<bool>>> = Vec::new();
        let mut j: usize = 0;
        while j < 256
            invariant
                j <= 256,
                codes@.len() == j as nat,
                forall|k: int| 0 <= k < j ==> codes@[k] is None,
            decreases 256 - j,
        {
            codes.push(None);
            j = j + 1;
        }
        match self {
            Tree::Leaf(v) => {
                let mut code: Vec<bool> = Vec::new();
                code.push(false);
                proof {
                    assert(code@ =~= seq![false]);
                }
                codes.set(*v as usize, Some(code));
                let d = Dict { codes };
                proof {
                    assert forall|sym: u8| #[trigger] d@[sym as int] == dict_spec(*self, sym) by {}
                }
                d
            },
            Tree::Inner(_, _) => {
                let prefix: Vec<bool> = Vec::new();
                fill_codes(&mut codes, self, &prefix);
                let d = Dict { codes };
                proof {
                    assert forall|sym: u8| #[trigger] d@[sym as int] == dict_spec(*self, sym) by {
                        match tree_code(*self, sym) {
                            Some(c) => {
                                assert(Seq::<bool>::empty() + c =~= c);
                            },
                            None => {},
                        }
                    }
                }
                d
            },
        }
    }
}

/// Compress a byte stream with a dictionary: concatenate the code of each
/// byte; a byte without a code is an error (the dictionary and the input are
/// supplied independently).
pub fn compress(input: &[u8], dict: &Dict) -> (r: Result<Vec<bool>, ()>)
    requires
        dict.wf(),
    ensures
        r matches Ok(out) ==> enc_syms(dict@, input@) == Some(out@),
        r is Err ==> enc_syms(dict@, input@) is None,
{
    let mut out: Vec<bool> = Vec::new();
    let n = input.len();
    let mut i: usize = 0;
    proof {
        assert(input@.skip(0) =~= input@);
        if let Some(rest) = enc_syms(dict@, input@) {
            assert(Seq::<bool>::empty() + rest =~= rest);
        }
    }
    while i < n
        invariant
            i <= n,
            n == input@.len(),
            dict.wf(),
            enc_syms(dict@, input@) == bits_prepend(out@, enc_syms(dict@, input@.skip(i as int))),
        decreases n - i,
    {
        let sym = input[i];
        proof {
            assert(input@.skip(i as int)[0] == input@[i as int]);
            assert(input@.skip(i as int).drop_first() =~= input@.skip(i as int + 1));
        }
        match &dict.codes[sym as usize] {
            Some(code) => {
                let ghost pre = out@;
                let mut k: usize = 0;
                let m = code.len();
                while k < m
                    invariant
                        k <= m,
                        m == code@.len(),
                        out@ =~= pre + code@.take(k as int),
                    decreases m - k,
                {
                    out.push(code[k]);
                    k = k + 1;
                }
                proof {
                    assert(code@.take(code@.len() as int) =~= code@);
                    assert(dict@[sym as int] == Some(code@));
                    if let Some(rest) = enc_syms(dict@, input@.skip(i as int + 1)) {
                        assert((pre + code@) + rest =~= pre + (code@ + rest));
                    }
                }
            },
            None => {
                proof {
                    assert(dict@[sym as int] is None);
                }
                return Err(());
            },
        }
        i = i + 1;
    }
    proof {
        assert(input@.skip(n as int) =~= Seq::<u8>::empty());
        assert(out@ + Seq::<bool>::empty() =~= out@);
    }
    Ok(out)
}

/// Decompress a bit stream by walking the tree: descend once per bit, emit
/// the symbol and return to the root at each leaf; an error when the bits
/// end away from the root.
pub fn decompress(input: &[bool], tree: &Tree) -> (r: Result<Vec<u8>, ()>)
    ensures
        r matches Ok(out) ==> walk(*tree, *tree, input@) == Some(out@),
        r is Err ==> walk(*tree, *tree, input@) is None,
{
    let mut out: Vec<u8> = Vec::new();
    let mut node: &Tree = tree;
    let mut at_root: bool = true;
    let n = input.len();
    let mut i: usize = 0;
    proof {
        assert(input@.skip(0) =~= input@);
        if let Some(rest) = walk(*tree, *tree, input@) {
            assert(Seq::<u8>::empty() + rest =~= rest);
        }
    }
    while i < n
        invariant
            i <= n,
            n == input@.len(),
            at_root ==> *node == *tree,
            !at_root ==> tree_size(*node) < tree_size(*tree),
            walk(*tree, *tree, input@) == emit_prepend(
                out@,
                walk(*tree, *node, input@.skip(i as int)),
            ),
        decreases n - i,
    {
        let bit = input[i];
        proof {
            assert(input@.skip(i as int)[0] == input@[i as int]);
            assert(input@.skip(i as int).drop_first() =~= input@.skip(i as int + 1));
        }
        match node {
            Tree::Inner(l, r) => {
                node = if bit {
                    &**r
                } else {
                    &**l
                };
                at_root = false;
            },
            Tree::Leaf(_) => {},
        }
        match node {
            Tree::Leaf(v) => {
                proof {
                    if let Some(rest) = walk(*tree, *tree, input@.skip(i as int + 1)) {
                        assert(out@ + (seq![*v] + rest) =~= out@.push(*v) + rest);
                    }
                }
                out.push(*v);
                node = tree;
                at_root = true;
            },
            Tree::Inner(_, _) => {},
        }
        i = i + 1;
    }
    proof {
        assert(input@.skip(n as int) =~= Seq::<bool>::empty());
    }
    if at_root {
        proof {
            assert(out@ + Seq::<u8>::empty() =~= out@);
        }
        Ok(out)
    } else {
        proof {
            assert(*node != *tree);
        }
        Err(())
    }
}

/// Encode a nonempty byte stream as a Huffman container: histogram, tree,
/// 12-bit header with the tree's bit length, serialized tree, then the
/// dictionary-coded payload.
pub fn encode(input: &[u8]) -> (r: Vec<bool>)
    requires
        input@.len() > 0,
    ensures
        r@ == huff_enc(input@),
{
    let n = input.len();
    let histogram = hist(input);
    proof {
        lemma_count_positive(input@, 0);
        lemma_nonzero_at(counts_of(input@), input@[0] as int, 256);
        lemma_total_counts(input@);
    }
    let tree = Tree::new(&histogram);
    let l = histogram.distinct();
    proof {
        lemma_pow2_values();
        lemma_nonzero_at(counts_of(input@), input@[0] as int, 256);
    }
    let size: usize = 10 * l - 1;
    let header = match Bin::from_dec(size, 12) {
        Ok(b) => b,
        Err(_) => unreached(),
    };
    let mut output = header.unwrap();
    let mut tree_bits = tree.serialize();
    output.append(&mut tree_bits);
    let dict = tree.to_dict();
    proof {
        lemma_hist_tree_stats(counts_of(input@));
        assert(dict@ =~= dict_view(tree)) by {
            assert forall|k: int| 0 <= k < 256 implies dict@[k] == dict_view(tree)[k] by {
                assert(dict@[k] == dict_spec(tree, k as u8));
            }
        }
        assert forall|i: int| 0 <= i < input@.len() implies #[trigger] dict@[input@[i] as int]
            is Some by {
            lemma_count_positive(input@, i);
            lemma_code_exists(tree, input@[i]);
        }
        lemma_enc_syms_total(dict@, input@);
    }
    let mut payload = match compress(input, &dict) {
        Ok(p) => p,
        Err(_) => unreached(),
    };
    output.append(&mut payload);
    output
}

/// A dictionary that covers every byte of the stream compresses it.
proof fn lemma_enc_syms_total(d: Seq<Option<Seq<bool>>>, s: Seq<u8>)
    requires
        forall|i: int| 0 <= i < s.len() ==> #[trigger] d[s[i] as int] is Some,
    ensures
        enc_syms(d, s) is Some,
    decreases s.len(),
{
    if s.len() > 0 {
        assert(d[s[0] as int] is Some);
        assert forall|i: int|
            0 <= i < s.drop_first().len() implies #[trigger] d[s.drop_first()[i] as int]
            is Some by {
            assert(s.drop_first()[i] == s[i + 1]);
        }
        lemma_enc_syms_total(d, s.drop_first());
    }
}

/// Decode a Huffman container: read the 12-bit tree length, rebuild the tree
/// from exactly that many bits, then walk the remaining payload. Every
/// malformed container — a short header, a short or invalid tree region, or
/// a payload ending in the middle of a path — is an error.
pub fn decode(input: &[bool]) -> (r: Result<Vec<u8>, ()>)
    ensures
        r matches Ok(out) ==> huff_dec(input@) == Some(out@),
        r is Err ==> huff_dec(input@) is None,
{
    let n = input.len();
    if n < 12 {
        return Err(());
    }
    let mut header_bits: Vec<bool> = Vec::new();
    let mut j: usize = 0;
    while j < 12
        invariant
            j <= 12,
            n == input@.len(),
            n >= 12,
            header_bits@ =~= input@.subrange(0, j as int),
        decreases 12 - j,
    {
        header_bits.push(input[j]);
        j = j + 1;
    }
    proof {
        assert(header_bits@ =~= input@.take(12));
        lemma_bits_val_bound(input@.take(12));
        lemma_pow2_values();
    }
    let size = Bin::from_bits(header_bits).to_dec();
    if n - 12 < size {
        return Err(());
    }
    let mut tree_region: Vec<bool> = Vec::new();
    let mut j: usize = 0;
    while j < size
        invariant
            j <= size,
            n == input@.len(),
            12 + size <= n,
            tree_region@ =~= input@.subrange(12, 12 + j as int),
        decreases size - j,
    {
        tree_region.push(input[12 + j]);
        j = j + 1;
    }
    let ghost treebits = input@.subrange(12, 12 + size as int);
    let tree = match Tree::deserialize(tree_region.as_slice()) {
        Ok(t) => t,
        Err(_) => {
            proof {
                assert(!exists|t: Tree| ser_bits(t) == treebits);
            }
            return Err(());
        },
    };
    proof {
        assert(ser_bits(tree) == treebits);
        let t0 = choose|t: Tree| ser_bits(t) == treebits;
        assert(ser_bits(t0) + Seq::<bool>::empty() =~= ser_bits(t0));
        assert(ser_bits(tree) + Seq::<bool>::empty() =~= ser_bits(tree));
        lemma_ser_unique(t0, tree, Seq::empty(), Seq::empty());
    }
    let mut payload: Vec<bool> = Vec::new();
    let mut j: usize = 0;
    let m = n - 12 - size;
    while j < m
        invariant
            j <= m,
            n == input@.len(),
            12 + size + m == n,
            payload@ =~= input@.subrange(12 + size as int, 12 + size as int + j as int),
        decreases m - j,
    {
        payload.push(input[12 + size + j]);
        j = j + 1;
    }
    proof {
        assert(payload@ =~= input@.skip(12 + size as int));
    }
    match decompress(payload.as_slice(), &tree) {
        Ok(out) => Ok(out),
        Err(_) => Err(()),
    }
}

/// A code leads the walk from the root to its leaf and back to the root, so
/// decoding picks up the symbol and continues with the rest of the bits.
proof fn lemma_walk_code(root: Tree, t: Tree, sym: u8, rest: Seq<bool>)
    requires
        t is Inner,
        tree_code(t, sym) is Some,
    ensures
        walk(root, t, tree_code(t, sym)->Some_0 + rest) == match walk(root, root, rest) {
            Some(x) => Some(seq![sym] + x),
            None => None::<Seq<u8>>,
        },
    decreases t,
{
    let c = tree_code(t, sym)->Some_0;
    match t {
        Tree::Leaf(_) => {},
        Tree::Inner(l, r) => {
            if tree_code(*r, sym) is Some {
                let c2 = tree_code(*r, sym)->Some_0;
                assert((c + rest)[0] == true);
                assert((c + rest).drop_first() =~= c2 + rest);
                match *r {
                    Tree::Leaf(v) => {
                        assert(v == sym);
                        assert(c2 =~= Seq::<bool>::empty());
                        assert(c2 + rest =~= rest);
                    },
                    Tree::Inner(_, _) => {
                        lemma_walk_code(root, *r, sym, rest);
                    },
                }
            } else {
                let c2 = tree_code(*l, sym)->Some_0;
                assert((c + rest)[0] == false);
                assert((c + rest).drop_first() =~= c2 + rest);
                match *l {
                    Tree::Leaf(v) => {
                        assert(v == sym);
                        assert(c2 =~= Seq::<bool>::empty());
                        assert(c2 + rest =~= rest);
                    },
                    Tree::Inner(_, _) => {
                        lemma_walk_code(root, *l, sym, rest);
                    },
                }
            }
        },
    }
}

/// Compressing with a tree's own dictionary and walking the same tree is the
/// identity on byte streams whose symbols the tree covers.
proof fn lemma_walk_enc(t: Tree, s: Seq<u8>)
    requires
        forall|i: int| 0 <= i < s.len() ==> #[trigger] dict_spec(t, s[i]) is Some,
    ensures
        enc_syms(dict_view(t), s) is Some,
        walk(t, t, enc_syms(dict_view(t), s)->Some_0) == Some(s),
    decreases s.len(),
{
    let dv = dict_view(t);
    if s.len() == 0 {
        assert(walk(t, t, enc_syms(dv, s)->Some_0) == Some(Seq::<u8>::empty()));
        assert(Seq::<u8>::empty() =~= s);
    } else {
        let sym = s[0];
        assert(dict_spec(t, sym) is Some);
        assert(dv[sym as int] == dict_spec(t, sym));
        let c = dict_spec(t, sym)->Some_0;
        assert forall|i: int|
            0 <= i < s.drop_first().len() implies #[trigger] dict_spec(t, s.drop_first()[i])
            is Some by {
            assert(s.drop_first()[i] == s[i + 1]);
        }
        lemma_walk_enc(t, s.drop_first());
        let payload2 = enc_syms(dv, s.drop_first())->Some_0;
        let payload = enc_syms(dv, s)->Some_0;
        assert(payload == c + payload2);
        match t {
            Tree::Leaf(v) => {
                assert(v == sym);
                assert(c == seq![false]);
                assert((c + payload2)[0] == false);
                assert((c + payload2).drop_first() =~= payload2);
                assert(walk(t, t, payload) == Some(seq![v] + s.drop_first()));
                assert(seq![v] + s.drop_first() =~= s);
            },
            Tree::Inner(_, _) => {
                lemma_walk_code(t, t, sym, payload2);
                assert(walk(t, t, c + payload2) == Some(seq![sym] + s.drop_first()));
                assert(seq![sym] + s.drop_first() =~= s);
            },
        }
    }
}

/// Round trip: decoding an encoded nonempty byte stream gives the stream
/// back.
pub proof fn lemma_huffman_round_trip(s: Seq<u8>)
    requires
        s.len() >= 1,
    ensures
        huff_dec(huff_enc(s)) == Some(s),
{
    let h = counts_of(s);
    let t = huff_tree(s);
    let l = nonzero_below(h, 256);
    lemma_count_positive(s, 0);
    lemma_nonzero_at(h, s[0] as int, 256);
    lemma_nonzero_le(h, 256);
    lemma_hist_tree_stats(h);
    lemma_ser_len(t);
    assert forall|i: int| 0 <= i < s.len() implies #[trigger] dict_spec(t, s[i]) is Some by {
        lemma_count_positive(s, i);
        lemma_code_exists(t, s[i]);
    }
    lemma_walk_enc(t, s);
    let header = bits_of((10 * l - 1) as nat, 12);
    let payload = enc_syms(dict_view(t), s)->Some_0;
    let whole = huff_enc(s);
    lemma_bits_of_len((10 * l - 1) as nat, 12);
    lemma_pow2_values();
    lemma_bits_of_val((10 * l - 1) as nat, 12);
    assert(whole.take(12) =~= header);
    assert(bits_val(whole.take(12)) == 10 * l - 1);
    assert(ser_bits(t).len() == 10 * l - 1);
    assert(whole.len() == 12 + (10 * l - 1) + payload.len());
    assert(whole.subrange(12, 12 + (10 * l - 1)) =~= ser_bits(t));
    assert(whole.skip(12 + (10 * l - 1)) =~= payload);
    let treebits = whole.subrange(12, 12 + (10 * l - 1));
    assert(ser_bits(t) == treebits);
    let t0 = choose|t0: Tree| ser_bits(t0) == treebits;
    assert(ser_bits(t0) + Seq::<bool>::empty() =~= ser_bits(t0));
    assert(ser_bits(t) + Seq::<bool>::empty() =~= ser_bits(t));
    lemma_ser_unique(t0, t, Seq::empty(), Seq::empty());
    assert(walk(t, t, payload) == Some(s));
}

/// Re-encoding the decoded bytes of any valid container yields a container
/// that decodes to the same bytes, under the fixed tie-break rules.
pub proof fn lemma_reencode_decoded(bits: Seq<bool>, s: Seq<u8>)
    requires
        huff_dec(bits) == Some(s),
        s.len() >= 1,
    ensures
        huff_dec(huff_enc(s)) == Some(s),
{
    lemma_huffman_round_trip(s);
}

} // verus!
