//! The Huffman merge tree and its self-describing bit-level serialization.
//!
//! A tree is written in preorder: `1` announces an inner node followed by its
//! two subtrees, `0` announces a leaf followed by the symbol as 8 bits. A
//! tree with `L` leaves therefore serializes to exactly `10 * L - 1` bits.
//!
//! Deserialization works in two phases. *Map* turns the bit stream into a
//! flat list of pending-inner markers and realized leaves; *reduce* repeatedly
//! scans that list left to right and collapses each `[marker, node, node]`
//! window into one realized inner node, until a single node remains.

use vstd::prelude::*;
use vstd::pervasive::unreached;
use crate::util::binary::{Bin, bits_of, bits_val};
use crate::util::binary::{
    lemma_bits_of_len,
    lemma_bits_of_of_val,
    lemma_bits_of_val,
    lemma_bits_val_bound,
    lemma_pow2_values,
};
use crate::util::histogram::{Hist, nonzero_below, total_below};

verus! {

/// A full binary merge tree: every inner node owns exactly two subtrees and
/// every leaf carries one byte symbol.
#[derive(Debug, PartialEq, Eq, Hash)]
pub enum Tree {
    Inner(Box<Tree>, Box<Tree>),
    Leaf(u8),
}

impl Clone for Tree {
    fn clone(&self) -> (r: Self)
        ensures
            r == *self,
        decreases *self,
    {
        match self {
            Tree::Leaf(v) => Tree::Leaf(*v),
            Tree::Inner(l, r) => Tree::Inner(Box::new((**l).clone()), Box::new((**r).clone())),
        }
    }
}

/// The preorder serialization of a tree.
pub open spec fn ser_bits(t: Tree) -> Seq<bool>
    decreases t,
{
    match t {
        Tree::Leaf(v) => seq![false] + bits_of(v as nat, 8),
        Tree::Inner(l, r) => seq![true] + ser_bits(*l) + ser_bits(*r),
    }
}

/// How many leaves a tree has.
pub open spec fn leaf_count(t: Tree) -> nat
    decreases t,
{
    match t {
        Tree::Leaf(_) => 1,
        Tree::Inner(l, r) => leaf_count(*l) + leaf_count(*r),
    }
}

/// The set of symbols on the tree's leaves.
pub open spec fn leaf_syms(t: Tree) -> Set<u8>
    decreases t,
{
    match t {
        Tree::Leaf(v) => set![v],
        Tree::Inner(l, r) => leaf_syms(*l).union(leaf_syms(*r)),
    }
}

/// How many nodes a tree has in all.
pub open spec fn tree_size(t: Tree) -> nat
    decreases t,
{
    match t {
        Tree::Leaf(_) => 1,
        Tree::Inner(l, r) => 1 + tree_size(*l) + tree_size(*r),
    }
}

/// A tree with `L` leaves serializes to `10 * L - 1` bits.
pub proof fn lemma_ser_len(t: Tree)
    ensures
        ser_bits(t).len() + 1 == 10 * leaf_count(t),
        leaf_count(t) >= 1,
    decreases t,
{
    match t {
        Tree::Leaf(v) => {
            lemma_bits_of_len(v as nat, 8);
        },
        Tree::Inner(l, r) => {
            lemma_ser_len(*l);
            lemma_ser_len(*r);
        },
    }
}

/// Cancelling a shared prefix of two equal concatenations.
proof fn lemma_concat_cancel(p: Seq<bool>, x: Seq<bool>, y: Seq<bool>)
    requires
        p + x == p + y,
    ensures
        x == y,
{
    assert((p + x).len() == p.len() + x.len());
    assert((p + y).len() == p.len() + y.len());
    assert(x.len() == y.len());
    assert(x =~= y) by {
        assert forall|k: int| 0 <= k < x.len() implies x[k] == y[k] by {
            assert((p + x)[p.len() + k] == x[k]);
            assert((p + y)[p.len() + k] == y[k]);
        }
    }
}

proof fn lemma_add_assoc(a: Seq<bool>, b: Seq<bool>, c: Seq<bool>)
    ensures
        (a + b) + c == a + (b + c),
{
    assert((a + b) + c =~= a + (b + c));
}

/// Serializations are uniquely decodable: two serialized trees followed by
/// anything at all can only agree when the trees agree.
pub proof fn lemma_ser_unique(a: Tree, b: Tree, x: Seq<bool>, y: Seq<bool>)
    requires
        ser_bits(a) + x == ser_bits(b) + y,
    ensures
        a == b,
        x == y,
    decreases a,
{
    let sa = ser_bits(a);
    let sb = ser_bits(b);
    match (a, b) {
        (Tree::Leaf(va), Tree::Leaf(vb)) => {
            lemma_bits_of_len(va as nat, 8);
            lemma_bits_of_len(vb as nat, 8);
            assert(bits_of(va as nat, 8) =~= bits_of(vb as nat, 8)) by {
                assert forall|i: int| 0 <= i < 8 implies bits_of(va as nat, 8)[i] == bits_of(
                    vb as nat,
                    8,
                )[i] by {
                    assert((sa + x)[i + 1] == bits_of(va as nat, 8)[i]);
                    assert((sb + y)[i + 1] == bits_of(vb as nat, 8)[i]);
                }
            }
            lemma_pow2_values();
            lemma_bits_of_val(va as nat, 8);
            lemma_bits_of_val(vb as nat, 8);
            assert(a == b);
            lemma_concat_cancel(sa, x, y);
        },
        (Tree::Inner(al, ar), Tree::Inner(bl, br)) => {
            lemma_add_assoc(seq![true] + ser_bits(*al), ser_bits(*ar), x);
            lemma_add_assoc(seq![true], ser_bits(*al), ser_bits(*ar) + x);
            lemma_add_assoc(seq![true] + ser_bits(*bl), ser_bits(*br), y);
            lemma_add_assoc(seq![true], ser_bits(*bl), ser_bits(*br) + y);
            lemma_concat_cancel(
                seq![true],
                ser_bits(*al) + (ser_bits(*ar) + x),
                ser_bits(*bl) + (ser_bits(*br) + y),
            );
            lemma_ser_unique(*al, *bl, ser_bits(*ar) + x, ser_bits(*br) + y);
            lemma_ser_unique(*ar, *br, x, y);
        },
        (Tree::Leaf(_), Tree::Inner(_, _)) => {
            assert((sa + x)[0] == false);
            assert((sb + y)[0] == true);
        },
        (Tree::Inner(_, _), Tree::Leaf(_)) => {
            assert((sa + x)[0] == true);
            assert((sb + y)[0] == false);
        },
    }
}

/// Every serialization contains a `0` bit.
pub proof fn lemma_ser_has_zero(t: Tree)
    ensures
        exists|i: int| 0 <= i < ser_bits(t).len() && !ser_bits(t)[i],
    decreases t,
{
    match t {
        Tree::Leaf(_) => {
            assert(!ser_bits(t)[0]);
        },
        Tree::Inner(l, r) => {
            lemma_ser_has_zero(*l);
            let i = choose|i: int| 0 <= i < ser_bits(*l).len() && !ser_bits(*l)[i];
            assert((seq![true] + ser_bits(*l))[1 + i] == ser_bits(*l)[i]);
            assert(ser_bits(t)[1 + i] == ser_bits(*l)[i]);
        },
    }
}

/// A bit stream of only `1`s never deserializes: it is no tree's image.
pub proof fn lemma_all_ones_rejected(s: Seq<bool>)
    requires
        forall|i: int| 0 <= i < s.len() ==> s[i],
    ensures
        forall|t: Tree| s != ser_bits(t),
{
    assert forall|t: Tree| s != ser_bits(t) by {
        lemma_ser_has_zero(t);
    }
}

/// A bit stream of fewer than 9 bits never deserializes: even a single leaf
/// takes 9 bits.
pub proof fn lemma_short_input_rejected(s: Seq<bool>)
    requires
        s.len() < 9,
    ensures
        forall|t: Tree| s != ser_bits(t),
{
    assert forall|t: Tree| s != ser_bits(t) by {
        lemma_ser_len(t);
    }
}

/// The exec construction queue seen as a ghost weighted queue.
pub open spec fn qview(q: Seq<(Tree, usize)>) -> Seq<(Tree, nat)> {
    q.map_values(|e: (Tree, usize)| (e.0, e.1 as nat))
}

/// Insert into a weight-descending queue, after any entries of equal weight.
pub open spec fn insert_after_ties(q: Seq<(Tree, nat)>, e: (Tree, nat)) -> Seq<(Tree, nat)>
    decreases q.len(),
{
    if q.len() == 0 {
        seq![e]
    } else if q[0].1 >= e.1 {
        seq![q[0]] + insert_after_ties(q.drop_first(), e)
    } else {
        seq![e] + q
    }
}

/// Insert into a weight-descending queue, before any entries of equal weight.
pub open spec fn insert_before_ties(q: Seq<(Tree, nat)>, e: (Tree, nat)) -> Seq<(Tree, nat)>
    decreases q.len(),
{
    if q.len() == 0 {
        seq![e]
    } else if q[0].1 > e.1 {
        seq![q[0]] + insert_before_ties(q.drop_first(), e)
    } else {
        seq![e] + q
    }
}

proof fn lemma_insert_after_len(q: Seq<(Tree, nat)>, e: (Tree, nat))
    ensures
        insert_after_ties(q, e).len() == q.len() + 1,
    decreases q.len(),
{
    if q.len() > 0 && q[0].1 >= e.1 {
        lemma_insert_after_len(q.drop_first(), e);
    }
}

proof fn lemma_insert_before_len(q: Seq<(Tree, nat)>, e: (Tree, nat))
    ensures
        insert_before_ties(q, e).len() == q.len() + 1,
    decreases q.len(),
{
    if q.len() > 0 && q[0].1 > e.1 {
        lemma_insert_before_len(q.drop_first(), e);
    }
}

/// Where `insert_after_ties` puts its entry: at the first position whose
/// weight is strictly below the new entry's.
proof fn lemma_insert_after_at(q: Seq<(Tree, nat)>, e: (Tree, nat), p: int)
    requires
        0 <= p <= q.len(),
        forall|k: int| 0 <= k < p ==> q[k].1 >= e.1,
        p < q.len() ==> q[p].1 < e.1,
    ensures
        insert_after_ties(q, e) == q.insert(p, e),
    decreases q.len(),
{
    if p == 0 {
        if q.len() == 0 {
            assert(insert_after_ties(q, e) =~= q.insert(0, e));
        } else {
            assert(insert_after_ties(q, e) =~= q.insert(0, e));
        }
    } else {
        assert(q[0].1 >= e.1);
        lemma_insert_after_at(q.drop_first(), e, p - 1);
        assert(seq![q[0]] + q.drop_first().insert(p - 1, e) =~= q.insert(p, e));
    }
}

/// Where `insert_before_ties` puts its entry: at the first position whose
/// weight does not exceed the new entry's.
proof fn lemma_insert_before_at(q: Seq<(Tree, nat)>, e: (Tree, nat), p: int)
    requires
        0 <= p <= q.len(),
        forall|k: int| 0 <= k < p ==> q[k].1 > e.1,
        p < q.len() ==> q[p].1 <= e.1,
    ensures
        insert_before_ties(q, e) == q.insert(p, e),
    decreases q.len(),
{
    if p == 0 {
        assert(insert_before_ties(q, e) =~= q.insert(0, e));
    } else {
        assert(q[0].1 > e.1);
        lemma_insert_before_at(q.drop_first(), e, p - 1);
        assert(seq![q[0]] + q.drop_first().insert(p - 1, e) =~= q.insert(p, e));
    }
}

/// The initial queue of a histogram: one weighted leaf per symbol with a
/// nonzero count among the first `n` symbol values, each taken in ascending
/// symbol order and inserted after its weight ties. The result is ordered by
/// weight descending, ties by symbol ascending.
pub open spec fn init_queue_below(h: Seq<nat>, n: int) -> Seq<(Tree, nat)>
    decreases n,
{
    if n <= 0 {
        Seq::empty()
    } else {
        let q = init_queue_below(h, n - 1);
        if h[n - 1] > 0 {
            insert_after_ties(q, (Tree::Leaf((n - 1) as u8), h[n - 1]))
        } else {
            q
        }
    }
}

/// The initial queue over the whole symbol alphabet.
pub open spec fn init_queue(h: Seq<nat>) -> Seq<(Tree, nat)> {
    init_queue_below(h, 256)
}

/// The merge loop: while two entries remain, take the two lightest (at the
/// tail of the descending queue), wrap them in an inner node whose weight is
/// their sum, and reinsert that node before its weight ties.
pub open spec fn build_tree(q: Seq<(Tree, nat)>) -> Tree
    decreases q.len(),
    via build_tree_decreases
{
    if q.len() == 0 {
        Tree::Leaf(0)
    } else if q.len() == 1 {
        q[0].0
    } else {
        let l = q[q.len() - 1];
        let r = q[q.len() - 2];
        let merged = (Tree::Inner(Box::new(l.0), Box::new(r.0)), (l.1 + r.1) as nat);
        build_tree(insert_before_ties(q.take(q.len() - 2), merged))
    }
}

#[via_fn]
proof fn build_tree_decreases(q: Seq<(Tree, nat)>) {
    if q.len() >= 2 {
        let l = q[q.len() - 1];
        let r = q[q.len() - 2];
        lemma_insert_before_len(
            q.take(q.len() - 2),
            (Tree::Inner(Box::new(l.0), Box::new(r.0)), (l.1 + r.1) as nat),
        );
    }
}

/// The total weight carried by a queue.
pub open spec fn qsum(q: Seq<(Tree, nat)>) -> nat
    decreases q.len(),
{
    if q.len() == 0 {
        0
    } else {
        q[0].1 + qsum(q.drop_first())
    }
}

/// All symbols on the leaves of a queue's trees.
pub open spec fn q_syms(q: Seq<(Tree, nat)>) -> Set<u8>
    decreases q.len(),
{
    if q.len() == 0 {
        Set::empty()
    } else {
        leaf_syms(q[0].0).union(q_syms(q.drop_first()))
    }
}

/// The total leaf count over a queue's trees.
pub open spec fn q_leaves(q: Seq<(Tree, nat)>) -> nat
    decreases q.len(),
{
    if q.len() == 0 {
        0
    } else {
        leaf_count(q[0].0) + q_leaves(q.drop_first())
    }
}

proof fn lemma_q_stats_push(q: Seq<(Tree, nat)>, e: (Tree, nat))
    ensures
        qsum(q.push(e)) == qsum(q) + e.1,
        q_syms(q.push(e)) =~= q_syms(q).union(leaf_syms(e.0)),
        q_leaves(q.push(e)) == q_leaves(q) + leaf_count(e.0),
    decreases q.len(),
{
    if q.len() == 0 {
        assert(q.push(e)[0] == e);
        assert(q.push(e).drop_first() =~= Seq::<(Tree, nat)>::empty());
        assert(qsum(Seq::<(Tree, nat)>::empty()) == 0);
        assert(q_syms(Seq::<(Tree, nat)>::empty()) == Set::<u8>::empty());
        assert(q_leaves(Seq::<(Tree, nat)>::empty()) == 0);
        assert(qsum(q.push(e)) == e.1 + qsum(Seq::<(Tree, nat)>::empty()));
        assert(q_leaves(q.push(e)) == leaf_count(e.0) + q_leaves(Seq::<(Tree, nat)>::empty()));
        assert(q_syms(q.push(e)) =~= q_syms(q).union(leaf_syms(e.0)));
    } else {
        assert(q.push(e)[0] == q[0]);
        assert(q.push(e).drop_first() =~= q.drop_first().push(e));
        lemma_q_stats_push(q.drop_first(), e);
        assert(qsum(q.push(e)) == q[0].1 + qsum(q.drop_first().push(e)));
        assert(q_leaves(q.push(e)) == leaf_count(q[0].0) + q_leaves(q.drop_first().push(e)));
        assert(q_syms(q.push(e)) =~= q_syms(q).union(leaf_syms(e.0)));
    }
}

/// Inserting an entry adds its weight, symbols and leaves, wherever it lands.
proof fn lemma_q_stats_insert(q: Seq<(Tree, nat)>, e: (Tree, nat), p: int)
    requires
        0 <= p <= q.len(),
    ensures
        qsum(q.insert(p, e)) == qsum(q) + e.1,
        q_syms(q.insert(p, e)) =~= q_syms(q).union(leaf_syms(e.0)),
        q_leaves(q.insert(p, e)) == q_leaves(q) + leaf_count(e.0),
    decreases q.len(),
{
    if p == 0 {
        assert(q.insert(0, e)[0] == e);
        assert(q.insert(0, e).drop_first() =~= q);
    } else {
        assert(q.insert(p, e)[0] == q[0]);
        assert(q.insert(p, e).drop_first() =~= q.drop_first().insert(p - 1, e));
        lemma_q_stats_insert(q.drop_first(), e, p - 1);
        assert(q_syms(q.insert(p, e)) =~= q_syms(q).union(leaf_syms(e.0)));
    }
}

/// Popping the tail: a queue is its front plus its last entry.
proof fn lemma_q_stats_unsnoc(q: Seq<(Tree, nat)>)
    requires
        q.len() >= 1,
    ensures
        qsum(q) == qsum(q.drop_last()) + q.last().1,
        q_syms(q) =~= q_syms(q.drop_last()).union(leaf_syms(q.last().0)),
        q_leaves(q) == q_leaves(q.drop_last()) + leaf_count(q.last().0),
{
    lemma_q_stats_push(q.drop_last(), q.last());
    assert(q.drop_last().push(q.last()) =~= q);
}

/// The merge loop neither invents nor loses leaves: the final tree carries
/// exactly the queue's symbols, and exactly as many leaves as the queue.
proof fn lemma_build_tree_stats(q: Seq<(Tree, nat)>)
    requires
        q.len() >= 1,
    ensures
        leaf_syms(build_tree(q)) =~= q_syms(q),
        leaf_count(build_tree(q)) == q_leaves(q),
    decreases q.len(),
{
    if q.len() == 1 {
        assert(q.drop_first() =~= Seq::<(Tree, nat)>::empty());
        assert(q_syms(Seq::<(Tree, nat)>::empty()) == Set::<u8>::empty());
        assert(q_leaves(Seq::<(Tree, nat)>::empty()) == 0);
        assert(q_leaves(q) == leaf_count(q[0].0) + q_leaves(Seq::<(Tree, nat)>::empty()));
        assert(q_syms(q) =~= leaf_syms(q[0].0));
    } else {
        let l = q[q.len() - 1];
        let r = q[q.len() - 2];
        let merged = (Tree::Inner(Box::new(l.0), Box::new(r.0)), (l.1 + r.1) as nat);
        let front = q.take(q.len() - 2);
        let next = insert_before_ties(front, merged);
        lemma_insert_before_len(front, merged);
        assert(exists|p: int|
            0 <= p <= front.len() && next == #[trigger] front.insert(p, merged)) by {
            lemma_insert_somewhere(front, merged);
        }
        let p = choose|p: int| 0 <= p <= front.len() && next == #[trigger] front.insert(p, merged);
        lemma_q_stats_insert(front, merged, p);
        lemma_q_stats_unsnoc(q);
        lemma_q_stats_unsnoc(q.drop_last());
        assert(q.drop_last().drop_last() =~= front);
        assert(q.drop_last().last() == r);
        lemma_build_tree_stats(next);
        assert(leaf_syms(build_tree(q)) =~= q_syms(q));
    }
}

/// `insert_before_ties` always lands at some position.
proof fn lemma_insert_somewhere(q: Seq<(Tree, nat)>, e: (Tree, nat))
    ensures
        exists|p: int| 0 <= p <= q.len() && insert_before_ties(q, e) == #[trigger] q.insert(p, e),
    decreases q.len(),
{
    if q.len() == 0 || q[0].1 <= e.1 {
        assert(insert_before_ties(q, e) =~= q.insert(0, e));
    } else {
        lemma_insert_somewhere(q.drop_first(), e);
        let p = choose|p: int|
            0 <= p <= q.drop_first().len() && insert_before_ties(q.drop_first(), e)
                == #[trigger] q.drop_first().insert(p, e);
        assert(seq![q[0]] + q.drop_first().insert(p, e) =~= q.insert(p + 1, e));
        assert(insert_before_ties(q, e) == q.insert(p + 1, e));
    }
}

/// Queue statistics of the initial queue: its length counts the nonzero
/// slots, its weight is their total, and its symbols are exactly those with
/// a nonzero count below `n`.
proof fn lemma_init_queue_stats(h: Seq<nat>, n: int)
    requires
        0 <= n <= 256,
        h.len() == 256,
    ensures
        init_queue_below(h, n).len() == nonzero_below(h, n),
        qsum(init_queue_below(h, n)) == total_below(h, n),
        q_syms(init_queue_below(h, n)) =~= Set::new(
            |sym: u8| (sym as int) < n && h[sym as int] > 0,
        ),
        q_leaves(init_queue_below(h, n)) == init_queue_below(h, n).len(),
    decreases n,
{
    if n <= 0 {
        assert(q_syms(init_queue_below(h, n)) =~= Set::new(
            |sym: u8| (sym as int) < n && h[sym as int] > 0,
        ));
    } else {
        lemma_init_queue_stats(h, n - 1);
        let q = init_queue_below(h, n - 1);
        if h[n - 1] > 0 {
            let e = (Tree::Leaf((n - 1) as u8), h[n - 1]);
            lemma_insert_after_len(q, e);
            assert(exists|p: int| 0 <= p <= q.len() && insert_after_ties(q, e) == #[trigger] q.insert(
                p,
                e,
            )) by {
                lemma_insert_after_somewhere(q, e);
            }
            let p = choose|p: int|
                0 <= p <= q.len() && insert_after_ties(q, e) == #[trigger] q.insert(p, e);
            lemma_q_stats_insert(q, e, p);
            assert(q_syms(init_queue_below(h, n)) =~= Set::new(
                |sym: u8| (sym as int) < n && h[sym as int] > 0,
            ));
        } else {
            assert(q_syms(init_queue_below(h, n)) =~= Set::new(
                |sym: u8| (sym as int) < n && h[sym as int] > 0,
            ));
        }
    }
}

/// `insert_after_ties` always lands at some position.
proof fn lemma_insert_after_somewhere(q: Seq<(Tree, nat)>, e: (Tree, nat))
    ensures
        exists|p: int| 0 <= p <= q.len() && insert_after_ties(q, e) == #[trigger] q.insert(p, e),
    decreases q.len(),
{
    if q.len() == 0 || q[0].1 < e.1 {
        assert(insert_after_ties(q, e) =~= q.insert(0, e));
    } else {
        lemma_insert_after_somewhere(q.drop_first(), e);
        let p = choose|p: int|
            0 <= p <= q.drop_first().len() && insert_after_ties(q.drop_first(), e)
                == #[trigger] q.drop_first().insert(p, e);
        assert(seq![q[0]] + q.drop_first().insert(p, e) =~= q.insert(p + 1, e));
        assert(insert_after_ties(q, e) == q.insert(p + 1, e));
    }
}

/// The tree a histogram yields, together with its statistics.
pub proof fn lemma_hist_tree_stats(h: Seq<nat>)
    requires
        h.len() == 256,
        nonzero_below(h, 256) >= 1,
    ensures
        leaf_syms(build_tree(init_queue(h))) =~= Set::new(|sym: u8| h[sym as int] > 0),
        leaf_count(build_tree(init_queue(h))) == nonzero_below(h, 256),
{
    lemma_init_queue_stats(h, 256);
    lemma_build_tree_stats(init_queue(h));
    assert(Set::new(|sym: u8| (sym as int) < 256 && h[sym as int] > 0) =~= Set::new(
        |sym: u8| h[sym as int] > 0,
    ));
}

/// The bits a map-phase entry stands for: a pending marker is the `1` bit it
/// came from, a realized node is its whole serialization.
pub open spec fn unparse_one(o: Option<Tree>) -> Seq<bool> {
    match o {
        None => seq![true],
        Some(t) => ser_bits(t),
    }
}

/// The bits a whole map-phase list stands for.
pub open spec fn unparse(q: Seq<Option<Tree>>) -> Seq<bool>
    decreases q.len(),
{
    if q.len() == 0 {
        Seq::empty()
    } else {
        unparse_one(q[0]) + unparse(q.drop_first())
    }
}

proof fn lemma_unparse_push(q: Seq<Option<Tree>>, o: Option<Tree>)
    ensures
        unparse(q.push(o)) == unparse(q) + unparse_one(o),
    decreases q.len(),
{
    if q.len() == 0 {
        assert(q.push(o).drop_first() =~= Seq::<Option<Tree>>::empty());
        assert(q.push(o)[0] == o);
        assert(unparse(q.push(o)) == unparse_one(o) + unparse(Seq::<Option<Tree>>::empty()));
        assert(unparse(q.push(o)) =~= unparse(q) + unparse_one(o));
    } else {
        assert(q.push(o).drop_first() =~= q.drop_first().push(o));
        lemma_unparse_push(q.drop_first(), o);
        lemma_add_assoc(unparse_one(q[0]), unparse(q.drop_first()), unparse_one(o));
    }
}

proof fn lemma_unparse_len_ge(q: Seq<Option<Tree>>)
    ensures
        unparse(q).len() >= q.len(),
    decreases q.len(),
{
    if q.len() > 0 {
        match q[0] {
            None => {},
            Some(t) => {
                lemma_ser_len(t);
            },
        }
        lemma_unparse_len_ge(q.drop_first());
    }
}

/// Unfolding `unparse` at position `i`.
proof fn lemma_unparse_skip1(q: Seq<Option<Tree>>, i: int)
    requires
        0 <= i < q.len(),
    ensures
        unparse(q.skip(i)) == unparse_one(q[i]) + unparse(q.skip(i + 1)),
{
    assert(q.skip(i)[0] == q[i]);
    assert(q.skip(i).drop_first() =~= q.skip(i + 1));
}

/// Three elements starting at `i` form a collapsible window: a pending
/// marker followed by two realized nodes.
pub open spec fn window_at(q: Seq<Option<Tree>>, i: int) -> bool {
    &&& 0 <= i
    &&& i + 2 < q.len()
    &&& q[i] is None
    &&& q[i + 1] is Some
    &&& q[i + 2] is Some
}

/// The preorder bits of a sequence of trees, one serialization after the
/// other.
pub open spec fn forest_ser(f: Seq<Tree>) -> Seq<bool>
    decreases f.len(),
{
    if f.len() == 0 {
        Seq::empty()
    } else {
        ser_bits(f[0]) + forest_ser(f.drop_first())
    }
}

/// A forest as a map-phase list of realized nodes.
pub open spec fn all_some(f: Seq<Tree>) -> Seq<Option<Tree>> {
    f.map_values(|t: Tree| Some(t))
}

/// The key progress fact of the reduce phase: a list that stands for the
/// preorder bits of a (nonempty) forest either is exactly that forest,
/// realized, or still contains a collapsible window.
proof fn lemma_forest_progress(state: Seq<Option<Tree>>, f: Seq<Tree>)
    requires
        unparse(state) == forest_ser(f),
        f.len() >= 1,
    ensures
        state == all_some(f) || exists|j: int| window_at(state, j),
    decreases unparse(state).len(),
{
    lemma_ser_len(f[0]);
    if state.len() == 0 {
        assert(forest_ser(f).len() >= ser_bits(f[0]).len());
        assert(false);
    } else {
        let rest = state.drop_first();
        match state[0] {
            Some(t0) => {
                lemma_ser_unique(t0, f[0], unparse(rest), forest_ser(f.drop_first()));
                lemma_ser_len(t0);
                if f.len() == 1 {
                    assert(forest_ser(f.drop_first()) == Seq::<bool>::empty());
                    lemma_unparse_len_ge(rest);
                    assert(rest.len() == 0);
                    assert(state =~= all_some(f));
                } else {
                    lemma_forest_progress(rest, f.drop_first());
                    if rest == all_some(f.drop_first()) {
                        assert(state =~= all_some(f)) by {
                            assert(all_some(f).len() == f.len());
                            assert(rest.len() == f.len() - 1);
                            assert forall|k: int| 0 <= k < state.len() implies state[k] == all_some(
                                f,
                            )[k] by {
                                if k == 0 {
                                    assert(all_some(f)[0] == Some(f[0]));
                                } else {
                                    assert(state[k] == rest[k - 1]);
                                    assert(all_some(f.drop_first())[k - 1] == Some(
                                        f.drop_first()[k - 1],
                                    ));
                                    assert(all_some(f)[k] == Some(f[k]));
                                }
                            }
                        }
                    } else {
                        let j = choose|j: int| window_at(rest, j);
                        assert(rest[j] == state[j + 1]);
                        assert(rest[j + 1] == state[j + 2]);
                        assert(rest[j + 2] == state[j + 3]);
                        assert(window_at(state, j + 1));
                    }
                }
            },
            None => {
                match f[0] {
                    Tree::Leaf(_) => {
                        assert(unparse(state)[0] == true);
                        assert(ser_bits(f[0])[0] == false);
                        assert(forest_ser(f)[0] == false);
                        assert(false);
                    },
                    Tree::Inner(l0, r0) => {
                        let frest = f.drop_first();
                        let newf = seq![*l0, *r0] + frest;
                        assert(unparse(rest) == forest_ser(newf)) by {
                            lemma_add_assoc(seq![true] + ser_bits(*l0), ser_bits(*r0), forest_ser(frest));
                            lemma_add_assoc(seq![true], ser_bits(*l0), ser_bits(*r0) + forest_ser(frest));
                            lemma_add_assoc(ser_bits(*l0), ser_bits(*r0), forest_ser(frest));
                            lemma_concat_cancel(
                                seq![true],
                                unparse(rest),
                                ser_bits(*l0) + ser_bits(*r0) + forest_ser(frest),
                            );
                            assert(newf.drop_first() =~= seq![*r0] + frest);
                            assert((seq![*r0] + frest).drop_first() =~= frest);
                            assert(newf[0] == *l0);
                            assert((seq![*r0] + frest)[0] == *r0);
                            assert(forest_ser(seq![*r0] + frest) == ser_bits(*r0) + forest_ser(
                                frest,
                            ));
                            assert(forest_ser(newf) == ser_bits(*l0) + forest_ser(
                                seq![*r0] + frest,
                            ));
                            assert(forest_ser(newf) == ser_bits(*l0) + (ser_bits(*r0) + forest_ser(
                                frest,
                            )));
                        }
                        lemma_forest_progress(rest, newf);
                        if rest == all_some(newf) {
                            assert(rest.len() == newf.len());
                            assert(state.len() >= 3);
                            assert(state[1] == rest[0]);
                            assert(state[2] == rest[1]);
                            assert(window_at(state, 0));
                        } else {
                            let j = choose|j: int| window_at(rest, j);
                            assert(rest[j] == state[j + 1]);
                            assert(rest[j + 1] == state[j + 2]);
                            assert(rest[j + 2] == state[j + 3]);
                            assert(window_at(state, j + 1));
                        }
                    },
                }
            },
        }
    }
}

/// What the map phase makes of a bit stream: `1` becomes a pending marker,
/// `0` plus 8 symbol bits becomes a realized leaf; a `0` with fewer than 8
/// bits after it fails.
pub open spec fn tokenize(bits: Seq<bool>) -> Option<Seq<Option<Tree>>>
    decreases bits.len(),
{
    if bits.len() == 0 {
        Some(Seq::empty())
    } else if bits[0] {
        match tokenize(bits.drop_first()) {
            Some(tk) => Some(seq![None] + tk),
            None => None,
        }
    } else if bits.len() < 9 {
        None
    } else {
        let v = bits_val(bits.subrange(1, 9));
        match tokenize(bits.skip(9)) {
            Some(tk) => Some(seq![Some(Tree::Leaf(v as u8))] + tk),
            None => None,
        }
    }
}

/// A successful map phase stands for exactly the bits it read.
proof fn lemma_tokenize_unparse(bits: Seq<bool>)
    ensures
        tokenize(bits) matches Some(tk) ==> unparse(tk) == bits,
    decreases bits.len(),
{
    if bits.len() == 0 {
    } else if bits[0] {
        lemma_tokenize_unparse(bits.drop_first());
        if let Some(tk) = tokenize(bits.drop_first()) {
            let whole = seq![None::<Tree>] + tk;
            assert(whole.drop_first() =~= tk);
            assert(unparse(whole) == seq![true] + bits.drop_first());
            assert(seq![true] + bits.drop_first() =~= bits);
        }
    } else if bits.len() < 9 {
    } else {
        lemma_tokenize_unparse(bits.skip(9));
        if let Some(tk) = tokenize(bits.skip(9)) {
            let sub = bits.subrange(1, 9);
            let v = bits_val(sub);
            lemma_bits_val_bound(sub);
            lemma_pow2_values();
            lemma_bits_of_of_val(sub);
            assert(bits_of((v as u8) as nat, 8) == sub);
            let leaf = Tree::Leaf(v as u8);
            let whole = seq![Some(leaf)] + tk;
            assert(whole.drop_first() =~= tk);
            assert(unparse(whole) == (seq![false] + sub) + bits.skip(9));
            assert((seq![false] + sub) + bits.skip(9) =~= bits);
        }
    }
}

/// The map phase succeeds on a serialized tree (whatever follows it), and on
/// nothing that a serialized tree leaves dangling.
proof fn lemma_tokenize_ser(t: Tree, x: Seq<bool>)
    ensures
        (tokenize(ser_bits(t) + x) is Some) <==> (tokenize(x) is Some),
    decreases t,
{
    let s = ser_bits(t) + x;
    match t {
        Tree::Leaf(v) => {
            lemma_bits_of_len(v as nat, 8);
            assert(s[0] == false);
            assert(s.len() >= 9);
            assert(s.skip(9) =~= x);
        },
        Tree::Inner(l, r) => {
            assert(s[0] == true);
            lemma_add_assoc(seq![true] + ser_bits(*l), ser_bits(*r), x);
            lemma_add_assoc(seq![true], ser_bits(*l), ser_bits(*r) + x);
            assert(s.drop_first() =~= ser_bits(*l) + (ser_bits(*r) + x));
            lemma_tokenize_ser(*l, ser_bits(*r) + x);
            lemma_tokenize_ser(*r, x);
        },
    }
}

/// `o` if `o` failed, else `prefix` glued onto `o`'s list.
pub open spec fn opt_prepend(
    prefix: Seq<Option<Tree>>,
    o: Option<Seq<Option<Tree>>>,
) -> Option<Seq<Option<Tree>>> {
    match o {
        Some(tk) => Some(prefix + tk),
        None => None,
    }
}

impl Tree {
    /// Build the minimal-weight merge tree of a histogram: start from the
    /// weighted leaves sorted by weight descending (ties by symbol
    /// ascending), then repeatedly merge the two lightest entries and
    /// reinsert the merged node before its weight ties, until one tree
    /// remains. A histogram with a single distinct symbol yields that leaf.
    pub fn new(histogram: &Hist) -> (r: Self)
        requires
            histogram.wf(),
            nonzero_below(histogram@, 256) >= 1,
            total_below(histogram@, 256) <= usize::MAX,
        ensures
            r == build_tree(init_queue(histogram@)),
    {
        let ghost h = histogram@;
        let mut q: Vec<(Tree, usize)> = Vec::new();
        let mut sym: usize = 0;
        proof {
            assert(qview(q@) =~= init_queue_below(h, 0));
        }
        while sym < 256
            invariant
                sym <= 256,
                histogram.wf(),
                h == histogram@,
                qview(q@) == init_queue_below(h, sym as int),
            decreases 256 - sym,
        {
            let c = histogram.count(sym as u8);
            if c > 0 {
                let ghost q0 = qview(q@);
                let mut j: usize = 0;
                while j < q.len() && q[j].1 >= c
                    invariant
                        j <= q@.len(),
                        qview(q@) == q0,
                        forall|k: int| 0 <= k < j ==> q0[k].1 >= c as nat,
                    decreases q@.len() - j,
                {
                    j = j + 1;
                }
                let e = (Tree::Leaf(sym as u8), c);
                proof {
                    if j < q@.len() {
                        assert(q0[j as int].1 < c as nat);
                    }
                    lemma_insert_after_at(q0, (e.0, e.1 as nat), j as int);
                }
                q.insert(j, e);
                proof {
                    assert(qview(q@) =~= q0.insert(j as int, (Tree::Leaf(sym as u8), c as nat)));
                }
            }
            sym = sym + 1;
        }
        proof {
            lemma_init_queue_stats(h, 256);
        }
        let ghost target = build_tree(init_queue(h));
        while q.len() > 1
            invariant
                q@.len() >= 1,
                build_tree(qview(q@)) == target,
                qsum(qview(q@)) == total_below(h, 256),
                total_below(h, 256) <= usize::MAX,
            decreases q@.len(),
        {
            let ghost pre = qview(q@);
            let l = match q.pop() {
                Some(l) => l,
                None => unreached(),
            };
            let r = match q.pop() {
                Some(r) => r,
                None => unreached(),
            };
            proof {
                lemma_q_stats_unsnoc(pre);
                lemma_q_stats_unsnoc(pre.drop_last());
                assert(pre.last() == (l.0, l.1 as nat));
                assert(pre.drop_last().last() == (r.0, r.1 as nat));
                assert(qview(q@) =~= pre.drop_last().drop_last());
                assert(pre.take(pre.len() - 2) =~= pre.drop_last().drop_last());
            }
            let w = l.1 + r.1;
            let node = (Tree::Inner(Box::new(l.0), Box::new(r.0)), w);
            let ghost front = qview(q@);
            let ghost merged = (node.0, node.1 as nat);
            let mut j: usize = 0;
            while j < q.len() && q[j].1 > w
                invariant
                    j <= q@.len(),
                    qview(q@) == front,
                    forall|k: int| 0 <= k < j ==> front[k].1 > w as nat,
                decreases q@.len() - j,
            {
                j = j + 1;
            }
            proof {
                if j < q@.len() {
                    assert(front[j as int].1 <= w as nat);
                }
                lemma_insert_before_at(front, merged, j as int);
                lemma_q_stats_insert(front, merged, j as int);
            }
            q.insert(j, node);
            proof {
                assert(qview(q@) =~= front.insert(j as int, merged));
                assert(build_tree(pre) == build_tree(insert_before_ties(front, merged)));
            }
        }
        let ghost fin = qview(q@);
        let root = match q.pop() {
            Some(e) => e,
            None => unreached(),
        };
        proof {
            assert(fin.last() == (root.0, root.1 as nat));
            assert(build_tree(fin) == fin[0].0);
        }
        root.0
    }

    /// Serialize the tree in preorder: `1` plus both subtrees for an inner
    /// node, `0` plus 8 symbol bits for a leaf.
    pub fn serialize(&self) -> (r: Vec<bool>)
        ensures
            r@ == ser_bits(*self),
        decreases *self,
    {
        match self {
            Tree::Leaf(v) => {
                proof {
                    lemma_pow2_values();
                }
                let mut buf: Vec<bool> = Vec::new();
                buf.push(false);
                let byte = match Bin::from_dec(*v as usize, 8) {
                    Ok(b) => b,
                    Err(_) => unreached(),
                };
                let mut bits = byte.unwrap();
                buf.append(&mut bits);
                proof {
                    assert(buf@ =~= seq![false] + bits_of(*v as nat, 8));
                }
                buf
            },
            Tree::Inner(l, r) => {
                let mut buf: Vec<bool> = Vec::new();
                buf.push(true);
                let mut lb = (**l).serialize();
                let mut rb = (**r).serialize();
                buf.append(&mut lb);
                buf.append(&mut rb);
                proof {
                    assert(buf@ =~= seq![true] + ser_bits(**l) + ser_bits(**r));
                }
                buf
            },
        }
    }

    /// The map phase: scan the bits into pending markers and realized
    /// leaves; fail exactly where a leaf's 8 symbol bits are cut short.
    pub fn map(input: &[bool]) -> (r: Result<Vec<Option<Tree>>, ()>)
        ensures
            r matches Ok(nodes) ==> tokenize(input@) == Some(nodes@),
            r is Err ==> tokenize(input@) is None,
    {
        let mut nodes: Vec<Option<Tree>> = Vec::new();
        let mut i: usize = 0;
        let n = input.len();
        proof {
            assert(input@.skip(0) =~= input@);
            if let Some(tk) = tokenize(input@) {
                assert(Seq::<Option<Tree>>::empty() + tk =~= tk);
            }
        }
        while i < n
            invariant
                i <= n,
                n == input@.len(),
                tokenize(input@) == opt_prepend(nodes@, tokenize(input@.skip(i as int))),
            decreases n - i,
        {
            let ghost pre = input@.skip(i as int);
            if input[i] {
                proof {
                    assert(pre[0] == input@[i as int]);
                    assert(pre.drop_first() =~= input@.skip(i as int + 1));
                    if let Some(tk) = tokenize(input@.skip(i as int + 1)) {
                        assert(nodes@ + (seq![None::<Tree>] + tk) =~= nodes@.push(None) + tk);
                    }
                }
                nodes.push(None);
                i = i + 1;
            } else {
                if n - i < 9 {
                    proof {
                        assert(pre[0] == false);
                        assert(pre.len() < 9);
                        assert(tokenize(pre) is None);
                    }
                    return Err(());
                }
                let mut byte_bits: Vec<bool> = Vec::new();
                let mut j: usize = 0;
                while j < 8
                    invariant
                        j <= 8,
                        i + 9 <= n,
                        n == input@.len(),
                        n <= usize::MAX,
                        byte_bits@ =~= input@.subrange(i as int + 1, i as int + 1 + j as int),
                    decreases 8 - j,
                {
                    byte_bits.push(input[i + 1 + j]);
                    j = j + 1;
                }
                proof {
                    lemma_bits_val_bound(byte_bits@);
                    lemma_pow2_values();
                    assert(byte_bits@.len() == 8);
                }
                let v = Bin::from_bits(byte_bits).to_dec();
                let leaf = Tree::Leaf(v as u8);
                proof {
                    assert(pre[0] == false);
                    assert(pre.len() >= 9);
                    assert(pre.subrange(1, 9) =~= input@.subrange(i as int + 1, i as int + 9));
                    assert(pre.skip(9) =~= input@.skip(i as int + 9));
                    if let Some(tk) = tokenize(input@.skip(i as int + 9)) {
                        assert(nodes@ + (seq![Some(leaf)] + tk) =~= nodes@.push(Some(leaf)) + tk);
                    }
                }
                nodes.push(Some(leaf));
                i = i + 9;
            }
        }
        proof {
            assert(input@.skip(input@.len() as int) =~= Seq::<bool>::empty());
            assert(nodes@ + Seq::<Option<Tree>>::empty() =~= nodes@);
        }
        Ok(nodes)
    }

    /// One left-to-right pass of the reduce phase: collapse each
    /// `[marker, node, node]` window into a realized inner node.
    pub fn reduce_once(input: Vec<Option<Tree>>) -> (r: Vec<Option<Tree>>)
        ensures
            unparse(r@) == unparse(input@),
            r@.len() <= input@.len(),
            r@.len() == input@.len() ==> r@ == input@ && (forall|j: int| !window_at(input@, j)),
    {
        let ghost s = input@;
        let mut buffer: Vec<Option<Tree>> = Vec::new();
        let mut i: usize = 0;
        let mut collapsed: bool = false;
        let n = input.len();
        proof {
            assert(s.skip(0) =~= s);
            assert(unparse(buffer@) + unparse(s) =~= unparse(s));
        }
        while i < n
            invariant
                i <= n,
                n == s.len(),
                n <= usize::MAX,
                input@ == s,
                unparse(buffer@) + unparse(s.skip(i as int)) == unparse(s),
                buffer@.len() <= i,
                !collapsed ==> buffer@.len() == i && buffer@ == s.take(i as int) && (forall|j: int|
                    j < i ==> !window_at(s, j)),
                collapsed ==> buffer@.len() < i,
            decreases n - i,
        {
            let mut is_window = false;
            if n - i > 2 {
                is_window = match (&input[i], &input[i + 1], &input[i + 2]) {
                    (None, Some(_), Some(_)) => true,
                    _ => false,
                };
            }
            if is_window {
                let l = match &input[i + 1] {
                    Some(t) => t.clone(),
                    None => unreached(),
                };
                let r = match &input[i + 2] {
                    Some(t) => t.clone(),
                    None => unreached(),
                };
                let node = Tree::Inner(Box::new(l), Box::new(r));
                proof {
                    lemma_unparse_push(buffer@, Some(node));
                    lemma_unparse_skip1(s, i as int);
                    lemma_unparse_skip1(s, i as int + 1);
                    lemma_unparse_skip1(s, i as int + 2);
                    assert(unparse_one(Some(node)) == seq![true] + ser_bits(l) + ser_bits(r));
                    assert(unparse_one(s[i as int]) == seq![true]);
                    assert(unparse_one(s[i as int + 1]) == ser_bits(l));
                    assert(unparse_one(s[i as int + 2]) == ser_bits(r));
                    assert(unparse(buffer@.push(Some(node))) + unparse(s.skip(i as int + 3)) =~= unparse(
                        buffer@,
                    ) + unparse(s.skip(i as int)));
                }
                buffer.push(Some(node));
                i = i + 3;
                collapsed = true;
            } else {
                let e: Option<Tree> = match &input[i] {
                    Some(t) => Some(t.clone()),
                    None => None,
                };
                proof {
                    assert(e == s[i as int]);
                    lemma_unparse_push(buffer@, e);
                    lemma_unparse_skip1(s, i as int);
                    assert(unparse(buffer@.push(e)) + unparse(s.skip(i as int + 1)) =~= unparse(
                        buffer@,
                    ) + unparse(s.skip(i as int)));
                    assert(!window_at(s, i as int));
                    if !collapsed {
                        assert(buffer@.push(e) =~= s.take(i as int + 1));
                    }
                }
                buffer.push(e);
                i = i + 1;
            }
        }
        proof {
            assert(s.skip(s.len() as int) =~= Seq::<Option<Tree>>::empty());
            assert(unparse(Seq::<Option<Tree>>::empty()) == Seq::<bool>::empty());
            assert(unparse(buffer@) + Seq::<bool>::empty() =~= unparse(buffer@));
            if buffer@.len() == s.len() {
                assert(!collapsed);
                assert(buffer@ =~= s);
                assert forall|j: int| !window_at(s, j) by {
                    if window_at(s, j) {
                        assert(j < i);
                    }
                }
            }
        }
        buffer
    }

    /// The reduce phase: run passes until nothing collapses or one node is
    /// left; succeed exactly on the bits of one serialized tree.
    pub fn reduce(input: Vec<Option<Tree>>) -> (r: Result<Tree, ()>)
        ensures
            r matches Ok(t) ==> unparse(input@) == ser_bits(t),
            forall|t: Tree| unparse(input@) == ser_bits(t) ==> r == Ok::<Tree, ()>(t),
    {
        let ghost orig = input@;
        let mut input = input;
        while input.len() >= 3
            invariant
                unparse(input@) == unparse(orig),
            ensures
                unparse(input@) == unparse(orig),
                input@.len() < 3 || (forall|j: int| !window_at(input@, j)),
            decreases input@.len(),
        {
            let len0 = input.len();
            input = Tree::reduce_once(input);
            if input.len() == len0 {
                break ;
            }
        }
        if input.len() == 1 {
            let ghost fin = input@;
            let last = input.pop();
            match last {
                Some(opt) => {
                    proof {
                        assert(fin[0] == opt);
                        assert(fin.drop_first() =~= Seq::<Option<Tree>>::empty());
                        assert(unparse(Seq::<Option<Tree>>::empty()) == Seq::<bool>::empty());
                        assert(unparse(fin) == unparse_one(fin[0]) + unparse(fin.drop_first()));
                        assert(unparse(fin) == unparse_one(opt) + Seq::<bool>::empty());
                        assert(unparse_one(opt) + Seq::<bool>::empty() =~= unparse_one(opt));
                    }
                    match opt {
                        Some(t0) => {
                            proof {
                                assert(unparse(orig) == ser_bits(t0));
                                assert forall|t: Tree| unparse(orig) == ser_bits(t) implies t
                                    == t0 by {
                                    assert(ser_bits(t) + Seq::<bool>::empty() =~= ser_bits(t));
                                    assert(ser_bits(t0) + Seq::<bool>::empty() =~= ser_bits(t0));
                                    lemma_ser_unique(t, t0, Seq::empty(), Seq::empty());
                                }
                            }
                            Ok(t0)
                        },
                        None => {
                            proof {
                                assert(unparse(orig).len() == 1);
                                assert forall|t: Tree| unparse(orig) != ser_bits(t) by {
                                    lemma_ser_len(t);
                                }
                            }
                            Err(())
                        },
                    }
                },
                None => unreached(),
            }
        } else {
            proof {
                assert forall|t: Tree| unparse(orig) != ser_bits(t) by {
                    if unparse(orig) == ser_bits(t) {
                        if input@.len() == 0 {
                            lemma_ser_len(t);
                            assert(unparse(input@) == Seq::<bool>::empty());
                        } else {
                            assert(forest_ser(seq![t]) == ser_bits(t)) by {
                                assert(seq![t].drop_first() =~= Seq::<Tree>::empty());
                                assert(seq![t][0] == t);
                                assert(forest_ser(Seq::<Tree>::empty()) == Seq::<bool>::empty());
                                assert(forest_ser(seq![t]) == ser_bits(t)
                                    + Seq::<bool>::empty());
                                assert(ser_bits(t) + Seq::<bool>::empty() =~= ser_bits(t));
                            }
                            lemma_forest_progress(input@, seq![t]);
                            assert(all_some(seq![t]).len() == 1);
                        }
                    }
                }
            }
            Err(())
        }
    }

    /// Rebuild a tree from its preorder bits. Succeeds on exactly the
    /// serializations: `Ok(t)` if and only if the input is `t`'s image.
    pub fn deserialize(input: &[bool]) -> (r: Result<Tree, ()>)
        ensures
            r matches Ok(t) ==> input@ == ser_bits(t),
            forall|t: Tree| input@ == ser_bits(t) ==> r == Ok::<Tree, ()>(t),
    {
        let nodes = match Tree::map(input) {
            Ok(nodes) => nodes,
            Err(_) => {
                proof {
                    assert forall|t: Tree| input@ != ser_bits(t) by {
                        lemma_tokenize_ser(t, Seq::empty());
                        assert(ser_bits(t) + Seq::<bool>::empty() =~= ser_bits(t));
                    }
                }
                return Err(());
            },
        };
        proof {
            lemma_tokenize_unparse(input@);
        }
        Tree::reduce(nodes)
    }
}

} // verus!
