//! Byte histograms: occurrence counts for each of the 256 symbol values.

use vstd::prelude::*;

verus! {

/// How many times `sym` occurs in `s`.
pub open spec fn count_of(s: Seq<u8>, sym: u8) -> nat
    decreases s.len(),
{
    if s.len() == 0 {
        0
    } else {
        count_of(s.drop_last(), sym) + (if s.last() == sym {
            1nat
        } else {
            0nat
        })
    }
}

/// The counts of every symbol of `s`, indexed by symbol value.
pub open spec fn counts_of(s: Seq<u8>) -> Seq<nat> {
    Seq::new(256, |i: int| count_of(s, i as u8))
}

/// Occurrence counts for a byte stream, one slot per symbol value.
pub struct Hist {
    counts: Vec<usize>,
}

impl View for Hist {
    type V = Seq<nat>;

    closed spec fn view(&self) -> Seq<nat> {
        Seq::new(self.counts@.len(), |i: int| self.counts@[i] as nat)
    }
}

impl Hist {
    /// A histogram always has one slot per symbol value.
    pub open spec fn wf(&self) -> bool {
        self@.len() == 256
    }

    /// The count recorded for `sym`.
    pub fn count(&self, sym: u8) -> (r: usize)
        requires
            self.wf(),
        ensures
            r as nat == self@[sym as int],
    {
        self.counts[sym as usize]
    }

    /// How many distinct symbols have a nonzero count.
    pub fn distinct(&self) -> (r: usize)
        requires
            self.wf(),
        ensures
            r as nat == nonzero_below(self@, 256),
            r <= 256,
    {
        let mut n: usize = 0;
        let mut i: usize = 0;
        while i < 256
            invariant
                i <= 256,
                self.wf(),
                n as nat == nonzero_below(self@, i as int),
                n <= i,
            decreases 256 - i,
        {
            if self.counts[i] > 0 {
                n = n + 1;
            }
            i = i + 1;
        }
        n
    }
}

/// How many of the first `n` slots of `h` are nonzero.
pub open spec fn nonzero_below(h: Seq<nat>, n: int) -> nat
    decreases n,
{
    if n <= 0 {
        0
    } else {
        nonzero_below(h, n - 1) + (if h[n - 1] > 0 {
            1nat
        } else {
            0nat
        })
    }
}

/// The sum of the first `n` slots of `h`.
pub open spec fn total_below(h: Seq<nat>, n: int) -> nat
    decreases n,
{
    if n <= 0 {
        0
    } else {
        total_below(h, n - 1) + h[n - 1]
    }
}

/// Extending the stream by one byte raises exactly that byte's count.
proof fn lemma_counts_step(s: Seq<u8>, b: u8, n: int)
    requires
        0 <= n <= 256,
    ensures
        total_below(counts_of(s.push(b)), n) == total_below(counts_of(s), n) + (if (b as int) < n {
            1int
        } else {
            0int
        }),
    decreases n,
{
    if n > 0 {
        lemma_counts_step(s, b, n - 1);
        assert(s.push(b).drop_last() =~= s);
    }
}

/// A region of all-zero slots sums to zero.
proof fn lemma_total_below_zero(h: Seq<nat>, n: int)
    requires
        forall|k: int| 0 <= k < n ==> h[k] == 0,
    ensures
        total_below(h, n) == 0,
    decreases n,
{
    if n > 0 {
        lemma_total_below_zero(h, n - 1);
    }
}

/// The histogram's counts add up to the stream's length.
pub proof fn lemma_total_counts(s: Seq<u8>)
    ensures
        total_below(counts_of(s), 256) == s.len(),
    decreases s.len(),
{
    if s.len() == 0 {
        lemma_total_below_zero(counts_of(s), 256);
    } else {
        let d = s.drop_last();
        lemma_total_counts(d);
        lemma_counts_step(d, s.last(), 256);
        assert(d.push(s.last()) =~= s);
    }
}

/// Each slot's count is at most the sum of all slots.
pub proof fn lemma_count_le_total(h: Seq<nat>, i: int, n: int)
    requires
        0 <= i < n,
    ensures
        h[i] <= total_below(h, n),
    decreases n,
{
    if i < n - 1 {
        lemma_count_le_total(h, i, n - 1);
    }
}

/// At most `n` of the first `n` slots are nonzero.
pub proof fn lemma_nonzero_le(h: Seq<nat>, n: int)
    requires
        n >= 0,
    ensures
        nonzero_below(h, n) <= n,
    decreases n,
{
    if n > 0 {
        lemma_nonzero_le(h, n - 1);
    }
}

/// One nonzero slot makes the nonzero count positive.
pub proof fn lemma_nonzero_at(h: Seq<nat>, k: int, n: int)
    requires
        0 <= k < n,
        h[k] > 0,
    ensures
        nonzero_below(h, n) >= 1,
    decreases n,
{
    if k < n - 1 {
        lemma_nonzero_at(h, k, n - 1);
    }
}

/// A symbol that occurs in the stream has a positive count.
pub proof fn lemma_count_positive(s: Seq<u8>, i: int)
    requires
        0 <= i < s.len(),
    ensures
        count_of(s, s[i]) > 0,
    decreases s.len(),
{
    if i < s.len() - 1 {
        lemma_count_positive(s.drop_last(), i);
    }
}

/// Count how often each symbol occurs in `input`.
pub fn hist(input: &[u8]) -> (r: Hist)
    ensures
        r.wf(),
        r@ =~= counts_of(input@),
{
    let mut counts: Vec<usize> = Vec::new();
    let mut j: usize = 0;
    while j < 256
        invariant
            j <= 256,
            counts@.len() == j as nat,
            forall|k: int| 0 <= k < j ==> counts@[k] == 0,
        decreases 256 - j,
    {
        counts.push(0);
        j = j + 1;
    }
    let mut i: usize = 0;
    while i < input.len()
        invariant
            i <= input@.len(),
            counts@.len() == 256,
            forall|k: int|
                0 <= k < 256 ==> counts@[k] as nat == count_of(input@.take(i as int), k as u8),
            forall|k: int| 0 <= k < 256 ==> counts@[k] <= i,
        decreases input@.len() - i,
    {
        let b = input[i];
        let c = counts[b as usize];
        counts.set(b as usize, c + 1);
        proof {
            let t1 = input@.take(i + 1);
            assert(t1.drop_last() =~= input@.take(i as int));
            assert(t1.last() == input@[i as int]);
        }
        i = i + 1;
    }
    proof {
        assert(input@.take(input@.len() as int) =~= input@);
    }
    Hist { counts }
}

} // verus!
