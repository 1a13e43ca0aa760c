//! A bubble sort that advances one comparison per step, for a host that
//! animates the values directly.

use vstd::prelude::*;

verus! {

/// Multiplier of the fixed scramble that `SortSystem` sorts again and again.
pub const SCRAMBLE_MUL: usize = 1987;

/// Offset of the fixed scramble.
pub const SCRAMBLE_ADD: usize = 3;

pub open spec fn seq_swap(s: Seq<u32>, a: int, b: int) -> Seq<u32> {
    s.update(a, s[b]).update(b, s[a])
}

/// The scramble's first `k` swaps on `s`: position `i` trades places with
/// `(i * 1987 + 3) % n`.
pub open spec fn scrambled(s: Seq<u32>, k: int) -> Seq<u32>
    decreases k,
{
    if k <= 0 {
        s
    } else {
        let t = scrambled(s, k - 1);
        seq_swap(t, k - 1, ((k - 1) * 1987 + 3) % (s.len() as int))
    }
}

/// `1, 2, ..., count`.
pub open spec fn ascending(count: int) -> Seq<u32> {
    Seq::new(count as nat, |k: int| (k + 1) as u32)
}

/// A bubble sort run one comparison per step, which scrambles its values
/// again whenever it finishes.
pub struct SortSystem {
    pub values: Vec<u32>,
    pub i: usize,
    pub j: usize,
    pub sorted: bool,
}

pub proof fn lemma_scrambled_len(s: Seq<u32>, k: int)
    requires
        0 <= k <= s.len(),
    ensures
        scrambled(s, k).len() == s.len(),
    decreases k,
{
    if k > 0 {
        lemma_scrambled_len(s, k - 1);
        vstd::arithmetic::div_mod::lemma_mod_pos_bound((k - 1) * 1987 + 3, s.len() as int);
    }
}

fn scramble(values: &mut Vec<u32>)
    requires
        old(values).len() * SCRAMBLE_MUL + SCRAMBLE_ADD <= usize::MAX,
    ensures
        final(values)@ == scrambled(old(values)@, old(values)@.len() as int),
{
    let n = values.len();
    let ghost s = values@;
    let mut i: usize = 0;
    while i < n
        invariant
            i <= n,
            n == s.len(),
            n * SCRAMBLE_MUL + SCRAMBLE_ADD <= usize::MAX,
            values@ == scrambled(s, i as int),
        decreases n - i,
    {
        proof {
            lemma_scrambled_len(s, i as int);
            assert(i * SCRAMBLE_MUL <= n * SCRAMBLE_MUL) by (nonlinear_arith)
                requires
                    i <= n,
            ;
        }
        let r = (i * SCRAMBLE_MUL + SCRAMBLE_ADD) % n;
        let a = values[i];
        let b = values[r];
        values[i] = b;
        values[r] = a;
        proof {
            assert(values@ =~= scrambled(s, i + 1));
        }
        i += 1;
    }
}

impl SortSystem {
    /// `1..=count`, scrambled.
    pub fn new(count: usize) -> (r: Self)
        requires
            count <= u32::MAX,
            count * SCRAMBLE_MUL + SCRAMBLE_ADD <= usize::MAX,
        ensures
            r.values@ == scrambled(ascending(count as int), count as int),
            r.i == 0,
            r.j == 0,
            !r.sorted,
    {
        let mut values: Vec<u32> = Vec::new();
        let mut k: usize = 0;
        while k < count
            invariant
                k <= count <= u32::MAX,
                values@ == ascending(k as int),
            decreases count - k,
        {
            values.push((k + 1) as u32);
            proof {
                assert(values@ =~= ascending(k + 1));
            }
            k += 1;
        }
        scramble(&mut values);
        SortSystem { values, i: 0, j: 0, sorted: false }
    }

    /// One comparison of the running pass; at the end of a pass, the next
    /// pass; after the last pass, a fresh scramble of the values.
    pub fn step(&mut self)
        requires
            old(self).values.len() * SCRAMBLE_MUL + SCRAMBLE_ADD <= usize::MAX,
        ensures
            ({
                let s = old(self).values@;
                let n = s.len() as int;
                let (i, j) = (old(self).i as int, old(self).j as int);
                if old(self).sorted {
                    *final(self) == *old(self)
                } else if i < n && j < n - 1 - i {
                    &&& final(self).values@ == if s[j] > s[j + 1] {
                        seq_swap(s, j, j + 1)
                    } else {
                        s
                    }
                    &&& final(self).i == i && final(self).j == j + 1 && !final(self).sorted
                } else if i < n {
                    final(self).values@ == s && final(self).i == i + 1 && final(self).j == 0
                        && !final(self).sorted
                } else {
                    final(self).values@ == scrambled(s, n) && final(self).i == 0
                        && final(self).j == 0 && !final(self).sorted
                }
            }),
    {
        if self.sorted {
            return ;
        }
        let n = self.values.len();
        if self.i < n {
            if self.j < n - 1 - self.i {
                let j = self.j;
                if self.values[j] > self.values[j + 1] {
                    let a = self.values[j];
                    let b = self.values[j + 1];
                    self.values[j] = b;
                    self.values[j + 1] = a;
                    proof {
                        assert(self.values@ =~= seq_swap(old(self).values@, j as int, j + 1));
                    }
                }
                self.j = j + 1;
            } else {
                self.j = 0;
                self.i = self.i + 1;
            }
        } else {
            self.i = 0;
            self.j = 0;
            self.sorted = false;
            scramble(&mut self.values);
        }
    }
}

} // verus!
