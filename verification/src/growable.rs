//! The capacity bookkeeping of a GPU buffer that grows on demand: it is
//! reallocated, to the next power of two, only when the data no longer fits;
//! otherwise only the new part of the data is uploaded.
use vstd::arithmetic::power2::pow2;
use vstd::prelude::*;

verus! {

/// The first power of two at or above `n`, doubling from `p`.
pub open spec fn next_pow2_from(p: nat, n: nat) -> nat
    decreases 2 * n - p,
{
    if p == 0 || p >= n {
        p
    } else {
        next_pow2_from(2 * p, n)
    }
}

/// The smallest power of two that is at least `n` (1 for 0).
pub open spec fn next_pow2(n: nat) -> nat {
    next_pow2_from(1, n)
}

proof fn lemma_next_pow2_from(p: nat, n: nat, k: nat)
    requires
        p == pow2(k),
        1 <= n,
        p <= 2 * n,
        k > 0 ==> pow2((k - 1) as nat) < n,
    ensures
        exists|j: nat| next_pow2_from(p, n) == #[trigger] pow2(j) && (j == 0 || pow2((j - 1) as nat) < n),
        next_pow2_from(p, n) >= n,
    decreases 2 * n - p,
{
    vstd::arithmetic::power2::lemma_pow2_pos(k);
    if p >= n {
        assert(next_pow2_from(p, n) == pow2(k));
    } else {
        vstd::arithmetic::power2::lemma_pow2_unfold(k + 1);
        assert(pow2(k + 1) == 2 * p);
        lemma_next_pow2_from(2 * p, n, k + 1);
    }
}

/// The next power of two is a power of two, at least `n`, and its half is
/// below `n`: it is the smallest power of two that holds `n`.
pub proof fn lemma_next_pow2(n: nat)
    requires
        n >= 1,
    ensures
        next_pow2(n) >= n,
        exists|j: nat| next_pow2(n) == #[trigger] pow2(j) && (j == 0 || pow2((j - 1) as nat) < n),
{
    vstd::arithmetic::power2::lemma2_to64();
    lemma_next_pow2_from(1, n, 0);
}

/// The smallest power of two that is at least `n` (1 for 0).
pub fn next_power_of_two(n: u64) -> (r: u64)
    requires
        n <= 0x8000_0000_0000_0000,
    ensures
        r == next_pow2(n as nat),
{
    let mut p: u64 = 1;
    let ghost mut k: nat = 0;
    proof {
        vstd::arithmetic::power2::lemma2_to64();
        vstd::arithmetic::power2::lemma2_to64_rest();
    }
    while p < n
        invariant
            p == pow2(k),
            k <= 63,
            pow2(63) == 0x8000_0000_0000_0000,
            n <= 0x8000_0000_0000_0000,
            next_pow2_from(p as nat, n as nat) == next_pow2(n as nat),
        decreases 2 * n - p,
    {
        proof {
            if k >= 63 {
                if k > 63 {
                    vstd::arithmetic::power2::lemma_pow2_strictly_increases(63, k);
                }
            }
            vstd::arithmetic::power2::lemma_pow2_unfold(k + 1);
            vstd::arithmetic::power2::lemma_pow2_pos(k);
            if k + 1 < 63 {
                vstd::arithmetic::power2::lemma_pow2_strictly_increases(k + 1, 63);
            }
        }
        p = p * 2;
        proof {
            k = k + 1;
        }
    }
    p
}

/// What an upload of `len` elements, of which `already_synced` are on the
/// GPU already, has to do.
#[derive(Debug, Clone, Copy, PartialEq, Eq, Structural)]
pub enum UploadPlan {
    /// Nothing new to upload.
    Nothing,
    /// Upload the elements from this index on, at the same offset.
    Suffix(usize),
    /// Upload everything, from index 0.
    Full,
}

/// The capacity of a growable buffer, in elements, and the size of one.
pub struct BufferCapacity {
    capacity_elements: u64,
    elem_size: u64,
}

/// The mathematical state of a [`BufferCapacity`].
pub struct CapacityView {
    pub capacity_elements: nat,
    pub elem_size: nat,
}

impl View for BufferCapacity {
    type V = CapacityView;

    closed spec fn view(&self) -> CapacityView {
        CapacityView { capacity_elements: self.capacity_elements as nat, elem_size: self.elem_size as nat }
    }
}

impl BufferCapacity {
    /// A buffer holding `initial_capacity_elements` elements (at least one).
    pub fn new(initial_capacity_elements: u64, elem_size: u64) -> (c: Self)
        ensures
            c@.capacity_elements == if initial_capacity_elements == 0 {
                1
            } else {
                initial_capacity_elements as nat
            },
            c@.elem_size == elem_size,
    {
        let capacity_elements = if initial_capacity_elements == 0 {
            1
        } else {
            initial_capacity_elements
        };
        BufferCapacity { capacity_elements, elem_size }
    }

    /// The capacity in elements.
    pub fn capacity_elements(&self) -> (n: u64)
        ensures
            n == self@.capacity_elements,
    {
        self.capacity_elements
    }

    /// The size of the buffer in bytes.
    pub fn byte_size(&self) -> (n: u64)
        requires
            self@.capacity_elements * self@.elem_size <= u64::MAX,
        ensures
            n == self@.capacity_elements * self@.elem_size,
    {
        self.capacity_elements * self.elem_size
    }

    /// Makes room for `needed` elements: returns whether the buffer has to be
    /// reallocated, and if so grows the capacity to the next power of two.
    pub fn reserve(&mut self, needed: u64) -> (realloc: bool)
        requires
            needed <= 0x8000_0000_0000_0000,
        ensures
            realloc == (needed > old(self)@.capacity_elements),
            final(self)@.elem_size == old(self)@.elem_size,
            final(self)@.capacity_elements == if realloc {
                next_pow2(needed as nat)
            } else {
                old(self)@.capacity_elements
            },
            final(self)@.capacity_elements >= needed,
    {
        if needed > self.capacity_elements {
            self.capacity_elements = next_power_of_two(if needed == 0 {
                1
            } else {
                needed
            });
            proof {
                lemma_next_pow2(needed as nat);
            }
            true
        } else {
            false
        }
    }

    /// Plans an upload of the whole data, `len` elements: reallocates when
    /// the data does not fit, and uploads everything unless there is nothing.
    pub fn plan_full(&mut self, len: u64) -> (r: (bool, UploadPlan))
        requires
            len <= 0x8000_0000_0000_0000,
        ensures
            r.0 == (len > old(self)@.capacity_elements),
            final(self)@.elem_size == old(self)@.elem_size,
            final(self)@.capacity_elements == if r.0 {
                next_pow2(len as nat)
            } else {
                old(self)@.capacity_elements
            },
            r.1 == if len == 0 {
                UploadPlan::Nothing
            } else {
                UploadPlan::Full
            },
    {
        let realloc = self.reserve(len);
        if len == 0 {
            (realloc, UploadPlan::Nothing)
        } else {
            (realloc, UploadPlan::Full)
        }
    }

    /// Plans an upload of data of `len` elements of which the first
    /// `already_synced` are on the GPU already: after a reallocation
    /// everything goes up again, otherwise only the part past
    /// `already_synced`. Returns the plan and the count on the GPU afterwards.
    pub fn plan_suffix(&mut self, len: usize, already_synced: usize) -> (r: (bool, UploadPlan, usize))
        requires
            len <= 0x8000_0000_0000_0000,
        ensures
            r.0 == (len > old(self)@.capacity_elements),
            final(self)@.elem_size == old(self)@.elem_size,
            final(self)@.capacity_elements == if r.0 {
                next_pow2(len as nat)
            } else {
                old(self)@.capacity_elements
            },
            r.1 == if r.0 {
                if len == 0 {
                    UploadPlan::Nothing
                } else {
                    UploadPlan::Full
                }
            } else if len > already_synced {
                UploadPlan::Suffix(already_synced)
            } else {
                UploadPlan::Nothing
            },
            r.2 == len,
    {
        let realloc = self.reserve(len as u64);
        if realloc {
            if len == 0 {
                (true, UploadPlan::Nothing, len)
            } else {
                (true, UploadPlan::Full, len)
            }
        } else if len > already_synced {
            (false, UploadPlan::Suffix(already_synced), len)
        } else {
            (false, UploadPlan::Nothing, len)
        }
    }
}

} // verus!
