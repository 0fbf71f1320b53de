//! How an erosion cycle's droplets are shared among worker threads.

use vstd::prelude::*;

verus! {

/// Number of worker threads of the current rayon pool.
///
/// Calls `rayon::current_num_threads`, which returns the length of the
/// pool's thread list; rayon builds every pool with at least one thread, so
/// the claim here is only that the result is positive.  The exact value
/// depends on the machine and on the `RAYON_NUM_THREADS` environment
/// variable and is not stated.
#[verifier::external_body]
fn current_num_threads() -> (n: usize)
    ensures
        n >= 1,
{
    rayon::current_num_threads()
}

/// Number of droplet batches for `cycles` droplets with `available` worker
/// threads: one per thread, but no more batches than droplets (at least
/// one).
pub fn batch_count(available: usize, cycles: usize) -> (n: usize)
    ensures
        n == if available <= (if cycles >= 1 { cycles } else { 1 }) {
            available
        } else {
            if cycles >= 1 {
                cycles
            } else {
                1
            }
        },
{
    let c = if cycles >= 1 {
        cycles
    } else {
        1
    };
    if available <= c {
        available
    } else {
        c
    }
}

/// Number of droplet batches for one erosion cycle of `cycles` droplets on
/// the current thread pool.
pub fn worker_batches(cycles: usize) -> (n: usize)
    ensures
        1 <= n,
        n <= if cycles >= 1 {
            cycles
        } else {
            1
        },
{
    let available = current_num_threads();
    batch_count(available, cycles)
}

/// Droplets run by batch `t` of `batches`: an equal share, the last batch
/// also taking the remainder.
pub open spec fn share(cycles: int, batches: int, t: int) -> int {
    if t == batches - 1 {
        cycles - (cycles / batches) * (batches - 1)
    } else {
        cycles / batches
    }
}

/// Droplets run by batch `t` of `batches`.
pub fn batch_share(cycles: usize, batches: usize, t: usize) -> (n: usize)
    requires
        1 <= batches,
        t < batches,
    ensures
        n == share(cycles as int, batches as int, t as int),
{
    let per = cycles / batches;
    if t == batches - 1 {
        proof {
            assert(per * (batches - 1) <= cycles) by (nonlinear_arith)
                requires
                    per == cycles / batches,
                    1 <= batches,
            {
                vstd::arithmetic::div_mod::lemma_fundamental_div_mod(cycles as int, batches as int);
                assert(per * batches <= cycles);
                assert(per * (batches - 1) <= per * batches);
            }
        }
        cycles - per * (batches - 1)
    } else {
        per
    }
}

/// Total droplets of the first `t` batches.
pub open spec fn shares_upto(cycles: int, batches: int, t: int) -> int
    decreases t,
{
    if t <= 0 {
        0
    } else {
        shares_upto(cycles, batches, t - 1) + share(cycles, batches, t - 1)
    }
}

/// The batches together run exactly the requested number of droplets.
pub proof fn lemma_shares_sum(cycles: nat, batches: nat)
    requires
        1 <= batches,
    ensures
        shares_upto(cycles as int, batches as int, batches as int) == cycles,
{
    let per = (cycles / batches) as int;
    assert forall|t: int| 0 <= t < batches implies shares_upto(cycles as int, batches as int, t)
        == t * per by {
        lemma_prefix(cycles as int, batches as int, t);
    }
    lemma_prefix(cycles as int, batches as int, batches - 1);
    assert(shares_upto(cycles as int, batches as int, batches - 1) == (batches - 1) * per);
    assert((batches - 1) * per == per * (batches - 1)) by (nonlinear_arith);
}

proof fn lemma_prefix(cycles: int, batches: int, t: int)
    requires
        1 <= batches,
        0 <= t < batches,
    ensures
        shares_upto(cycles, batches, t) == t * (cycles / batches),
    decreases t,
{
    let q = cycles / batches;
    if t > 0 {
        lemma_prefix(cycles, batches, t - 1);
        assert(share(cycles, batches, t - 1) == q);
        assert(shares_upto(cycles, batches, t) == shares_upto(cycles, batches, t - 1) + q);
        assert(t * q == (t - 1) * q + q) by (nonlinear_arith);
    } else {
        assert(t * q == 0) by (nonlinear_arith)
            requires
                t == 0,
        ;
    }
}

} // verus!
