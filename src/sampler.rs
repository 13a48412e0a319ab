use vstd::prelude::*;

use rand::seq::SliceRandom;
use rand::Rng;
use rand_pcg::Mcg128Xsl64;

verus! {

#[verifier::external_type_specification]
#[verifier::external_body]
pub struct ExMcg128Xsl64(Mcg128Xsl64);

/// Relies on `rand::Rng::gen_range` for `usize`: a value in `[low, high)`;
/// it panics when `low >= high`.
#[verifier::external_body]
fn gen_index(rng: &mut Mcg128Xsl64, low: usize, high: usize) -> (r: usize)
    requires
        low < high,
    ensures
        low <= r < high,
{
    rng.gen_range(low, high)
}

/// Relies on `rand::seq::SliceRandom::shuffle`: the elements are permuted in
/// place.
#[verifier::external_body]
pub(crate) fn shuffle_indices(v: &mut Vec<usize>, rng: &mut Mcg128Xsl64)
    ensures
        final(v)@.to_multiset() == old(v)@.to_multiset(),
{
    v.as_mut_slice().shuffle(rng)
}

/// Position reached from `a` by moving `offset` steps forward round a cycle
/// of `n` positions.
pub open spec fn cyclic_add(a: int, offset: int, n: int) -> int {
    if a + offset < n {
        a + offset
    } else {
        a + offset - n
    }
}

/// The second position of a move: `offset` steps after `a` on a cycle of `n`,
/// that is `(a + offset) % n`.
pub fn partner_of(a: usize, offset: usize, n: usize) -> (b: usize)
    requires
        a < n,
        1 <= offset < n,
    ensures
        b == cyclic_add(a as int, offset as int, n as int),
        b < n,
        b != a,
{
    if a < n - offset {
        a + offset
    } else {
        a - (n - offset)
    }
}

/// Draws one 2-opt proposal over a tour of `n` towns: first the position `a`
/// in `[0, n)`, then an offset in `[1, n)`, the second position being that
/// many steps after `a` round the cycle.
pub fn propose_move(rng: &mut Mcg128Xsl64, n: usize) -> (r: (usize, usize))
    requires
        n >= 2,
    ensures
        r.0 < n,
        r.1 < n,
        r.0 != r.1,
        exists|offset: int| 1 <= offset < n && r.1 == cyclic_add(r.0 as int, offset, n as int),
{
    let a = gen_index(rng, 0, n);
    let offset = gen_index(rng, 1, n);
    let b = partner_of(a, offset, n);
    assert(1 <= offset < n && b == cyclic_add(a as int, offset as int, n as int));
    (a, b)
}

} // verus!
