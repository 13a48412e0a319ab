use vstd::prelude::*;

use rand_pcg::Mcg128Xsl64;

use crate::sampler::shuffle_indices;
use crate::town::TownDistance;
use crate::utils::{order_ab, spec_max, spec_min};

verus! {

/// `s` visits each of the towns `0..n` exactly once.
pub open spec fn is_permutation(s: Seq<usize>, n: nat) -> bool {
    &&& s.len() == n
    &&& s.no_duplicates()
    &&& forall|i: int| 0 <= i < s.len() ==> #[trigger] s[i] < n
}

/// Position after `i` on a cycle of `n` positions.
pub open spec fn succ(i: int, n: int) -> int {
    if i + 1 < n {
        i + 1
    } else {
        0
    }
}

/// Whether position `i` lies in the segment that the move between edges
/// `lo` and `hi` reverses: the inner segment `lo+1..=hi` when it is at most
/// half of the cycle, else the cyclic complement `hi+1..=lo+n`.
pub open spec fn in_reversed(lo: int, hi: int, n: int, i: int) -> bool {
    if (hi - lo) * 2 <= n {
        lo < i <= hi
    } else {
        !(lo < i <= hi)
    }
}

/// Position that lands on `i` when the segment is reversed:
/// `(lo + hi + 1 - i) mod n`.
pub open spec fn mirror(lo: int, hi: int, n: int, i: int) -> int {
    let t = lo + hi + 1 - i;
    if t < 0 {
        t + n
    } else if t >= n {
        t - n
    } else {
        t
    }
}

/// The path after the 2-opt move on the edges leaving positions `a` and `b`.
pub open spec fn two_opt_path(s: Seq<usize>, a: usize, b: usize) -> Seq<usize> {
    if a == b {
        s
    } else {
        let lo = spec_min(a, b) as int;
        let hi = spec_max(a, b) as int;
        let n = s.len() as int;
        Seq::new(
            s.len(),
            |i: int|
                if in_reversed(lo, hi, n, i) {
                    s[mirror(lo, hi, n, i)]
                } else {
                    s[i]
                },
        )
    }
}

/// The four distances that decide a 2-opt move on a path: the two edges it
/// removes, then the two it adds.
pub struct MoveDists<T> {
    pub removed_a: T,
    pub removed_b: T,
    pub added_ends: T,
    pub added_nexts: T,
}

/// Why a tour could not be made.
#[derive(Debug, Copy, Clone, PartialEq, Eq, Structural)]
pub enum TourError {
    /// The path is not a permutation of the towns.
    InvalidPermutation,
    /// There are no towns to visit.
    EmptyTour,
}

/// A closed path through every town of a distance table.
pub struct Tour<T> {
    town: TownDistance<T>,
    path: Vec<usize>,
}

impl<T> View for Tour<T> {
    type V = Seq<usize>;

    closed spec fn view(&self) -> Seq<usize> {
        self.path@
    }
}

fn check_permutation(path: &Vec<usize>, n: usize) -> (r: bool)
    ensures
        r == is_permutation(path@, n as nat),
{
    if path.len() != n {
        return false;
    }
    let mut visited: Vec<bool> = Vec::new();
    let mut k: usize = 0;
    while k < n
        invariant
            k <= n,
            visited@.len() == k,
            forall|m: int| 0 <= m < k ==> !visited@[m],
        decreases n - k,
    {
        visited.push(false);
        k += 1;
    }
    let mut i: usize = 0;
    while i < n
        invariant
            i <= n,
            path@.len() == n,
            visited@.len() == n,
            forall|p: int, q: int| 0 <= p < q < i ==> path@[p] != path@[q],
            forall|p: int| 0 <= p < i ==> path@[p] < n,
            forall|m: int| 0 <= m < n ==> (visited@[m] <==> exists|p: int| 0 <= p < i && path@[p] == m),
        decreases n - i,
    {
        let p = path[i];
        if p >= n {
            return false;
        }
        if visited[p] {
            return false;
        }
        visited.set(p, true);
        i += 1;
    }
    true
}

/// Each position of a two-opt path holds a town of the old path: a position
/// of the reversed segment the one at its mirror, any other its own.
proof fn lemma_mirror(lo: int, hi: int, n: int, i: int)
    requires
        0 <= lo < hi < n,
        0 <= i < n,
        in_reversed(lo, hi, n, i),
    ensures
        0 <= mirror(lo, hi, n, i) < n,
        in_reversed(lo, hi, n, mirror(lo, hi, n, i)),
        mirror(lo, hi, n, mirror(lo, hi, n, i)) == i,
{
}

/// A 2-opt move keeps a permutation a permutation.
pub proof fn lemma_two_opt_permutation(s: Seq<usize>, n: nat, a: usize, b: usize)
    requires
        is_permutation(s, n),
        a < n,
        b < n,
    ensures
        is_permutation(two_opt_path(s, a, b), n),
{
    if a != b {
        let lo = spec_min(a, b) as int;
        let hi = spec_max(a, b) as int;
        let t = two_opt_path(s, a, b);
        assert forall|i: int| 0 <= i < t.len() implies #[trigger] t[i] < n by {
            if in_reversed(lo, hi, n as int, i) {
                lemma_mirror(lo, hi, n as int, i);
            }
        }
        assert forall|i: int, j: int| 0 <= i < t.len() && 0 <= j < t.len() && i != j implies t[i]
            != t[j] by {
            if in_reversed(lo, hi, n as int, i) {
                lemma_mirror(lo, hi, n as int, i);
            }
            if in_reversed(lo, hi, n as int, j) {
                lemma_mirror(lo, hi, n as int, j);
            }
        }
    }
}

impl<T: Copy> Tour<T> {
    /// The distance table that the tour runs over.
    pub closed spec fn spec_town(&self) -> TownDistance<T> {
        self.town
    }

    /// Number of towns of the tour.
    pub open spec fn num_towns(&self) -> nat {
        self.spec_town().num_towns()
    }

    /// The table is well formed and the path is a permutation of its towns.
    pub open spec fn wf(&self) -> bool {
        &&& self.spec_town().wf()
        &&& is_permutation(self@, self.num_towns())
    }

    /// Distance of the edge that leaves position `i` of the path.
    pub open spec fn spec_edge(&self, i: int) -> T {
        let n = self@.len() as int;
        self.spec_town().spec_dist(self@[i], self@[succ(i, n)])
    }

    /// The four distances that decide the 2-opt move on the edges leaving
    /// positions `a` and `b`.
    pub open spec fn spec_move_dists(&self, a: int, b: int) -> MoveDists<T> {
        let n = self@.len() as int;
        MoveDists {
            removed_a: self.spec_edge(a),
            removed_b: self.spec_edge(b),
            added_ends: self.spec_town().spec_dist(self@[a], self@[b]),
            added_nexts: self.spec_town().spec_dist(self@[succ(a, n)], self@[succ(b, n)]),
        }
    }

    /// A tour that follows `path` over `town`. Fails with
    /// `InvalidPermutation` unless `path` visits each town exactly once.
    pub fn new(town: TownDistance<T>, path: Vec<usize>) -> (r: Result<Tour<T>, TourError>)
        requires
            town.wf(),
        ensures
            match r {
                Ok(t) => {
                    &&& is_permutation(path@, town.num_towns())
                    &&& t.wf()
                    &&& t@ == path@
                    &&& t.spec_town() == town
                },
                Err(e) => e == TourError::InvalidPermutation && !is_permutation(
                    path@,
                    town.num_towns(),
                ),
            },
    {
        let n = town.len();
        if check_permutation(&path, n) {
            Ok(Tour { town, path })
        } else {
            Err(TourError::InvalidPermutation)
        }
    }

    /// A tour over `town` that visits the towns in an order shuffled with
    /// `rng`. Fails with `EmptyTour` when there are no towns.
    pub fn with_random(town: TownDistance<T>, rng: &mut Mcg128Xsl64) -> (r: Result<
        Tour<T>,
        TourError,
    >)
        requires
            town.wf(),
        ensures
            r is Err <==> town.num_towns() == 0,
            r matches Err(e) ==> e == TourError::EmptyTour,
            r matches Ok(t) ==> t.wf() && t.spec_town() == town,
    {
        let n = town.len();
        if n == 0 {
            return Err(TourError::EmptyTour);
        }
        let mut path: Vec<usize> = Vec::new();
        let mut i: usize = 0;
        while i < n
            invariant
                i <= n,
                path@.len() == i,
                forall|k: int| 0 <= k < i ==> path@[k] == k,
            decreases n - i,
        {
            path.push(i);
            i += 1;
        }
        let ghost ordered = path@;
        assert(is_permutation(ordered, n as nat));
        shuffle_indices(&mut path, rng);
        proof {
            lemma_same_multiset_permutation(ordered, path@, n as nat);
        }
        Self::new(town, path)
    }

    /// Number of towns.
    pub fn len(&self) -> (r: usize)
        ensures
            r == self@.len(),
    {
        self.path.len()
    }

    /// The towns in the order the tour visits them.
    pub fn get_path(&self) -> (r: Vec<usize>)
        ensures
            r@ == self@,
    {
        self.path.clone()
    }

    /// The distance of each edge of the closed path, in path order: entry `i`
    /// joins `path[i]` to `path[i + 1]`, the last one `path[n - 1]` to
    /// `path[0]`. The tour's length is their sum.
    pub fn edge_dists(&self) -> (r: Vec<T>)
        requires
            self.wf(),
        ensures
            r@.len() == self@.len(),
            forall|i: int| 0 <= i < r@.len() ==> #[trigger] r@[i] == self.spec_edge(i),
    {
        let n = self.path.len();
        let mut r: Vec<T> = Vec::new();
        if n == 0 {
            return r;
        }
        let mut i: usize = 1;
        while i < n
            invariant
                self.wf(),
                n == self@.len(),
                1 <= i <= n,
                r@.len() == i - 1,
                forall|k: int| 0 <= k < r@.len() ==> #[trigger] r@[k] == self.spec_edge(k),
            decreases n - i,
        {
            r.push(self.town.dist(self.path[i - 1], self.path[i]));
            i += 1;
        }
        r.push(self.town.dist(self.path[n - 1], self.path[0]));
        r
    }

    /// The distances that the 2-opt move on the edges leaving positions `a`
    /// and `b` removes (`path[a]`-`path[a+1]`, `path[b]`-`path[b+1]`) and
    /// adds (`path[a]`-`path[b]`, `path[a+1]`-`path[b+1]`), indices taken
    /// round the cycle. The move's change of length is the added pair's sum
    /// less the removed pair's sum.
    pub fn move_dists(&self, a: usize, b: usize) -> (r: MoveDists<T>)
        requires
            self.wf(),
            a < self@.len(),
            b < self@.len(),
        ensures
            r == self.spec_move_dists(a as int, b as int),
    {
        let n = self.path.len();
        let a1 = if a + 1 < n { a + 1 } else { 0 };
        let b1 = if b + 1 < n { b + 1 } else { 0 };
        MoveDists {
            removed_a: self.town.dist(self.path[a], self.path[a1]),
            removed_b: self.town.dist(self.path[b], self.path[b1]),
            added_ends: self.town.dist(self.path[a], self.path[b]),
            added_nexts: self.town.dist(self.path[a1], self.path[b1]),
        }
    }

    /// Applies the 2-opt move on the edges leaving positions `a` and `b`: the
    /// shorter of the two segments between them is reversed in place.
    pub fn do_2opt(&mut self, a: usize, b: usize)
        requires
            old(self).wf(),
            a < old(self)@.len(),
            b < old(self)@.len(),
        ensures
            final(self).wf(),
            final(self).spec_town() == old(self).spec_town(),
            final(self)@ == two_opt_path(old(self)@, a, b),
    {
        proof {
            lemma_two_opt_permutation(self@, self.num_towns(), a, b);
        }
        if a == b {
            return;
        }
        let ghost s = self@;
        let n = self.path.len();
        let (lo, hi) = order_ab(a, b);
        proof {
            let m = self.num_towns() as int;
            assert(2 * m <= m * (m + 1)) by (nonlinear_arith)
                requires
                    m >= 1,
            ;
        }
        if (hi - lo) * 2 <= n {
            let mut x = lo + 1;
            let mut y = hi;
            while x < y
                invariant
                    self.spec_town() == old(self).spec_town(),
                    self@.len() == n,
                    s.len() == n,
                    lo + 1 <= x,
                    y <= hi,
                    hi < n,
                    x + y == lo + hi + 1,
                    x <= y + 1,
                    forall|i: int|
                        0 <= i < n ==> #[trigger] self@[i] == if (lo + 1 <= i < x || y < i <= hi) {
                            s[lo + hi + 1 - i]
                        } else {
                            s[i]
                        },
                decreases y + 1 - x,
            {
                let t = self.path[x];
                let u = self.path[y];
                self.path.set(x, u);
                self.path.set(y, t);
                x += 1;
                y -= 1;
            }
        } else {
            let mut x = lo + n;
            let mut y = hi + 1;
            while y < x
                invariant
                    self.spec_town() == old(self).spec_town(),
                    self@.len() == n,
                    s.len() == n,
                    lo < hi < n,
                    (hi - lo) * 2 > n,
                    hi + 1 <= y,
                    x <= lo + n,
                    x + y == lo + hi + 1 + n,
                    y <= x + 1,
                    forall|i: int|
                        0 <= i < n ==> #[trigger] self@[i] == if (hi + 1 <= i < y || hi + 1 <= i
                            + n < y || x < i <= lo + n || x < i + n <= lo + n) {
                            s[mirror(lo as int, hi as int, n as int, i)]
                        } else {
                            s[i]
                        },
                decreases x + 1 - y,
            {
                let xi = if x >= n { x - n } else { x };
                let yi = if y >= n { y - n } else { y };
                let t = self.path[xi];
                let u = self.path[yi];
                self.path.set(xi, u);
                self.path.set(yi, t);
                x -= 1;
                y += 1;
            }
        }
        assert(self@ =~= two_opt_path(s, a, b));
    }
}

/// Swapping the two positions of a move swaps the two removed edges and
/// leaves the two added ones as they are, so the move's change of length is
/// the same either way round.
pub proof fn lemma_move_dists_symmetric<T: Copy>(t: Tour<T>, a: int, b: int)
    ensures
        ({
            let m = t.spec_move_dists(a, b);
            let w = t.spec_move_dists(b, a);
            &&& w.removed_a == m.removed_b
            &&& w.removed_b == m.removed_a
            &&& w.added_ends == m.added_ends
            &&& w.added_nexts == m.added_nexts
        }),
{
    assert forall|p: usize, q: usize| t.spec_town().spec_dist(p, q) == t.spec_town().spec_dist(
        q,
        p,
    ) by {
        crate::town::lemma_dist_symmetric(t.spec_town(), p, q);
    }
}

/// The path after the 2-opt moves of `moves`, applied in order.
pub open spec fn apply_moves(s: Seq<usize>, moves: Seq<(usize, usize)>) -> Seq<usize>
    decreases moves.len(),
{
    if moves.len() == 0 {
        s
    } else {
        apply_moves(two_opt_path(s, moves[0].0, moves[0].1), moves.drop_first())
    }
}

/// Any sequence of 2-opt moves on positions of the tour keeps a permutation
/// a permutation.
pub proof fn lemma_moves_keep_permutation(s: Seq<usize>, n: nat, moves: Seq<(usize, usize)>)
    requires
        is_permutation(s, n),
        forall|k: int| 0 <= k < moves.len() ==> #[trigger] moves[k].0 < n && moves[k].1 < n,
    ensures
        is_permutation(apply_moves(s, moves), n),
    decreases moves.len(),
{
    if moves.len() > 0 {
        lemma_two_opt_permutation(s, n, moves[0].0, moves[0].1);
        let rest = moves.drop_first();
        assert forall|k: int| 0 <= k < rest.len() implies #[trigger] rest[k].0 < n && rest[k].1
            < n by {
            assert(rest[k] == moves[k + 1]);
        }
        lemma_moves_keep_permutation(two_opt_path(s, moves[0].0, moves[0].1), n, rest);
    }
}

/// A sequence with the same elements as a permutation is a permutation.
proof fn lemma_same_multiset_permutation(s: Seq<usize>, t: Seq<usize>, n: nat)
    requires
        is_permutation(s, n),
        t.to_multiset() == s.to_multiset(),
    ensures
        is_permutation(t, n),
{
    broadcast use vstd::seq_lib::group_to_multiset_ensures;

    s.lemma_multiset_has_no_duplicates();
    t.lemma_multiset_has_no_duplicates_conv();
    s.to_multiset_ensures();
    t.to_multiset_ensures();
    assert(t.len() == s.len());
    assert forall|i: int| 0 <= i < t.len() implies #[trigger] t[i] < n by {
        assert(t.contains(t[i]));
        assert(t.to_multiset().count(t[i]) > 0);
        assert(s.contains(t[i]));
    }
}

} // verus!
