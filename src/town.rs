use vstd::prelude::*;

use crate::utils::{order_ab, spec_max, spec_min};

verus! {

/// Number of slots of the packed lower triangle of an `n` by `n` table,
/// diagonal included.
pub open spec fn packed_len(n: int) -> int {
    n * (n + 1) / 2
}

/// Slot of the unordered pair `{a, b}` in the packed lower triangle.
pub open spec fn packed_index(a: usize, b: usize) -> int {
    let lo = spec_min(a, b) as int;
    let hi = spec_max(a, b) as int;
    hi * (hi + 1) / 2 + lo
}

proof fn lemma_packed_len_step(i: int)
    requires
        i >= 0,
    ensures
        packed_len(i + 1) == packed_len(i) + i + 1,
{
    assert((i + 1) * (i + 2) == i * (i + 1) + 2 * (i + 1)) by (nonlinear_arith);
}

proof fn lemma_packed_len_mono(i: int, n: int)
    requires
        0 <= i <= n,
    ensures
        packed_len(i) <= packed_len(n),
    decreases n - i,
{
    if i < n {
        lemma_packed_len_step(n - 1);
        lemma_packed_len_mono(i, n - 1);
    }
}

/// Every pair of indices below `n` has a slot below `packed_len(n)`.
proof fn lemma_packed_index_bound(a: usize, b: usize, n: int)
    requires
        a < n,
        b < n,
    ensures
        0 <= packed_index(a, b) < packed_len(n),
{
    let hi = spec_max(a, b) as int;
    lemma_packed_len_step(hi);
    lemma_packed_len_mono(hi + 1, n);
    assert(hi * (hi + 1) >= 0) by (nonlinear_arith)
        requires
            hi >= 0,
    ;
}

/// The distance metrics between points.
#[derive(Debug, Copy, Clone, PartialEq, Eq, Structural)]
pub enum DistType {
    L1,
    L2,
    L2Sq,
    LInf,
}

/// A metric name that is none of the recognised spellings; it holds the name
/// in lower case.
#[derive(Debug)]
pub struct UnsupportedDist {
    pub name: String,
}

/// ASCII lower case of one character; any other character is kept.
pub open spec fn lower_ascii_char(c: char) -> int {
    if 65 <= c as int <= 90 {
        c as int + 32
    } else {
        c as int
    }
}

/// `t` is `s` with its ASCII letters put in lower case.
pub open spec fn is_ascii_lower_of(s: Seq<char>, t: Seq<char>) -> bool {
    &&& t.len() == s.len()
    &&& forall|i: int| 0 <= i < s.len() ==> #[trigger] t[i] as int == lower_ascii_char(s[i])
}

/// `s` spells `w` when ASCII letters are put in lower case.
pub open spec fn spells(s: Seq<char>, w: Seq<char>) -> bool {
    &&& s.len() == w.len()
    &&& forall|i: int| 0 <= i < s.len() ==> #[trigger] lower_ascii_char(s[i]) == w[i] as int
}

/// The metric that a name stands for, ASCII case ignored.
pub open spec fn dist_type_of(name: Seq<char>) -> Option<DistType> {
    if spells(name, seq!['l', '1']) {
        Some(DistType::L1)
    } else if spells(name, seq!['l', '2']) {
        Some(DistType::L2)
    } else if spells(name, seq!['l', '2', 's', 'q']) || spells(name, seq!['l', '2', '_', 's', 'q']) {
        Some(DistType::L2Sq)
    } else if spells(name, seq!['l', 'i', 'n', 'f']) || spells(name, seq!['l', '_', 'i', 'n', 'f']) {
        Some(DistType::LInf)
    } else {
        None
    }
}

/// A lower-cased name equals a word exactly when the name spells it.
proof fn lemma_spells(s: Seq<char>, low: Seq<char>, w: Seq<char>)
    requires
        is_ascii_lower_of(s, low),
    ensures
        (low == w) <==> spells(s, w),
{
    if spells(s, w) {
        assert forall|i: int| 0 <= i < low.len() implies low[i] == w[i] by {
            assert(low[i] as int == lower_ascii_char(s[i]));
        }
        assert(low =~= w);
    }
}

/// Relies on `str::to_ascii_lowercase`: each ASCII letter `A`..`Z` becomes
/// `a`..`z`, and every other character stays as it is.
#[verifier::external_body]
fn ascii_lowercase(s: &str) -> (r: String)
    ensures
        is_ascii_lower_of(s@, r@),
{
    s.to_ascii_lowercase()
}

/// Whether the characters of `s` are exactly those of `w`.
fn same_chars(s: &str, w: &[char]) -> (r: bool)
    ensures
        r == (s@ == w@),
{
    let n = s.unicode_len();
    if n != w.len() {
        return false;
    }
    let mut i: usize = 0;
    while i < n
        invariant
            n == s@.len(),
            n == w@.len(),
            i <= n,
            forall|k: int| 0 <= k < i ==> s@[k] == w@[k],
        decreases n - i,
    {
        if s.get_char(i) != w[i] {
            return false;
        }
        i += 1;
    }
    assert(s@ =~= w@);
    true
}

impl DistType {
    /// Reads a metric name, ignoring ASCII case: `l1`, `l2`, `l2sq` or
    /// `l2_sq`, `linf` or `l_inf`. Any other name is refused, and the error
    /// holds it in lower case.
    pub fn parse(s: &str) -> (r: Result<DistType, UnsupportedDist>)
        ensures
            match r {
                Ok(d) => dist_type_of(s@) == Some(d),
                Err(e) => dist_type_of(s@) is None && is_ascii_lower_of(s@, e.name@),
            },
    {
        let low = ascii_lowercase(s);
        let l = low.as_str();
        proof {
            lemma_spells(s@, low@, seq!['l', '1']);
            lemma_spells(s@, low@, seq!['l', '2']);
            lemma_spells(s@, low@, seq!['l', '2', 's', 'q']);
            lemma_spells(s@, low@, seq!['l', '2', '_', 's', 'q']);
            lemma_spells(s@, low@, seq!['l', 'i', 'n', 'f']);
            lemma_spells(s@, low@, seq!['l', '_', 'i', 'n', 'f']);
        }
        let d = if same_chars(l, &['l', '1']) {
            Some(DistType::L1)
        } else if same_chars(l, &['l', '2']) {
            Some(DistType::L2)
        } else if same_chars(l, &['l', '2', 's', 'q']) || same_chars(l, &['l', '2', '_', 's', 'q']) {
            Some(DistType::L2Sq)
        } else if same_chars(l, &['l', 'i', 'n', 'f']) || same_chars(l, &['l', '_', 'i', 'n', 'f']) {
            Some(DistType::LInf)
        } else {
            None
        };
        match d {
            Some(d) => Ok(d),
            None => Err(UnsupportedDist { name: low }),
        }
    }
}

/// Symmetric table of the distances between `num` towns, packed as the lower
/// triangle: the distance of `lo <= hi` sits at `hi * (hi + 1) / 2 + lo`.
pub struct TownDistance<T> {
    num: usize,
    distance: Vec<T>,
}

impl<T> View for TownDistance<T> {
    type V = Seq<T>;

    closed spec fn view(&self) -> Seq<T> {
        self.distance@
    }
}

impl<T: Copy> TownDistance<T> {
    /// Number of towns.
    pub closed spec fn num_towns(&self) -> nat {
        self.num as nat
    }

    /// The table has one slot per unordered pair, and the index arithmetic
    /// of a lookup cannot overflow.
    pub open spec fn wf(&self) -> bool {
        &&& self@.len() == packed_len(self.num_towns() as int)
        &&& self.num_towns() * (self.num_towns() + 1) <= usize::MAX
    }

    /// Distance between towns `a` and `b`.
    pub open spec fn spec_dist(&self, a: usize, b: usize) -> T {
        self@[packed_index(a, b)]
    }

    /// Builds the table of `num` towns, calling `metric(i, j)` once for each
    /// `j <= i < num`, rows in increasing `i` and within a row increasing `j`.
    /// Gives `None` when the table of `num` towns cannot be indexed in `usize`.
    pub fn new<F: Fn(usize, usize) -> T>(num: usize, metric: F) -> (r: Option<TownDistance<T>>)
        requires
            forall|i: usize, j: usize| j <= i < num ==> #[trigger] metric.requires((i, j)),
        ensures
            r is None <==> num as int * (num as int + 1) > usize::MAX,
            r matches Some(t) ==> {
                &&& t.wf()
                &&& t.num_towns() == num
                &&& forall|i: usize, j: usize|
                    j <= i < num ==> metric.ensures((i, j), #[trigger] t.spec_dist(i, j))
            },
    {
        if num == usize::MAX {
            assert(num as int * (num as int + 1) > usize::MAX) by (nonlinear_arith)
                requires
                    num == usize::MAX,
            ;
            return None;
        }
        if num.checked_mul(num + 1).is_none() {
            return None;
        }
        let mut distance: Vec<T> = Vec::new();
        let mut i: usize = 0;
        while i < num
            invariant
                i <= num,
                num * (num + 1) <= usize::MAX,
                forall|i: usize, j: usize| j <= i < num ==> #[trigger] metric.requires((i, j)),
                distance@.len() == packed_len(i as int),
                forall|p: usize, q: usize|
                    q <= p < i ==> metric.ensures((p, q), #[trigger] distance@[packed_index(p, q)]),
            decreases num - i,
        {
            proof {
                lemma_packed_len_step(i as int);
                lemma_packed_len_mono(i as int + 1, num as int);
            }
            let mut j: usize = 0;
            while j <= i
                invariant
                    j <= i + 1,
                    i < num,
                    forall|i: usize, j: usize| j <= i < num ==> #[trigger] metric.requires((i, j)),
                    distance@.len() == packed_len(i as int) + j,
                    forall|p: usize, q: usize|
                        q <= p < i ==> metric.ensures((p, q), #[trigger] distance@[packed_index(p, q)]),
                    forall|q: usize|
                        q < j ==> metric.ensures((i, q), #[trigger] distance@[packed_index(i, q)]),
                decreases i + 1 - j,
            {
                let d = metric(i, j);
                proof {
                    assert forall|p: usize, q: usize| q <= p < i implies
                        packed_index(p, q) < packed_len(i as int) by {
                        lemma_packed_index_bound(p, q, i as int);
                    }
                }
                distance.push(d);
                j += 1;
            }
            i += 1;
        }
        proof {
            lemma_packed_len_mono(num as int, num as int);
        }
        Some(TownDistance { num, distance })
    }

    /// Number of towns.
    pub fn len(&self) -> (r: usize)
        ensures
            r == self.num_towns(),
    {
        self.num
    }

    /// Distance between towns `a` and `b`, in either order.
    pub fn dist(&self, a: usize, b: usize) -> (r: T)
        requires
            self.wf(),
            a < self.num_towns(),
            b < self.num_towns(),
        ensures
            r == self.spec_dist(a, b),
    {
        let (lo, hi) = order_ab(a, b);
        proof {
            lemma_packed_index_bound(a, b, self.num as int);
            assert(hi * (hi + 1) <= self.num * (self.num + 1)) by (nonlinear_arith)
                requires
                    hi < self.num,
            ;
        }
        self.distance[hi * (hi + 1) / 2 + lo]
    }
}

/// Distances are symmetric: the table gives one value for `{a, b}` in either
/// order.
pub proof fn lemma_dist_symmetric<T: Copy>(t: TownDistance<T>, a: usize, b: usize)
    ensures
        t.spec_dist(a, b) == t.spec_dist(b, a),
{
}

} // verus!
