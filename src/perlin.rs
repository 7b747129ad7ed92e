use crate::random::random_below;
use vstd::prelude::*;

verus! {

/// The number of lattice points of the noise tables.
pub const POINT_COUNT: usize = 256;

/// `p` holds each of `0..n` exactly once.
pub open spec fn is_permutation(p: Seq<usize>, n: nat) -> bool {
    &&& p.len() == n
    &&& forall|a: int| 0 <= a < p.len() ==> #[trigger] p[a] < n
    &&& forall|a: int, b: int| 0 <= a < b < p.len() ==> #[trigger] p[a] != #[trigger] p[b]
}

/// The three shuffled tables that hash an integer lattice point of the noise to one of
/// `POINT_COUNT` gradient slots.
pub struct PerlinTables {
    pub perm_x: Vec<usize>,
    pub perm_y: Vec<usize>,
    pub perm_z: Vec<usize>,
}

/// The low eight bits of a lattice coordinate.
pub open spec fn low_byte(i: i32) -> int {
    (i & 255i32) as int
}

impl PerlinTables {
    pub open spec fn wf(&self) -> bool {
        &&& is_permutation(self.perm_x@, POINT_COUNT as nat)
        &&& is_permutation(self.perm_y@, POINT_COUNT as nat)
        &&& is_permutation(self.perm_z@, POINT_COUNT as nat)
    }

    /// Three freshly shuffled tables.
    pub fn new() -> (r: Self)
        ensures
            r.wf(),
    {
        PerlinTables {
            perm_x: generate_perm(),
            perm_y: generate_perm(),
            perm_z: generate_perm(),
        }
    }

    /// The gradient slot of lattice point (`i`, `j`, `k`): the table entries at the low
    /// eight bits of each coordinate, combined by exclusive or.
    pub fn slot(&self, i: i32, j: i32, k: i32) -> (r: usize)
        requires
            self.wf(),
        ensures
            r == self.perm_x@[low_byte(i)] ^ self.perm_y@[low_byte(j)] ^ self.perm_z@[low_byte(k)],
            r < POINT_COUNT,
    {
        let a = i & 255i32;
        let b = j & 255i32;
        let c = k & 255i32;
        assert(0 <= a < 256) by (bit_vector)
            requires a == i & 255i32;
        assert(0 <= b < 256) by (bit_vector)
            requires b == j & 255i32;
        assert(0 <= c < 256) by (bit_vector)
            requires c == k & 255i32;
        let x = self.perm_x[a as usize];
        let y = self.perm_y[b as usize];
        let z = self.perm_z[c as usize];
        assert(x ^ y ^ z < 256) by (bit_vector)
            requires x < 256, y < 256, z < 256;
        x ^ y ^ z
    }
}

proof fn lemma_swap_keeps_permutation(s: Seq<usize>, i: int, t: int, n: nat)
    requires
        is_permutation(s, n),
        0 <= i < s.len(),
        0 <= t < s.len(),
    ensures
        is_permutation(s.update(i, s[t]).update(t, s[i]), n),
{
    let u = s.update(i, s[t]).update(t, s[i]);
    let src = |a: int| if a == i { t } else if a == t { i } else { a };
    assert forall|a: int| 0 <= a < u.len() implies u[a] == s[src(a)] by {}
    assert forall|a: int| 0 <= a < u.len() implies #[trigger] u[a] < n by {
        assert(u[a] == s[src(a)]);
    }
    assert forall|a: int, b: int| 0 <= a < b < u.len() implies #[trigger] u[a] != #[trigger] u[b] by {
        assert(u[a] == s[src(a)]);
        assert(u[b] == s[src(b)]);
        if src(a) < src(b) {
            assert(s[src(a)] != s[src(b)]);
        } else {
            assert(s[src(b)] != s[src(a)]);
        }
    }
}

/// Shuffles the first `n` entries of `p`, swapping each position from the last down to
/// the second with a position drawn at random below it.
fn permute(p: &mut Vec<usize>, n: usize)
    requires
        n <= old(p)@.len(),
        is_permutation(old(p)@, old(p)@.len()),
    ensures
        is_permutation(final(p)@, old(p)@.len()),
{
    let ghost len = p@.len();
    let mut i: usize = if n == 0 { 0 } else { n - 1 };
    while i >= 1
        invariant
            i < n || i == 0,
            n <= len,
            p@.len() == len,
            is_permutation(p@, len),
        decreases i,
    {
        let target = random_below(i);
        let tmp = p[i];
        let ghost before = p@;
        p[i] = p[target];
        p[target] = tmp;
        proof {
            lemma_swap_keeps_permutation(before, i as int, target as int, len);
        }
        i = i - 1;
    }
}

/// A random permutation of `0..POINT_COUNT`.
fn generate_perm() -> (r: Vec<usize>)
    ensures
        is_permutation(r@, POINT_COUNT as nat),
{
    let mut p: Vec<usize> = Vec::new();
    let mut i: usize = 0;
    while i < POINT_COUNT
        invariant
            i <= POINT_COUNT,
            p@.len() == i,
            forall|a: int| 0 <= a < i ==> #[trigger] p@[a] == a,
        decreases POINT_COUNT - i,
    {
        p.push(i);
        i = i + 1;
    }
    permute(&mut p, POINT_COUNT);
    p
}

} // verus!
