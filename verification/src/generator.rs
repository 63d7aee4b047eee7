//! Random graph generation: an n-by-n symmetric 0/1 adjacency
//! matrix. Randomness comes from `rand` through trusted wrappers
//! that promise only what holds of every outcome; `mark_row` states
//! exactly which entries one step writes, for every value of the
//! drawn target list, and the loop around it is verified for every
//! outcome.
use vstd::prelude::*;
use crate::graphs::Graph;
use crate::matrix::{mat_set, mat_view, mat_width, mat_zeros, AdjMatrix};
use rand::Rng;
use rand::seq::SliceRandom;

verus! {

#[verifier::external_type_specification]
#[verifier::external_body]
pub struct ExThreadRng(rand::rngs::ThreadRng);

/// Relies on `rand::thread_rng`: a handle to the thread-local
/// generator. Nothing is promised of it.
#[verifier::external_body]
fn fresh_rng() -> rand::rngs::ThreadRng {
    rand::thread_rng()
}

/// Relies on `rand::Rng::gen_range` over `0..n`: a value below `n`,
/// whatever the generator returned; the range must be non-empty.
#[verifier::external_body]
fn gen_count(rng: &mut rand::rngs::ThreadRng, n: usize) -> (r: usize)
    requires
        n >= 1,
    ensures
        r < n,
{
    rng.gen_range(0..n)
}

/// Relies on `rand::seq::SliceRandom::choose_multiple`: `k` elements
/// chosen from distinct positions of the slice, so every returned
/// value is an element of the slice, and with `k` at most the
/// slice's length exactly `k` come back.
#[verifier::external_body]
fn sample_indices(rng: &mut rand::rngs::ThreadRng, pool: &Vec<usize>, k: usize) -> (r: Vec<
    usize,
>)
    requires
        k <= pool@.len(),
    ensures
        r@.len() == k,
        forall|m: int| 0 <= m < r@.len() ==> pool@.contains(#[trigger] r@[m]),
{
    pool.choose_multiple(rng, k).cloned().collect()
}

/// Entry (i, j) always equals entry (j, i).
pub open spec fn is_symmetric(m: Seq<Seq<usize>>) -> bool {
    forall|i: int, j: int| #![trigger m[i][j]]
        0 <= i < m.len() && 0 <= j < m.len() ==> m[i][j] == m[j][i]
}

/// Every entry is 0 or 1.
pub open spec fn zero_one(m: Seq<Seq<usize>>) -> bool {
    forall|i: int, j: int| #![trigger m[i][j]]
        0 <= i < m.len() && 0 <= j < m[i].len() ==> m[i][j] == 0 || m[i][j] == 1
}

/// One generation step, for every value of the drawn target list:
/// entries (i, j) and (j, i) become 1 for every drawn target j, and
/// no other entry changes.
pub fn mark_row(m: &mut AdjMatrix, i: usize, targets: &Vec<usize>)
    requires
        mat_view(*old(m)).len() <= usize::MAX,
        i < mat_view(*old(m)).len(),
        forall|q: int| 0 <= q < targets@.len() ==> targets@[q] < mat_view(*old(m)).len(),
        forall|r: int|
            0 <= r < mat_view(*old(m)).len() ==> (#[trigger] mat_view(*old(m))[r]).len()
                == mat_view(*old(m)).len(),
    ensures
        mat_view(*final(m)).len() == mat_view(*old(m)).len(),
        mat_width(*final(m)) == mat_width(*old(m)),
        forall|r: int|
            0 <= r < mat_view(*final(m)).len() ==> (#[trigger] mat_view(*final(m))[r]).len()
                == mat_view(*old(m)).len(),
        forall|a: int, b: int| #![trigger mat_view(*final(m))[a][b]]
            0 <= a < mat_view(*old(m)).len() && 0 <= b < mat_view(*old(m)).len()
                ==> mat_view(*final(m))[a][b] == (if (a == i && targets@.contains(
                b as usize,
            )) || (b == i && targets@.contains(a as usize)) {
                1usize
            } else {
                mat_view(*old(m))[a][b]
            }),
{
    let ghost nn = mat_view(*old(m)).len() as int;
    let mut t: usize = 0;
    while t < targets.len()
        invariant
            t <= targets@.len(),
            i < nn,
            nn <= usize::MAX,
            nn == mat_view(*old(m)).len(),
            forall|q: int| 0 <= q < targets@.len() ==> targets@[q] < nn,
            mat_view(*m).len() == nn,
            mat_width(*m) == mat_width(*old(m)),
            forall|r: int| 0 <= r < nn ==> (#[trigger] mat_view(*m)[r]).len() == nn,
            forall|a: int, b: int| #![trigger mat_view(*m)[a][b]]
                0 <= a < nn && 0 <= b < nn ==> mat_view(*m)[a][b] == (if (a == i
                    && targets@.take(t as int).contains(b as usize)) || (b == i
                    && targets@.take(t as int).contains(a as usize)) {
                    1usize
                } else {
                    mat_view(*old(m))[a][b]
                }),
        decreases targets@.len() - t,
    {
        let j = targets[t];
        let ghost mprev = mat_view(*m);
        let ghost pre = targets@.take(t as int);
        let ghost post = targets@.take(t as int + 1);
        mat_set(m, i, j, 1);
        mat_set(m, j, i, 1);
        proof {
            let tv = targets@[t as int];
            assert(post =~= pre.push(tv));
            assert forall|x: usize|
                post.contains(x) == (pre.contains(x) || x == tv) by {
                if post.contains(x) {
                    let idx = choose|ii: int| 0 <= ii < post.len() && post[ii] == x;
                    if idx < t as int {
                        assert(pre[idx] == x);
                    }
                }
                if pre.contains(x) {
                    let idx = choose|ii: int| 0 <= ii < pre.len() && pre[ii] == x;
                    assert(post[idx] == x);
                }
                if x == tv {
                    assert(post[t as int] == x);
                }
            }
            let m2 = mat_view(*m);
            assert forall|a: int, b: int| #![trigger m2[a][b]]
                0 <= a < nn && 0 <= b < nn implies m2[a][b] == (if (a == i
                && post.contains(b as usize)) || (b == i && post.contains(a as usize)) {
                1usize
            } else {
                mat_view(*old(m))[a][b]
            }) by {
                assert((a as usize) as int == a);
                assert((b as usize) as int == b);
                if a == i as int && b == j as int {
                    assert(post.contains(j));
                } else if a == j as int && b == i as int {
                    assert(post.contains(j));
                } else {
                    assert(m2[a][b] == mprev[a][b]);
                    if a == i as int {
                        assert(b != j as int);
                        assert(b as usize != tv);
                    }
                    if b == i as int {
                        assert(a != j as int);
                        assert(a as usize != tv);
                    }
                    assert(mprev[a][b] == (if (a == i && pre.contains(b as usize)) || (b
                        == i && pre.contains(a as usize)) {
                        1usize
                    } else {
                        mat_view(*old(m))[a][b]
                    }));
                }
            }
        }
        t += 1;
    }
    proof {
        assert(targets@.take(targets@.len() as int) =~= targets@);
    }
}

/// Builds a graph of `n` nodes with a random symmetric 0/1 adjacency
/// matrix: for each row a count below `n` of target columns is drawn
/// (when `n` is zero no row exists), and `mark_row` writes each
/// chosen pair in both orientations. The node table and the edge
/// list are left empty on purpose: the generator populates only the
/// matrix.
pub fn generate_graph(n: usize) -> (g: Graph)
    requires
        n * n <= isize::MAX,
    ensures
        g@.matrix.len() == n,
        g@.width == n,
        forall|r: int| 0 <= r < n ==> (#[trigger] g@.matrix[r]).len() == n,
        is_symmetric(g@.matrix),
        zero_one(g@.matrix),
        g@.nodes.len() == 0,
        g@.edges.len() == 0,
        g.wf(),
{
    proof {
        assert(n >= 1 ==> n <= n * n) by (nonlinear_arith);
    }
    let mut m = mat_zeros(n, n);
    let mut rng = fresh_rng();
    let mut pool: Vec<usize> = Vec::new();
    let mut p: usize = 0;
    while p < n
        invariant
            p <= n,
            pool@.len() == p,
            forall|k: int| 0 <= k < p ==> pool@[k] == k,
        decreases n - p,
    {
        pool.push(p);
        p += 1;
    }
    let mut i: usize = 0;
    while i < n
        invariant
            i <= n,
            pool@.len() == n,
            forall|k: int| 0 <= k < n ==> pool@[k] == k,
            mat_view(m).len() == n,
            mat_width(m) == n,
            forall|r: int| 0 <= r < n ==> (#[trigger] mat_view(m)[r]).len() == n,
            is_symmetric(mat_view(m)),
            zero_one(mat_view(m)),
        decreases n - i,
    {
        let k = gen_count(&mut rng, n);
        let targets = sample_indices(&mut rng, &pool, k);
        proof {
            assert forall|q: int| 0 <= q < targets@.len() implies targets@[q] < n by {
                let v = targets@[q];
                assert(pool@.contains(v));
                let idx = choose|ii: int| 0 <= ii < pool@.len() && pool@[ii] == v;
                assert(pool@[idx] == idx);
            }
        }
        let ghost m0 = mat_view(m);
        mark_row(&mut m, i, &targets);
        proof {
            let m2 = mat_view(m);
            assert forall|a: int, b: int| #![trigger m2[a][b]]
                0 <= a < n && 0 <= b < n implies m2[a][b] == m2[b][a] by {
                assert(m0[a][b] == m0[b][a]);
            }
            assert(is_symmetric(m2));
            assert(zero_one(m2));
        }
        i += 1;
    }
    let g = Graph { adjacency_matrix: m, nodes: Vec::new(), edges: Vec::new() };
    proof {
        assert(g@.nodes.len() == 0);
        assert(g@.edges.len() == 0);
    }
    g
}

} // verus!
