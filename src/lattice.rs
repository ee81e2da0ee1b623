//! The lattice state: a periodic square grid of spins with its energy and
//! magnetization kept up to date under single-site and cluster flips.
use crate::grid::{
    all_spins, cell, energy_of, flipped, lemma_bonds_bounded, lemma_cell, lemma_cell_injective,
    lemma_flip_bonds, lemma_flip_bonds_single, lemma_flip_total, lemma_total_bounded, next, prev,
    lemma_position, lemma_torus_connected, lemma_total_parity, lemma_uniform, neighbour_sum, spin_at, spin_total, sum_below, cell_bonds,
};
use crate::random::uniform_below;
use rand::rngs::StdRng;
use vstd::prelude::*;

verus! {

/// Largest side length: the grid's cell count must fit a 32-bit index.
pub const MAX_SIZE: usize = 0xFFFF;

/// A bond activation probability `p` is given as the threshold
/// `ceil(p * ACTIVATION_SCALE)`: a draw `r` uniform in `[0, ACTIVATION_SCALE)`
/// activates the bond when `r < threshold`, which happens with probability `p`
/// at the resolution of a 52-bit fraction.
pub const ACTIVATION_SCALE: u64 = 0x10_0000_0000_0000;

/// Why a lattice could not be built.
#[derive(Debug, Clone, Copy, PartialEq, Eq, Structural)]
pub enum LatticeError {
    /// A lattice needs a side length of at least one.
    EmptyLattice,
}

/// Two-dimensional Ising lattice on a torus. Energies are kept in units of
/// the coupling constant `J`; the physical energy is `J` times the value held.
#[derive(Debug)]
pub struct Ising2D {
    size: usize,
    sites: Vec<i8>,
    threshold: u64,
    energy: i64,
    magnetization: i64,
}

/// What a lattice holds, in mathematical terms.
pub struct LatticeView {
    pub size: nat,
    pub spins: Seq<i8>,
    pub threshold: nat,
    pub energy: int,
    pub magnetization: int,
}

impl LatticeView {
    /// The grid is square and holds spins, and energy and magnetization
    /// equal their values recomputed from the grid.
    pub open spec fn wf(self) -> bool {
        &&& 1 <= self.size <= MAX_SIZE
        &&& self.spins.len() == self.size * self.size
        &&& all_spins(self.spins)
        &&& self.energy == energy_of(self.spins, self.size as int)
        &&& self.magnetization == spin_total(self.spins)
    }

    pub open spec fn spin(self, r: int, c: int) -> int {
        spin_at(self.spins, self.size as int, r, c)
    }
}

impl View for Ising2D {
    type V = LatticeView;

    closed spec fn view(&self) -> LatticeView {
        LatticeView {
            size: self.size as nat,
            spins: self.sites@,
            threshold: self.threshold as nat,
            energy: self.energy as int,
            magnetization: self.magnetization as int,
        }
    }
}

fn next_index(i: usize, n: usize) -> (r: usize)
    requires
        i < n,
    ensures
        r == next(i as int, n as int),
        r < n,
{
    if i + 1 == n {
        0
    } else {
        i + 1
    }
}

fn prev_index(i: usize, n: usize) -> (r: usize)
    requires
        i < n,
    ensures
        r == prev(i as int, n as int),
        r < n,
{
    if i == 0 {
        n - 1
    } else {
        i - 1
    }
}

/// Row-major position of `(r, c)` in a grid of side `n`.
fn position(r: usize, c: usize, n: usize) -> (k: usize)
    requires
        r < n,
        c < n,
        n <= MAX_SIZE,
    ensures
        k == cell(r as int, c as int, n as int),
        k < n * n,
{
    proof {
        lemma_cell(r as int, c as int, n as int);
        assert((n as int) * (n as int) <= 0xFFFF * 0xFFFF) by (nonlinear_arith)
            requires
                n <= 0xFFFF,
        ;
    }
    r * n + c
}

/// Cell `(r, c)` is among the coordinates waiting on the stack.
spec fn queued(st: Seq<(usize, usize)>, r: int, c: int) -> bool {
    exists|t: int| 0 <= t < st.len() && st[t].0 == r && st[t].1 == c
}

/// Cell `(r, c)` no longer holds `v`, or is waiting to be examined.
spec fn settled(s: Seq<i8>, n: int, v: int, st: Seq<(usize, usize)>, r: int, c: int) -> bool {
    spin_at(s, n, r, c) != v || queued(st, r, c)
}

/// Every neighbour of a reversed cell that still holds `v` is waiting on the stack.
spec fn frontier_queued(s: Seq<i8>, s0: Seq<i8>, n: int, v: int, st: Seq<(usize, usize)>) -> bool {
    forall|r: int, c: int|
        0 <= r < n && 0 <= c < n && #[trigger] spin_at(s, n, r, c) != spin_at(s0, n, r, c) ==> {
            &&& settled(s, n, v, st, r, next(c, n))
            &&& settled(s, n, v, st, r, prev(c, n))
            &&& settled(s, n, v, st, next(r, n), c)
            &&& settled(s, n, v, st, prev(r, n), c)
        }
}

/// No neighbour of a cell that changed from `s0` to `s` holds `v` in `s`.
pub open spec fn cluster_closed(s: Seq<i8>, s0: Seq<i8>, n: int, v: int) -> bool {
    forall|r: int, c: int|
        0 <= r < n && 0 <= c < n && #[trigger] spin_at(s, n, r, c) != spin_at(s0, n, r, c) ==> {
            &&& spin_at(s, n, r, next(c, n)) != v
            &&& spin_at(s, n, r, prev(c, n)) != v
            &&& spin_at(s, n, next(r, n), c) != v
            &&& spin_at(s, n, prev(r, n), c) != v
        }
}

/// `b` follows from `a` by one cluster update seeded at position `seed`:
/// the seed is reversed, every reversed cell held the seed's spin, the
/// reversed cells are connected to the seed through reversed cells, with a
/// threshold of zero nothing else changes, and with activation certain no
/// neighbour of the cluster keeps the seed's spin, so a lattice of equal
/// spins is reversed whole.
pub open spec fn wolff_step(a: LatticeView, b: LatticeView, seed: int) -> bool {
    &&& b.wf()
    &&& b.size == a.size
    &&& b.threshold == a.threshold
    &&& b.spins[seed] == -a.spins[seed]
    &&& forall|k: int|
        0 <= k < a.spins.len() && #[trigger] b.spins[k] != a.spins[k] ==> a.spins[k]
            == a.spins[seed] && b.spins[k] == -a.spins[k]
    &&& a.threshold == 0 ==> forall|k: int|
        0 <= k < a.spins.len() && k != seed ==> #[trigger] b.spins[k] == a.spins[k]
    &&& exists|order: Seq<(int, int)>| #[trigger] cluster_order(a.spins, b.spins, a.size as int, seed, order)
    &&& a.threshold >= ACTIVATION_SCALE ==> cluster_closed(
        b.spins,
        a.spins,
        a.size as int,
        a.spins[seed] as int,
    )
    &&& a.threshold >= ACTIVATION_SCALE && (forall|k: int|
        0 <= k < a.spins.len() ==> #[trigger] a.spins[k] == a.spins[seed]) ==> forall|k: int|
        0 <= k < a.spins.len() ==> #[trigger] b.spins[k] == -a.spins[k]
}

/// Step `t` of the sequence of states `tr` is one cluster update.
pub open spec fn wolff_linked(tr: Seq<LatticeView>, t: int) -> bool {
    exists|seed: int| 0 <= seed < tr[t].spins.len() && #[trigger] wolff_step(tr[t], tr[t + 1], seed)
}

/// Each state of `tr` after the first follows from the one before by one
/// cluster update.
pub open spec fn wolff_trace(tr: Seq<LatticeView>) -> bool {
    forall|t: int| 0 <= t < tr.len() - 1 ==> #[trigger] wolff_linked(tr, t)
}

/// `q` is one of the four periodic neighbours of `p`.
pub open spec fn adjacent(p: (int, int), q: (int, int), n: int) -> bool {
    ||| q == (p.0, next(p.1, n))
    ||| q == (p.0, prev(p.1, n))
    ||| q == (next(p.0, n), p.1)
    ||| q == (prev(p.0, n), p.1)
}

/// Cell `order[t]` neighbours a cell listed before it.
pub open spec fn linked_earlier(order: Seq<(int, int)>, t: int, n: int) -> bool {
    exists|u: int| 0 <= u < t && #[trigger] adjacent(order[u], order[t], n)
}

/// Each cell of `order` after the first neighbours an earlier one, so all
/// of them are connected to the first through cells of `order`.
pub open spec fn grown_from(order: Seq<(int, int)>, n: int) -> bool {
    forall|t: int| 1 <= t < order.len() ==> #[trigger] linked_earlier(order, t, n)
}

/// Position `k` is the cell of some entry of `order`.
pub open spec fn listed(order: Seq<(int, int)>, k: int, n: int) -> bool {
    exists|t: int| 0 <= t < order.len() && #[trigger] cell(order[t].0, order[t].1, n) == k
}

/// `order` lists exactly the cells that differ between `s0` and `s`, starts
/// at position `seed`, and grows one neighbour at a time.
pub open spec fn cluster_order(s0: Seq<i8>, s: Seq<i8>, n: int, seed: int, order: Seq<(int, int)>) -> bool {
    &&& order.len() >= 1
    &&& cell(order[0].0, order[0].1, n) == seed
    &&& grown_from(order, n)
    &&& forall|t: int|
        0 <= t < order.len() ==> 0 <= (#[trigger] order[t]).0 < n && 0 <= order[t].1 < n
            && s[cell(order[t].0, order[t].1, n)] != s0[cell(order[t].0, order[t].1, n)]
    &&& forall|k: int| 0 <= k < s0.len() && #[trigger] s[k] != s0[k] ==> listed(order, k, n)
}

/// Every coordinate on the stack neighbours a cell of `order`.
spec fn stack_reached(order: Seq<(int, int)>, st: Seq<(usize, usize)>, n: int) -> bool {
    forall|t: int|
        0 <= t < st.len() ==> reached(order, ((#[trigger] st[t]).0 as int, st[t].1 as int), n)
}

/// `q` neighbours a cell of `order`.
spec fn reached(order: Seq<(int, int)>, q: (int, int), n: int) -> bool {
    exists|u: int| 0 <= u < order.len() && #[trigger] adjacent(order[u], q, n)
}

proof fn lemma_order_initial(
    s0: Seq<i8>,
    s1: Seq<i8>,
    n: int,
    st: Seq<(usize, usize)>,
    a: int,
    b: int,
)
    requires
        1 <= n,
        s0.len() == n * n,
        0 <= a < n,
        0 <= b < n,
        all_spins(s0),
        s1 == flipped(s0, n, a, b),
        st.len() == 4,
        st[0].0 == a && st[0].1 == next(b, n),
        st[1].0 == a && st[1].1 == prev(b, n),
        st[2].0 == next(a, n) && st[2].1 == b,
        st[3].0 == prev(a, n) && st[3].1 == b,
    ensures
        cluster_order(s0, s1, n, cell(a, b, n), seq![(a, b)]),
        stack_reached(seq![(a, b)], st, n),
{
    let order = seq![(a, b)];
    lemma_cell(a, b, n);
    assert(s0[cell(a, b, n)] == 1 || s0[cell(a, b, n)] == -1);
    assert forall|k: int| 0 <= k < s0.len() && #[trigger] s1[k] != s0[k] implies listed(order, k, n) by {
        assert(cell(order[0].0, order[0].1, n) == k);
    }
    assert forall|t: int| 0 <= t < st.len() implies reached(
        order,
        ((#[trigger] st[t]).0 as int, st[t].1 as int),
        n,
    ) by {
        assert(adjacent(order[0], (st[t].0 as int, st[t].1 as int), n));
    }
}

proof fn lemma_order_after_skip(
    order: Seq<(int, int)>,
    pending: Seq<(usize, usize)>,
    st: Seq<(usize, usize)>,
    n: int,
)
    requires
        stack_reached(order, pending, n),
        pending.len() > 0,
        st == pending.subrange(0, pending.len() - 1),
    ensures
        stack_reached(order, st, n),
{
    assert forall|t: int| 0 <= t < st.len() implies reached(
        order,
        ((#[trigger] st[t]).0 as int, st[t].1 as int),
        n,
    ) by {
        assert(st[t] == pending[t]);
    }
}

proof fn lemma_order_after_flip(
    s0: Seq<i8>,
    s: Seq<i8>,
    s2: Seq<i8>,
    n: int,
    seed: int,
    v: int,
    order: Seq<(int, int)>,
    pending: Seq<(usize, usize)>,
    st: Seq<(usize, usize)>,
    i: int,
    j: int,
)
    requires
        1 <= n,
        s.len() == n * n,
        s0.len() == n * n,
        0 <= i < n,
        0 <= j < n,
        spin_at(s, n, i, j) == v,
        forall|k: int| 0 <= k < s0.len() && #[trigger] s[k] != s0[k] ==> s[k] == -v,
        v == 1 || v == -1,
        s2 == flipped(s, n, i, j),
        cluster_order(s0, s, n, seed, order),
        stack_reached(order, pending, n),
        pending.len() > 0,
        pending.last().0 == i && pending.last().1 == j,
        st.len() == pending.len() + 3,
        forall|t: int| 0 <= t < pending.len() - 1 ==> #[trigger] st[t] == pending[t],
        st[pending.len() - 1].0 == i && st[pending.len() - 1].1 == next(j, n),
        st[pending.len() as int].0 == i && st[pending.len() as int].1 == prev(j, n),
        st[pending.len() as int + 1].0 == next(i, n) && st[pending.len() as int + 1].1 == j,
        st[pending.len() as int + 2].0 == prev(i, n) && st[pending.len() as int + 2].1 == j,
    ensures
        cluster_order(s0, s2, n, seed, order.push((i, j))),
        stack_reached(order.push((i, j)), st, n),
{
    let o2 = order.push((i, j));
    let len = order.len() as int;
    let ki = cell(i, j, n);
    lemma_cell(i, j, n);
    // The popped cell still held `v`, so it had not changed before.
    assert(s[ki] == s0[ki]);
    assert(s2[ki] != s0[ki]);
    assert(o2[len] == (i, j));
    // It was pushed as a neighbour of a listed cell.
    let last = pending.len() - 1;
    assert(reached(order, (pending[last].0 as int, pending[last].1 as int), n));
    let u0 = choose|u: int|
        0 <= u < order.len() && #[trigger] adjacent(
            order[u],
            (pending[last].0 as int, pending[last].1 as int),
            n,
        );
    assert(adjacent(o2[u0], o2[len], n));
    assert forall|t: int| 1 <= t < o2.len() implies #[trigger] linked_earlier(o2, t, n) by {
        if t < len {
            assert(linked_earlier(order, t, n));
            let u = choose|u: int| 0 <= u < t && #[trigger] adjacent(order[u], order[t], n);
            assert(adjacent(o2[u], o2[t], n));
        } else {
            assert(adjacent(o2[u0], o2[t], n));
        }
    }
    assert forall|t: int| 0 <= t < o2.len() implies 0 <= (#[trigger] o2[t]).0 < n && 0 <= o2[t].1
        < n && s2[cell(o2[t].0, o2[t].1, n)] != s0[cell(o2[t].0, o2[t].1, n)] by {
        if t < len {
            assert(o2[t] == order[t]);
            let kt = cell(order[t].0, order[t].1, n);
            lemma_cell(order[t].0, order[t].1, n);
            assert(s[kt] != s0[kt]);
            assert(kt != ki);
        }
    }
    assert forall|k: int| 0 <= k < s0.len() && #[trigger] s2[k] != s0[k] implies listed(o2, k, n) by {
        if k == ki {
            assert(cell(o2[len].0, o2[len].1, n) == k);
        } else {
            assert(s2[k] == s[k]);
            assert(listed(order, k, n));
            let t = choose|t: int| 0 <= t < order.len() && #[trigger] cell(order[t].0, order[t].1, n) == k;
            assert(o2[t] == order[t]);
            assert(cell(o2[t].0, o2[t].1, n) == k);
        }
    }
    assert forall|t: int| 0 <= t < st.len() implies reached(
        o2,
        ((#[trigger] st[t]).0 as int, st[t].1 as int),
        n,
    ) by {
        if t < last {
            assert(st[t] == pending[t]);
            assert(reached(order, (pending[t].0 as int, pending[t].1 as int), n));
            let u = choose|u: int|
                0 <= u < order.len() && #[trigger] adjacent(
                    order[u],
                    (pending[t].0 as int, pending[t].1 as int),
                    n,
                );
            assert(adjacent(o2[u], (st[t].0 as int, st[t].1 as int), n));
        } else {
            assert(adjacent(o2[len], (st[t].0 as int, st[t].1 as int), n));
        }
    }
}

/// A cell settled before `(i, j)` was popped stays settled, provided `(i, j)`
/// no longer holds `v` and no other cell changed.
proof fn lemma_settled_after_pop(
    s: Seq<i8>,
    s2: Seq<i8>,
    n: int,
    v: int,
    pending: Seq<(usize, usize)>,
    st: Seq<(usize, usize)>,
    r: int,
    c: int,
)
    requires
        pending.len() > 0,
        st.len() >= pending.len() - 1,
        forall|t: int| 0 <= t < pending.len() - 1 ==> #[trigger] st[t] == pending[t],
        settled(s, n, v, pending, r, c),
        (r == pending.last().0 && c == pending.last().1) ==> spin_at(s2, n, r, c) != v,
        !(r == pending.last().0 && c == pending.last().1) ==> spin_at(s2, n, r, c) == spin_at(
            s,
            n,
            r,
            c,
        ),
    ensures
        settled(s2, n, v, st, r, c),
{
    if spin_at(s, n, r, c) == v {
        let t = choose|t: int| 0 <= t < pending.len() && pending[t].0 == r && pending[t].1 == c;
        if t < pending.len() - 1 {
            assert(st[t] == pending[t]);
        }
    }
}

/// Reversing the popped cell `(i, j)` and pushing its four neighbours keeps
/// every neighbour of the cluster that still holds `v` on the stack.
proof fn lemma_frontier_after_flip(
    s: Seq<i8>,
    s2: Seq<i8>,
    s0: Seq<i8>,
    n: int,
    v: int,
    pending: Seq<(usize, usize)>,
    st: Seq<(usize, usize)>,
    i: int,
    j: int,
)
    requires
        1 <= n,
        s.len() == n * n,
        s0.len() == n * n,
        0 <= i < n,
        0 <= j < n,
        v == 1 || v == -1,
        spin_at(s, n, i, j) == v,
        s2 == flipped(s, n, i, j),
        frontier_queued(s, s0, n, v, pending),
        pending.len() > 0,
        pending.last().0 == i && pending.last().1 == j,
        st.len() == pending.len() + 3,
        forall|t: int| 0 <= t < pending.len() - 1 ==> #[trigger] st[t] == pending[t],
        st[pending.len() - 1].0 == i && st[pending.len() - 1].1 == next(j, n),
        st[pending.len() as int].0 == i && st[pending.len() as int].1 == prev(j, n),
        st[pending.len() as int + 1].0 == next(i, n) && st[pending.len() as int + 1].1 == j,
        st[pending.len() as int + 2].0 == prev(i, n) && st[pending.len() as int + 2].1 == j,
    ensures
        frontier_queued(s2, s0, n, v, st),
{
    lemma_cell(i, j, n);
    assert forall|r: int, c: int| 0 <= r < n && 0 <= c < n && (r != i || c != j) implies #[trigger] spin_at(
        s2,
        n,
        r,
        c,
    ) == spin_at(s, n, r, c) by {
        lemma_cell_injective(r, c, i, j, n);
        lemma_cell(r, c, n);
    }
    assert(spin_at(s2, n, i, j) == -v);
    assert forall|r: int, c: int|
        0 <= r < n && 0 <= c < n && #[trigger] spin_at(s2, n, r, c) != spin_at(s0, n, r, c) implies {
        &&& settled(s2, n, v, st, r, next(c, n))
        &&& settled(s2, n, v, st, r, prev(c, n))
        &&& settled(s2, n, v, st, next(r, n), c)
        &&& settled(s2, n, v, st, prev(r, n), c)
    } by {
        if r == i && c == j {
            assert(queued(st, r, next(c, n))) by {
                assert(st[pending.len() - 1].0 == r);
            }
            assert(queued(st, r, prev(c, n))) by {
                assert(st[pending.len() as int].0 == r);
            }
            assert(queued(st, next(r, n), c)) by {
                assert(st[pending.len() as int + 1].1 == c);
            }
            assert(queued(st, prev(r, n), c)) by {
                assert(st[pending.len() as int + 2].1 == c);
            }
        } else {
            assert(spin_at(s, n, r, c) != spin_at(s0, n, r, c));
            lemma_settled_after_pop(s, s2, n, v, pending, st, r, next(c, n));
            lemma_settled_after_pop(s, s2, n, v, pending, st, r, prev(c, n));
            lemma_settled_after_pop(s, s2, n, v, pending, st, next(r, n), c);
            lemma_settled_after_pop(s, s2, n, v, pending, st, prev(r, n), c);
        }
    }
}

/// When every spin of `s0` equals `v` and a closed cluster containing
/// `(a, b)` was reversed, every spin was reversed.
proof fn lemma_uniform_cluster_is_everything(s1: Seq<i8>, s0: Seq<i8>, n: int, v: int, a: int, b: int)
    requires
        1 <= n,
        s1.len() == n * n,
        s0.len() == n * n,
        all_spins(s1),
        v == 1 || v == -1,
        forall|k: int| 0 <= k < s0.len() ==> #[trigger] s0[k] == v,
        cluster_closed(s1, s0, n, v),
        0 <= a < n,
        0 <= b < n,
        spin_at(s1, n, a, b) == -v,
    ensures
        forall|k: int| 0 <= k < s1.len() ==> #[trigger] s1[k] == -v,
{
    let p = |r: int, c: int| spin_at(s1, n, r, c) == -v;
    assert forall|r: int, c: int| 0 <= r < n && 0 <= c < n && #[trigger] p(r, c) implies p(
        r,
        next(c, n),
    ) && p(next(r, n), c) by {
        lemma_cell(r, c, n);
        lemma_cell(r, next(c, n), n);
        lemma_cell(next(r, n), c, n);
        assert(spin_at(s1, n, r, c) != spin_at(s0, n, r, c));
        let x = s1[cell(r, next(c, n), n)];
        let y = s1[cell(next(r, n), c, n)];
        assert(x == 1 || x == -1);
        assert(y == 1 || y == -1);
    }
    lemma_torus_connected(p, n, a, b);
    assert forall|k: int| 0 <= k < s1.len() implies #[trigger] s1[k] == -v by {
        lemma_position(k, n);
        assert(p(k / n, k % n));
    }
}

/// Right after the seed `(a, b)` is reversed and its four neighbours are
/// pushed, every neighbour of the cluster is on the stack.
proof fn lemma_frontier_initial(
    s0: Seq<i8>,
    s1: Seq<i8>,
    n: int,
    v: int,
    st: Seq<(usize, usize)>,
    a: int,
    b: int,
)
    requires
        1 <= n,
        s0.len() == n * n,
        0 <= a < n,
        0 <= b < n,
        s1 == flipped(s0, n, a, b),
        st.len() == 4,
        st[0].0 == a && st[0].1 == next(b, n),
        st[1].0 == a && st[1].1 == prev(b, n),
        st[2].0 == next(a, n) && st[2].1 == b,
        st[3].0 == prev(a, n) && st[3].1 == b,
    ensures
        frontier_queued(s1, s0, n, v, st),
{
    lemma_cell(a, b, n);
    assert forall|r: int, c: int|
        0 <= r < n && 0 <= c < n && #[trigger] spin_at(s1, n, r, c) != spin_at(s0, n, r, c) implies {
        &&& settled(s1, n, v, st, r, next(c, n))
        &&& settled(s1, n, v, st, r, prev(c, n))
        &&& settled(s1, n, v, st, next(r, n), c)
        &&& settled(s1, n, v, st, prev(r, n), c)
    } by {
        if r != a || c != b {
            lemma_cell_injective(r, c, a, b, n);
            lemma_cell(r, c, n);
        }
        assert(r == a && c == b);
        assert(st[0].0 == r);
        assert(st[1].0 == r);
        assert(st[2].1 == c);
        assert(st[3].1 == c);
    }
}

/// Popping a cell that no longer holds `v` keeps the cluster's neighbours
/// holding `v` on the stack.
proof fn lemma_frontier_after_skip(
    s: Seq<i8>,
    s0: Seq<i8>,
    n: int,
    v: int,
    pending: Seq<(usize, usize)>,
    st: Seq<(usize, usize)>,
)
    requires
        frontier_queued(s, s0, n, v, pending),
        pending.len() > 0,
        spin_at(s, n, pending.last().0 as int, pending.last().1 as int) != v,
        st == pending.subrange(0, pending.len() - 1),
    ensures
        frontier_queued(s, s0, n, v, st),
{
    assert forall|r: int, c: int|
        0 <= r < n && 0 <= c < n && #[trigger] spin_at(s, n, r, c) != spin_at(s0, n, r, c) implies {
        &&& settled(s, n, v, st, r, next(c, n))
        &&& settled(s, n, v, st, r, prev(c, n))
        &&& settled(s, n, v, st, next(r, n), c)
        &&& settled(s, n, v, st, prev(r, n), c)
    } by {
        lemma_settled_after_pop(s, s, n, v, pending, st, r, next(c, n));
        lemma_settled_after_pop(s, s, n, v, pending, st, r, prev(c, n));
        lemma_settled_after_pop(s, s, n, v, pending, st, next(r, n), c);
        lemma_settled_after_pop(s, s, n, v, pending, st, prev(r, n), c);
    }
}

/// Once the stack is empty, no neighbour of the cluster holds `v`.
proof fn lemma_frontier_closed(s: Seq<i8>, s0: Seq<i8>, n: int, v: int, st: Seq<(usize, usize)>)
    requires
        frontier_queued(s, s0, n, v, st),
        st.len() == 0,
    ensures
        cluster_closed(s, s0, n, v),
{
    assert forall|r: int, c: int|
        0 <= r < n && 0 <= c < n && #[trigger] spin_at(s, n, r, c) != spin_at(s0, n, r, c) implies {
        &&& spin_at(s, n, r, next(c, n)) != v
        &&& spin_at(s, n, r, prev(c, n)) != v
        &&& spin_at(s, n, next(r, n), c) != v
        &&& spin_at(s, n, prev(r, n), c) != v
    } by {
        assert(settled(s, n, v, st, r, next(c, n)));
        assert(settled(s, n, v, st, r, prev(c, n)));
        assert(settled(s, n, v, st, next(r, n), c));
        assert(settled(s, n, v, st, prev(r, n), c));
    }
}

impl Ising2D {
    pub open spec fn wf(&self) -> bool {
        self@.wf()
    }

    /// Reverses the spin at `(m, n)`, updating the magnetization by twice the
    /// new spin and the energy by `-2 * new spin * (sum of the four
    /// neighbours)`. On a one-cell torus every bond joins the cell to itself
    /// and no bond changes.
    fn flip(&mut self, m: usize, n: usize)
        requires
            old(self).wf(),
            m < old(self)@.size,
            n < old(self)@.size,
        ensures
            final(self).wf(),
            final(self)@.size == old(self)@.size,
            final(self)@.threshold == old(self)@.threshold,
            final(self)@.spins == flipped(
                old(self)@.spins,
                old(self)@.size as int,
                m as int,
                n as int,
            ),
    {
        let size = self.size;
        let ghost s0 = self.sites@;
        let ghost sz = size as int;
        let k = position(m, n, size);
        proof {
            assert(s0[k as int] == 1 || s0[k as int] == -1);
            lemma_flip_total(s0, k as int);
            lemma_total_bounded(flipped(s0, sz, m as int, n as int));
            lemma_bonds_bounded(flipped(s0, sz, m as int, n as int), sz);
            assert(sz * sz <= 0xFFFF * 0xFFFF) by (nonlinear_arith)
                requires
                    0 <= sz <= 0xFFFF,
            ;
            assert(self.magnetization + 2 * (-s0[k as int]) == spin_total(
                flipped(s0, sz, m as int, n as int),
            ));
        }
        let spin: i8 = -self.sites[k];
        self.sites.set(k, spin);
        self.magnetization = self.magnetization + 2 * spin as i64;
        if size > 1 {
            let right = position(m, next_index(n, size), size);
            let left = position(m, prev_index(n, size), size);
            let down = position(next_index(m, size), n, size);
            let up = position(prev_index(m, size), n, size);
            proof {
                lemma_flip_bonds(s0, sz, m as int, n as int);
                lemma_cell_injective(m as int, next(n as int, sz), m as int, n as int, sz);
                lemma_cell_injective(m as int, prev(n as int, sz), m as int, n as int, sz);
                lemma_cell_injective(next(m as int, sz), n as int, m as int, n as int, sz);
                lemma_cell_injective(prev(m as int, sz), n as int, m as int, n as int, sz);
            }
            proof {
                assert(s0[right as int] == 1 || s0[right as int] == -1);
                assert(s0[left as int] == 1 || s0[left as int] == -1);
                assert(s0[down as int] == 1 || s0[down as int] == -1);
                assert(s0[up as int] == 1 || s0[up as int] == -1);
                assert(self.energy - 2 * spin * neighbour_sum(s0, sz, m as int, n as int)
                    == energy_of(flipped(s0, sz, m as int, n as int), sz));
            }
            let around: i8 = self.sites[right] + self.sites[left] + self.sites[down]
                + self.sites[up];
            let delta: i8 = spin * around;
            self.energy = self.energy - 2 * delta as i64;
        } else {
            proof {
                assert(sz == 1);
                assert(sz * sz == 1) by (nonlinear_arith)
                    requires
                        sz == 1,
                ;
                lemma_flip_bonds_single(s0);
            }
        }
        proof {
            assert(self.sites@ == flipped(s0, sz, m as int, n as int));
        }
    }
    /// Position of the seed cell that a cluster update at `(m, n)` starts from.
    pub open spec fn seed_of(&self, m: int, n: int) -> int {
        cell(m % (self@.size as int), n % (self@.size as int), self@.size as int)
    }

    /// One Wolff cluster update. The seed `(m mod size, n mod size)` is
    /// reversed; then, from a stack holding the seed's four neighbours, each
    /// cell popped that still holds the seed's original spin is reversed with
    /// the bond activation probability, and its four neighbours are pushed.
    /// A reversed cell never holds the original spin again, so no cell joins
    /// the cluster twice. Only cells that held the seed's spin are reversed,
    /// and each was reached from the seed through reversed neighbours;
    /// with a threshold of zero only the seed is; with activation certain
    /// (threshold at least `ACTIVATION_SCALE`) no neighbour of the cluster
    /// keeps the seed's spin, so a lattice of equal spins is reversed whole.
    pub fn flip_wolff(&mut self, m: usize, n: usize, rng: &mut StdRng)
        requires
            old(self).wf(),
        ensures
            0 <= old(self).seed_of(m as int, n as int) < old(self)@.spins.len(),
            wolff_step(old(self)@, final(self)@, old(self).seed_of(m as int, n as int)),
    {
        let size = self.size;
        let m = m % size;
        let n = n % size;
        let seed = position(m, n, size);
        let spin0 = self.sites[seed];
        let ghost s0 = self.sites@;
        let ghost threshold = self.threshold;
        let ghost sz = size as int;
        let ghost full = self.threshold >= ACTIVATION_SCALE;
        let ghost v = spin0 as int;
        self.flip(m, n);
        let mut stack: Vec<(usize, usize)> = Vec::new();
        stack.push((m, next_index(n, size)));
        stack.push((m, prev_index(n, size)));
        stack.push((next_index(m, size), n));
        stack.push((prev_index(m, size), n));
        let ghost mut order: Seq<(int, int)> = seq![(m as int, n as int)];
        proof {
            lemma_frontier_initial(s0, self@.spins, sz, v, stack@, m as int, n as int);
            lemma_order_initial(s0, self@.spins, sz, stack@, m as int, n as int);
        }
        while stack.len() > 0
            invariant
                self.wf(),
                sz == size as int,
                self@.size == sz,
                self@.threshold == threshold,
                self@.spins.len() == s0.len(),
                0 <= seed < s0.len(),
                spin0 == s0[seed as int],
                spin0 == 1 || spin0 == -1,
                self@.spins[seed as int] == -spin0,
                forall|t: int| 0 <= t < stack.len() ==> #[trigger] stack[t].0 < sz && stack[t].1 < sz,
                forall|k: int|
                    0 <= k < s0.len() && #[trigger] self@.spins[k] != s0[k] ==> s0[k] == spin0
                        && self@.spins[k] == -spin0,
                threshold == 0 ==> forall|k: int|
                    0 <= k < s0.len() && k != seed ==> #[trigger] self@.spins[k] == s0[k],
                full == (threshold >= ACTIVATION_SCALE),
                v == spin0 as int,
                seed == cell(m as int, n as int, sz),
                full ==> frontier_queued(self@.spins, s0, sz, v, stack@),
                cluster_order(s0, self@.spins, sz, seed as int, order),
                stack_reached(order, stack@, sz),
            decreases
                (if spin0 == 1 {
                    sz * sz + self@.magnetization
                } else {
                    sz * sz - self@.magnetization
                }),
                stack.len(),
        {
            proof {
                lemma_total_bounded(self@.spins);
            }
            let ghost pending = stack@;
            let top = stack.pop().unwrap();
            let i = top.0;
            let j = top.1;
            proof {
                assert(top == pending[pending.len() - 1]);
                assert(stack@ == pending.subrange(0, pending.len() - 1));
                assert(i < sz && j < sz);
            }
            let k = position(i, j, size);
            if self.sites[k] == spin0 {
                let draw = uniform_below(rng, ACTIVATION_SCALE);
                if draw < self.threshold {
                    let ghost before = self@.spins;
                    self.flip(i, j);
                    proof {
                        lemma_total_bounded(self@.spins);
                        lemma_flip_total(before, k as int);
                        assert(self@.spins == before.update(k as int, (-before[k as int]) as i8));
                    }
                    stack.push((i, next_index(j, size)));
                    stack.push((i, prev_index(j, size)));
                    stack.push((next_index(i, size), j));
                    stack.push((prev_index(i, size), j));
                    proof {
                        assert forall|t: int| 0 <= t < stack.len() implies #[trigger] stack[t].0
                            < sz && stack[t].1 < sz by {
                            if t < pending.len() - 1 {
                                assert(stack[t] == pending[t]);
                            }
                        }
                        lemma_order_after_flip(
                            s0,
                            before,
                            self@.spins,
                            sz,
                            seed as int,
                            v,
                            order,
                            pending,
                            stack@,
                            i as int,
                            j as int,
                        );
                        order = order.push((i as int, j as int));
                        if full {
                            lemma_frontier_after_flip(
                                before,
                                self@.spins,
                                s0,
                                sz,
                                v,
                                pending,
                                stack@,
                                i as int,
                                j as int,
                            );
                        }
                    }
                } else {
                    proof {
                        assert(!full);
                        lemma_order_after_skip(order, pending, stack@, sz);
                    }
                }
            } else {
                proof {
                    lemma_order_after_skip(order, pending, stack@, sz);
                    if full {
                        lemma_frontier_after_skip(self@.spins, s0, sz, v, pending, stack@);
                    }
                }
            }
        }
        proof {
            assert(cluster_order(s0, self@.spins, sz, seed as int, order));
            if full {
                let s1 = self@.spins;
                lemma_frontier_closed(s1, s0, sz, v, stack@);
                if forall|k: int| 0 <= k < s0.len() ==> #[trigger] s0[k] == spin0 {
                    lemma_uniform_cluster_is_everything(s1, s0, sz, v, m as int, n as int);
                }
            }
        }
        proof {
            vstd::arithmetic::div_mod::lemma_mod_bound(m as int, sz);
        }
    }
    /// Builds a lattice from its grid, summing the spins and, over every
    /// cell, the bonds to its right and lower neighbours.
    fn assemble(size: usize, threshold: u64, sites: Vec<i8>) -> (l: Ising2D)
        requires
            1 <= size <= MAX_SIZE,
            sites@.len() == size * size,
            all_spins(sites@),
        ensures
            l.wf(),
            l@.size == size,
            l@.spins == sites@,
            l@.threshold == threshold,
    {
        proof {
            assert((size as int) * (size as int) <= 0xFFFF * 0xFFFF) by (nonlinear_arith)
                requires
                    0 <= size <= 0xFFFF,
            ;
        }
        let count = size * size;
        let ghost s = sites@;
        let ghost n = size as int;
        let mut magnetization: i64 = 0;
        let mut bonds: i64 = 0;
        let mut k: usize = 0;
        while k < count
            invariant
                1 <= size <= MAX_SIZE,
                n == size as int,
                s == sites@,
                count == n * n,
                count <= 0xFFFF * 0xFFFF,
                s.len() == count,
                all_spins(s),
                k <= count,
                magnetization == sum_below(|j: int| s[j] as int, k as int),
                bonds == sum_below(|j: int| cell_bonds(s, n, j / n, j % n), k as int),
                -(k as int) <= magnetization <= k,
                -2 * (k as int) <= bonds <= 2 * (k as int),
            decreases count - k,
        {
            proof {
                lemma_position(k as int, n);
            }
            let r = k / size;
            let c = k % size;
            let here = sites[k];
            let right = sites[position(r, next_index(c, size), size)];
            let down = sites[position(next_index(r, size), c, size)];
            proof {
                assert(here == 1 || here == -1);
                assert(right == 1 || right == -1);
                assert(down == 1 || down == -1);
                assert(cell_bonds(s, n, r as int, c as int) == here * (right + down));
                assert(-2 <= here * (right + down) <= 2) by (nonlinear_arith)
                    requires
                        here == 1 || here == -1,
                        -2 <= right + down <= 2,
                ;
            }
            magnetization = magnetization + here as i64;
            bonds = bonds + (here * (right + down)) as i64;
            k = k + 1;
        }
        Ising2D { size, sites, threshold, energy: -bonds, magnetization }
    }

    /// A lattice of side `size` whose spins are drawn independently, each
    /// `+1` or `-1` with probability one half. Fails on a side of zero.
    pub fn new(size: usize, threshold: u64, rng: &mut StdRng) -> (r: Result<Ising2D, LatticeError>)
        requires
            size <= MAX_SIZE,
        ensures
            r is Err <==> size == 0,
            r is Err ==> r->Err_0 == LatticeError::EmptyLattice,
            r is Ok ==> r->Ok_0.wf() && r->Ok_0@.size == size && r->Ok_0@.threshold == threshold,
    {
        if size == 0 {
            return Err(LatticeError::EmptyLattice);
        }
        proof {
            assert((size as int) * (size as int) <= 0xFFFF * 0xFFFF) by (nonlinear_arith)
                requires
                    0 <= size <= 0xFFFF,
            ;
        }
        let count = size * size;
        let mut sites: Vec<i8> = Vec::new();
        while sites.len() < count
            invariant
                sites@.len() <= count,
                all_spins(sites@),
            decreases count - sites@.len(),
        {
            let draw = uniform_below(rng, 2);
            let spin: i8 = if draw == 0 {
                -1
            } else {
                1
            };
            sites.push(spin);
        }
        Ok(Ising2D::assemble(size, threshold, sites))
    }

    /// A lattice of side `size` whose spins all equal `+1` (when `up`) or
    /// `-1`: every bond is aligned, so the energy is `-2 * size * size` in
    /// units of `J`. Fails on a side of zero.
    pub fn new_uniform(size: usize, threshold: u64, up: bool) -> (r: Result<Ising2D, LatticeError>)
        requires
            size <= MAX_SIZE,
        ensures
            r is Err <==> size == 0,
            r is Err ==> r->Err_0 == LatticeError::EmptyLattice,
            r is Ok ==> {
                let l = r->Ok_0;
                &&& l.wf()
                &&& l@.size == size
                &&& l@.threshold == threshold
                &&& forall|k: int| 0 <= k < l@.spins.len() ==> #[trigger] l@.spins[k] == (if up {
                    1int
                } else {
                    -1int
                })
                &&& l@.energy == -2 * (size * size)
                &&& l@.magnetization == (if up {
                    1int
                } else {
                    -1int
                }) * (size * size)
            },
    {
        if size == 0 {
            return Err(LatticeError::EmptyLattice);
        }
        proof {
            assert((size as int) * (size as int) <= 0xFFFF * 0xFFFF) by (nonlinear_arith)
                requires
                    0 <= size <= 0xFFFF,
            ;
        }
        let spin: i8 = if up {
            1
        } else {
            -1
        };
        let count = size * size;
        let mut sites: Vec<i8> = Vec::new();
        while sites.len() < count
            invariant
                sites@.len() <= count,
                forall|k: int| 0 <= k < sites@.len() ==> #[trigger] sites@[k] == spin,
            decreases count - sites@.len(),
        {
            sites.push(spin);
        }
        proof {
            lemma_uniform(sites@, size as int, spin);
        }
        Ok(Ising2D::assemble(size, threshold, sites))
    }

    /// Side length of the lattice.
    pub fn size(&self) -> (r: usize)
        requires
            self.wf(),
        ensures
            r == self@.size,
    {
        self.size
    }

    /// Spin at `(row, col)`.
    pub fn spin(&self, row: usize, col: usize) -> (r: i8)
        requires
            self.wf(),
            row < self@.size,
            col < self@.size,
        ensures
            r == self@.spin(row as int, col as int),
    {
        self.sites[position(row, col, self.size)]
    }

    /// Current energy in units of the coupling constant `J`.
    pub fn get_energy(&self) -> (r: i64)
        requires
            self.wf(),
        ensures
            r == self@.energy,
            r == energy_of(self@.spins, self@.size as int),
    {
        self.energy
    }

    /// Magnetization per site as the fraction `(total magnetization, number
    /// of sites)`; it lies in `[-1, 1]`.
    pub fn get_magnetic_momentum(&self) -> (r: (i64, u64))
        requires
            self.wf(),
        ensures
            r.0 == self@.magnetization,
            r.0 == spin_total(self@.spins),
            r.1 == self@.size * self@.size,
            -(r.1 as int) <= r.0 <= r.1,
    {
        proof {
            lemma_total_bounded(self@.spins);
            assert((self.size as int) * (self.size as int) <= 0xFFFF * 0xFFFF) by (nonlinear_arith)
                requires
                    0 <= self.size <= 0xFFFF,
            ;
        }
        let sites = self.size as u64 * self.size as u64;
        (self.magnetization, sites)
    }

    /// Runs `steps` cluster updates, each seeded at a cell drawn uniformly
    /// from the whole grid.
    pub fn simulate_wolff(&mut self, steps: usize, rng: &mut StdRng)
        requires
            old(self).wf(),
        ensures
            final(self).wf(),
            final(self)@.size == old(self)@.size,
            final(self)@.threshold == old(self)@.threshold,
            exists|tr: Seq<LatticeView>|
                tr.len() == steps + 1 && tr[0] == old(self)@ && tr.last() == final(self)@
                    && #[trigger] wolff_trace(tr),
    {
        let size = self.size as u64;
        let mut done: usize = 0;
        let ghost mut trace: Seq<LatticeView> = seq![self@];
        while done < steps
            invariant
                self.wf(),
                size == self@.size,
                self@.size == old(self)@.size,
                self@.threshold == old(self)@.threshold,
                done <= steps,
                trace.len() == done + 1,
                trace[0] == old(self)@,
                trace.last() == self@,
                wolff_trace(trace),
            decreases steps - done,
        {
            let m = uniform_below(rng, size) as usize;
            let n = uniform_below(rng, size) as usize;
            let ghost before = trace;
            let ghost seed = self.seed_of(m as int, n as int);
            self.flip_wolff(m, n, rng);
            proof {
                trace = before.push(self@);
                assert(wolff_linked(trace, done as int)) by {
                    assert(trace[done as int] == before.last());
                    assert(trace[done as int + 1] == self@);
                    assert(wolff_step(trace[done as int], trace[done as int + 1], seed));
                }
                assert forall|t: int| 0 <= t < trace.len() - 1 implies #[trigger] wolff_linked(
                    trace,
                    t,
                ) by {
                    if t < done {
                        assert(wolff_linked(before, t));
                        assert(trace[t] == before[t]);
                        assert(trace[t + 1] == before[t + 1]);
                    }
                }
            }
            done = done + 1;
        }
        proof {
            assert(wolff_trace(trace));
        }
    }
}

/// One independent trial of a temperature scan: a fresh random lattice of
/// side `size`, one sweep of `size * size` cluster updates, then the absolute
/// magnetization per site as the fraction `(|total magnetization|, number of
/// sites)`. Fails on a side of zero.
pub fn sweep_trial(size: usize, threshold: u64, rng: &mut StdRng) -> (r: Result<(u64, u64), LatticeError>)
    requires
        size <= MAX_SIZE,
    ensures
        r is Err <==> size == 0,
        r is Err ==> r->Err_0 == LatticeError::EmptyLattice,
        r is Ok ==> r->Ok_0.1 == size * size && r->Ok_0.0 <= r->Ok_0.1,
        r is Ok ==> r->Ok_0.0 % 2 == r->Ok_0.1 % 2,
        r is Ok ==> exists|tr: Seq<LatticeView>|
            {
                &&& tr.len() == size * size + 1
                &&& tr[0].wf()
                &&& tr[0].size == size
                &&& tr[0].threshold == threshold
                &&& #[trigger] wolff_trace(tr)
                &&& r->Ok_0.0 == (if tr.last().magnetization < 0 {
                    -tr.last().magnetization
                } else {
                    tr.last().magnetization
                })
            },
{
    let mut lattice = match Ising2D::new(size, threshold, rng) {
        Ok(l) => l,
        Err(e) => {
            return Err(e);
        },
    };
    proof {
        assert((size as int) * (size as int) <= 0xFFFF * 0xFFFF) by (nonlinear_arith)
            requires
                0 <= size <= 0xFFFF,
        ;
    }
    let ghost start = lattice@;
    lattice.simulate_wolff(size * size, rng);
    let (total, sites) = lattice.get_magnetic_momentum();
    proof {
        assert(sites <= 0xFFFF * 0xFFFF);
        lemma_total_parity(lattice@.spins);
    }
    let ghost tr = choose|tr: Seq<LatticeView>|
        tr.len() == size * size + 1 && tr[0] == start && tr.last() == lattice@
            && #[trigger] wolff_trace(tr);
    let magnitude: u64 = if total < 0 {
        (-total) as u64
    } else {
        total as u64
    };
    Ok((magnitude, sites))
}

/// In every well-formed state, which is every state the constructors and
/// updates reach, the magnetization per site lies in `[-1, 1]`.
pub proof fn lemma_magnetization_per_site_bounded(v: LatticeView)
    requires
        v.wf(),
    ensures
        -(v.size * v.size) <= v.magnetization <= v.size * v.size,
{
    lemma_total_bounded(v.spins);
}

} // verus!
