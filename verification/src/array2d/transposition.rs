//! Transposition inside the buffer: the permutation of flat indices behind
//! it, and the walk along its cycles.

use super::model::{lemma_cell_in_bounds, lemma_coords, lemma_flat_index, lemma_grid_ext, Grid};
use super::Array2d;
use vstd::arithmetic::div_mod::lemma_fundamental_div_mod;
use vstd::arithmetic::div_mod::lemma_mod_bound;
use vstd::prelude::*;
use vstd::set_lib::{lemma_int_range, lemma_len_subset, set_int_range};

verus! {

/// The flat index, in a `rows` by `cols` buffer, of the cell that the
/// transposition moves to flat index `k`.
pub open spec fn source(rows: int, cols: int, k: int) -> int {
    (k % rows) * cols + k / rows
}

/// The flat index to which the transposition moves the cell at flat index `s`.
pub open spec fn target(rows: int, cols: int, s: int) -> int {
    (s % cols) * rows + s / cols
}

/// Where `t` steps of `source` lead from `s`.
pub open spec fn orbit(rows: int, cols: int, s: int, t: nat) -> int
    decreases t,
{
    if t == 0 {
        s
    } else {
        source(rows, cols, orbit(rows, cols, s, (t - 1) as nat))
    }
}

/// Some index on the way from `k` along `source` lies below `bound`.
pub open spec fn settled(rows: int, cols: int, k: int, bound: int) -> bool {
    exists|t: nat| #[trigger] orbit(rows, cols, k, t) < bound
}

/// `source` maps the buffer into itself, and `target` undoes it.
pub proof fn lemma_source(rows: int, cols: int, k: int)
    requires
        0 <= rows,
        0 <= cols,
        0 <= k < rows * cols,
    ensures
        0 <= source(rows, cols, k) < rows * cols,
        target(rows, cols, source(rows, cols, k)) == k,
        source(rows, cols, k) == (k % rows) * cols + k / rows,
        0 < rows,
        0 <= k % rows < rows,
        0 <= k / rows < cols,
{
    assert(rows * cols == cols * rows) by (nonlinear_arith);
    lemma_flat_index(cols, rows, k);
    let r = k % rows;
    let c = k / rows;
    lemma_cell_in_bounds(rows, cols, r, c);
    lemma_coords(cols, r, c);
}

/// Every step of an orbit stays inside the buffer.
pub proof fn lemma_orbit_range(rows: int, cols: int, s: int, t: nat)
    requires
        0 <= rows,
        0 <= cols,
        0 <= s < rows * cols,
    ensures
        0 <= orbit(rows, cols, s, t) < rows * cols,
    decreases t,
{
    if t > 0 {
        lemma_orbit_range(rows, cols, s, (t - 1) as nat);
        lemma_source(rows, cols, orbit(rows, cols, s, (t - 1) as nat));
    }
}

/// Walking `a` steps and then `b` steps is walking `a + b` steps.
pub proof fn lemma_orbit_add(rows: int, cols: int, s: int, a: nat, b: nat)
    ensures
        orbit(rows, cols, s, a + b) == orbit(rows, cols, orbit(rows, cols, s, a), b),
    decreases b,
{
    if b > 0 {
        lemma_orbit_add(rows, cols, s, a, (b - 1) as nat);
        assert((a + b - 1) as nat == a + (b - 1) as nat);
    }
}

/// Two steps of one orbit that meet are a whole number of rounds apart.
pub proof fn lemma_orbit_cancel(rows: int, cols: int, s: int, a: nat, b: nat)
    requires
        0 <= rows,
        0 <= cols,
        0 <= s < rows * cols,
        a <= b,
        orbit(rows, cols, s, a) == orbit(rows, cols, s, b),
    ensures
        orbit(rows, cols, s, (b - a) as nat) == s,
    decreases a,
{
    if a > 0 {
        let x = orbit(rows, cols, s, (a - 1) as nat);
        let y = orbit(rows, cols, s, (b - 1) as nat);
        lemma_orbit_range(rows, cols, s, (a - 1) as nat);
        lemma_orbit_range(rows, cols, s, (b - 1) as nat);
        lemma_source(rows, cols, x);
        lemma_source(rows, cols, y);
        assert(x == y);
        lemma_orbit_cancel(rows, cols, s, (a - 1) as nat, (b - 1) as nat);
    }
}

/// The indices met in the first `t` steps from `s`.
pub open spec fn seen(rows: int, cols: int, s: int, t: nat) -> Set<int>
    decreases t,
{
    if t == 0 {
        Set::empty()
    } else {
        seen(rows, cols, s, (t - 1) as nat).insert(orbit(rows, cols, s, (t - 1) as nat))
    }
}

/// As long as no index is met twice, `t` steps meet `t` indices of the buffer.
proof fn lemma_seen(rows: int, cols: int, s: int, t: nat)
    requires
        0 <= rows,
        0 <= cols,
        0 <= s < rows * cols,
        forall|a: nat, b: nat|
            #![trigger orbit(rows, cols, s, a), orbit(rows, cols, s, b)]
            a < b < t ==> orbit(rows, cols, s, a) != orbit(rows, cols, s, b),
    ensures
        seen(rows, cols, s, t).finite(),
        seen(rows, cols, s, t).len() == t,
        seen(rows, cols, s, t).subset_of(set_int_range(0, rows * cols)),
        forall|x: int|
            seen(rows, cols, s, t).contains(x) ==> exists|u: nat|
                u < t && #[trigger] orbit(rows, cols, s, u) == x,
    decreases t,
{
    if t > 0 {
        let before = seen(rows, cols, s, (t - 1) as nat);
        let next = orbit(rows, cols, s, (t - 1) as nat);
        lemma_seen(rows, cols, s, (t - 1) as nat);
        lemma_orbit_range(rows, cols, s, (t - 1) as nat);
        if before.contains(next) {
            let u = choose|u: nat| u < t - 1 && #[trigger] orbit(rows, cols, s, u) == next;
            assert(orbit(rows, cols, s, u) != orbit(rows, cols, s, (t - 1) as nat));
        }
        assert forall|x: int| seen(rows, cols, s, t).contains(x) implies exists|u: nat|
            u < t && #[trigger] orbit(rows, cols, s, u) == x by {
            if x == next {
                assert(orbit(rows, cols, s, (t - 1) as nat) == x);
            } else {
                let u = choose|u: nat| u < t - 1 && #[trigger] orbit(rows, cols, s, u) == x;
                assert(u < t && orbit(rows, cols, s, u) == x);
            }
        }
    }
}

/// Every walk comes back to where it began within as many steps as the
/// buffer has cells.
pub proof fn lemma_period(rows: int, cols: int, s: int)
    requires
        0 <= rows,
        0 <= cols,
        0 <= s < rows * cols,
    ensures
        exists|p: nat| 1 <= p <= rows * cols && #[trigger] orbit(rows, cols, s, p) == s,
{
    let n = (rows * cols) as nat;
    if !(exists|p: nat| 1 <= p <= rows * cols && #[trigger] orbit(rows, cols, s, p) == s) {
        assert forall|a: nat, b: nat|
            #![trigger orbit(rows, cols, s, a), orbit(rows, cols, s, b)]
            a < b < n + 1 implies orbit(rows, cols, s, a) != orbit(rows, cols, s, b) by {
            if orbit(rows, cols, s, a) == orbit(rows, cols, s, b) {
                lemma_orbit_cancel(rows, cols, s, a, b);
                let p = (b - a) as nat;
                assert(1 <= p <= rows * cols && orbit(rows, cols, s, p) == s);
            }
        }
        lemma_seen(rows, cols, s, n + 1);
        lemma_int_range(0, rows * cols);
        lemma_len_subset(seen(rows, cols, s, n + 1), set_int_range(0, rows * cols));
        assert(false);
    }
}

/// A walk that is back at `s` after `p` steps is back there after any number
/// of rounds.
pub proof fn lemma_orbit_rounds(rows: int, cols: int, s: int, p: nat, m: nat)
    requires
        orbit(rows, cols, s, p) == s,
    ensures
        orbit(rows, cols, s, m * p) == s,
    decreases m,
{
    if m > 0 {
        lemma_orbit_rounds(rows, cols, s, p, (m - 1) as nat);
        assert(m * p == (m - 1) * p + p) by (nonlinear_arith);
        lemma_orbit_add(rows, cols, s, ((m - 1) * p) as nat, p);
        assert((m - 1) * p >= 0) by (nonlinear_arith)
            requires
                m >= 1,
        ;
    } else {
        assert(m * p == 0) by (nonlinear_arith)
            requires
                m == 0,
        ;
    }
}

/// A walk that is back at `s` after `p` steps stands after `v` steps where it
/// stood after `v % p`.
pub proof fn lemma_orbit_mod(rows: int, cols: int, s: int, p: nat, v: nat)
    requires
        1 <= p,
        orbit(rows, cols, s, p) == s,
    ensures
        orbit(rows, cols, s, v) == orbit(rows, cols, s, (v % p) as nat),
        0 <= v % p < p,
{
    let vi = v as int;
    let pi = p as int;
    let qi = vi / pi;
    let mi = vi % pi;
    lemma_fundamental_div_mod(vi, pi);
    lemma_mod_bound(vi, pi);
    assert(qi * pi == pi * qi) by (nonlinear_arith);
    assert(0 <= qi) by (nonlinear_arith)
        requires
            vi == pi * qi + mi,
            0 <= mi,
            mi < pi,
            0 <= vi,
            1 <= pi,
    ;
    let q = qi as nat;
    let m = mi as nat;
    lemma_orbit_rounds(rows, cols, s, p, q);
    lemma_orbit_add(rows, cols, s, q * p, m);
}

/// `t` is the first step at which the walk from `s` is at or below `s`, and
/// it is at `s` there: `s` is the lowest index of its cycle, and `t` its length.
pub open spec fn leads_cycle(rows: int, cols: int, s: int, t: nat) -> bool {
    &&& 1 <= t
    &&& orbit(rows, cols, s, t) == s
    &&& forall|u: nat| 1 <= u < t ==> #[trigger] orbit(rows, cols, s, u) > s
}

/// The cycle that `s` leads never goes below `s`, and meets no index twice.
pub proof fn lemma_cycle(rows: int, cols: int, s: int, t: nat, a: nat, b: nat)
    requires
        0 <= rows,
        0 <= cols,
        0 <= s < rows * cols,
        leads_cycle(rows, cols, s, t),
    ensures
        orbit(rows, cols, s, a) >= s,
        !settled(rows, cols, orbit(rows, cols, s, a), s),
        a < b < t ==> orbit(rows, cols, s, a) != orbit(rows, cols, s, b),
{
    lemma_orbit_mod(rows, cols, s, t, a);
    let k = orbit(rows, cols, s, a);
    if settled(rows, cols, k, s) {
        let w = choose|w: nat| #[trigger] orbit(rows, cols, k, w) < s;
        lemma_orbit_add(rows, cols, s, a, w);
        lemma_orbit_mod(rows, cols, s, t, a + w);
    }
    if a < b < t && orbit(rows, cols, s, a) == orbit(rows, cols, s, b) {
        lemma_orbit_cancel(rows, cols, s, a, b);
        assert(orbit(rows, cols, s, (b - a) as nat) > s);
    }
}

/// An index from which the walk reaches `s` lies on the cycle of `s`.
pub proof fn lemma_joins_cycle(rows: int, cols: int, s: int, t: nat, k: int, w: nat)
    requires
        0 <= rows,
        0 <= cols,
        0 <= k < rows * cols,
        1 <= t,
        orbit(rows, cols, s, t) == s,
        orbit(rows, cols, k, w) == s,
    ensures
        exists|u: nat| u < t && #[trigger] orbit(rows, cols, s, u) == k,
{
    lemma_period(rows, cols, k);
    let p = choose|p: nat| 1 <= p <= rows * cols && #[trigger] orbit(rows, cols, k, p) == k;
    lemma_orbit_rounds(rows, cols, k, p, w);
    assert(w * p >= w) by (nonlinear_arith)
        requires
            p >= 1,
            w >= 0,
    ;
    let v = (w * p - w) as nat;
    lemma_orbit_add(rows, cols, k, w, v);
    assert(w + v == w * p);
    assert(orbit(rows, cols, s, v) == k);
    lemma_orbit_mod(rows, cols, s, t, v);
    let u = (v % t) as nat;
    assert(u < t && orbit(rows, cols, s, u) == k);
}

/// `k` is one of the first `m` indices of the walk from `s`.
pub open spec fn on_walk(rows: int, cols: int, s: int, m: nat, k: int) -> bool {
    exists|u: nat| u < m && #[trigger] orbit(rows, cols, s, u) == k
}

/// Once the cycles that begin below `bound` are done, a cycle that dips below
/// `bound` at step `t` from `bound` is done too: nothing changes for `bound + 1`.
proof fn lemma_settled_already(rows: int, cols: int, bound: int, t: nat, k: int)
    requires
        orbit(rows, cols, bound, t) < bound,
    ensures
        settled(rows, cols, k, bound + 1) == settled(rows, cols, k, bound),
{
    if settled(rows, cols, k, bound + 1) {
        let w = choose|w: nat| #[trigger] orbit(rows, cols, k, w) < bound + 1;
        if orbit(rows, cols, k, w) == bound {
            lemma_orbit_add(rows, cols, k, w, t);
            assert(orbit(rows, cols, k, w + t) < bound);
        }
    }
    if settled(rows, cols, k, bound) {
        let w = choose|w: nat| #[trigger] orbit(rows, cols, k, w) < bound;
        assert(orbit(rows, cols, k, w) < bound + 1);
    }
}

/// After the cycle that `bound` leads, exactly the indices of that cycle are
/// newly done.
proof fn lemma_settled_by_cycle(rows: int, cols: int, bound: int, t: nat, k: int)
    requires
        0 <= rows,
        0 <= cols,
        0 <= bound < rows * cols,
        0 <= k < rows * cols,
        leads_cycle(rows, cols, bound, t),
    ensures
        on_walk(rows, cols, bound, t, k) ==> settled(rows, cols, k, bound + 1) && !settled(
            rows,
            cols,
            k,
            bound,
        ) && !settled(rows, cols, source(rows, cols, k), bound),
        !on_walk(rows, cols, bound, t, k) ==> settled(rows, cols, k, bound + 1) == settled(
            rows,
            cols,
            k,
            bound,
        ),
{
    if on_walk(rows, cols, bound, t, k) {
        let u = choose|u: nat| u < t && #[trigger] orbit(rows, cols, bound, u) == k;
        lemma_orbit_add(rows, cols, bound, u, (t - u) as nat);
        assert(orbit(rows, cols, k, (t - u) as nat) < bound + 1);
        lemma_cycle(rows, cols, bound, t, u, u);
        lemma_cycle(rows, cols, bound, t, u + 1, u + 1);
    } else {
        if settled(rows, cols, k, bound + 1) {
            let w = choose|w: nat| #[trigger] orbit(rows, cols, k, w) < bound + 1;
            if orbit(rows, cols, k, w) == bound {
                lemma_joins_cycle(rows, cols, bound, t, k, w);
            }
        }
        if settled(rows, cols, k, bound) {
            let w = choose|w: nat| #[trigger] orbit(rows, cols, k, w) < bound;
            assert(orbit(rows, cols, k, w) < bound + 1);
        }
    }
}

/// The flat index from which the transposition fills flat index `k`.
fn source_index(rows: usize, cols: usize, k: usize) -> (s: usize)
    requires
        k < rows * cols <= usize::MAX,
    ensures
        s == source(rows as int, cols as int, k as int),
        s < rows * cols,
{
    proof {
        lemma_source(rows as int, cols as int, k as int);
        lemma_cell_in_bounds(rows as int, cols as int, (k % rows) as int, (k / rows) as int);
    }
    (k % rows) * cols + k / rows
}

impl<T: Copy> Array2d<T> {
    /// Transposes the matrix inside its own buffer, cycle by cycle of the
    /// index permutation, and exchanges the row and column counts.
    pub fn transpose_inplace(&mut self)
        requires
            old(self)@.wf(),
        ensures
            final(self)@ == old(self)@.transposed(),
            final(self)@.wf(),
    {
        proof {
            self.lemma_buffer();
        }
        let rows = self.rows;
        let cols = self.cols;
        let n_el = self.data.len();
        let ghost r = rows as int;
        let ghost c = cols as int;
        proof {
            assert forall|k: int| 0 <= k < n_el implies !settled(r, c, k, 0) by {
                if settled(r, c, k, 0) {
                    let w = choose|w: nat| #[trigger] orbit(r, c, k, w) < 0;
                    lemma_orbit_range(r, c, k, w);
                }
            }
        }
        let mut start: usize = 0;
        while start < n_el
            invariant
                start <= n_el,
                n_el == rows * cols,
                r == rows,
                c == cols,
                self.data@.len() == n_el,
                self.rows == rows,
                self.cols == cols,
                old(self).data@.len() == n_el,
                forall|k: int|
                    0 <= k < n_el ==> #[trigger] self.data@[k] == if settled(r, c, k, start as int) {
                        old(self).data@[source(r, c, k)]
                    } else {
                        old(self).data@[k]
                    },
            decreases n_el - start,
        {
            proof {
                lemma_period(r, c, start as int);
            }
            let ghost p = choose|p: nat| 1 <= p <= r * c && #[trigger] orbit(r, c, start as int, p)
                == start;
            let mut j = source_index(rows, cols, start);
            let ghost mut t: nat = 1;
            proof {
                assert(orbit(r, c, start as int, 1) == source(r, c, orbit(r, c, start as int, 0)));
            }
            while j > start
                invariant
                    1 <= t <= p,
                    j == orbit(r, c, start as int, t),
                    orbit(r, c, start as int, p) == start,
                    forall|u: nat| 1 <= u < t ==> #[trigger] orbit(r, c, start as int, u) > start,
                    j < n_el,
                    n_el == rows * cols,
                    r == rows,
                    c == cols,
                decreases p - t,
            {
                j = source_index(rows, cols, j);
                proof {
                    t = t + 1;
                }
            }
            if j == start {
                assert(leads_cycle(r, c, start as int, t));
                let ghost before = self.data@;
                let tmp = self.data[start];
                let mut i = start;
                let ghost mut m: nat = 0;
                loop
                    invariant_except_break
                        m < t,
                        i == orbit(r, c, start as int, m),
                        forall|k: int|
                            0 <= k < n_el ==> #[trigger] self.data@[k] == if on_walk(
                                r,
                                c,
                                start as int,
                                m,
                                k,
                            ) {
                                before[source(r, c, k)]
                            } else {
                                before[k]
                            },
                    invariant
                        i < n_el,
                        start < n_el,
                        n_el == rows * cols,
                        r == rows,
                        c == cols,
                        leads_cycle(r, c, start as int, t),
                        tmp == before[start as int],
                        before.len() == n_el,
                        self.data@.len() == n_el,
                        self.rows == rows,
                        self.cols == cols,
                    ensures
                        forall|k: int|
                            0 <= k < n_el ==> #[trigger] self.data@[k] == if on_walk(
                                r,
                                c,
                                start as int,
                                t,
                                k,
                            ) {
                                before[source(r, c, k)]
                            } else {
                                before[k]
                            },
                    decreases t - m,
                {
                    let next = source_index(rows, cols, i);
                    let ghost walked = self.data@;
                    if next == start {
                        self.data[i] = tmp;
                        proof {
                            if m + 1 < t {
                                assert(orbit(r, c, start as int, (m + 1) as nat) > start);
                            }
                            assert(m + 1 == t);
                            assert forall|k: int| 0 <= k < n_el implies #[trigger] self.data@[k]
                                == if on_walk(r, c, start as int, t, k) {
                                before[source(r, c, k)]
                            } else {
                                before[k]
                            } by {
                                lemma_walk_grows(r, c, start as int, m, k);
                                assert(walked[k] == if on_walk(r, c, start as int, m, k) {
                                    before[source(r, c, k)]
                                } else {
                                    before[k]
                                });
                                if on_walk(r, c, start as int, m, k) && k == i {
                                    let u = choose|u: nat|
                                        u < m && #[trigger] orbit(r, c, start as int, u) == k;
                                    lemma_cycle(r, c, start as int, t, u, m);
                                }
                            }
                            m = m + 1;
                        }
                        break ;
                    }
                    proof {
                        if m + 1 == t {
                            assert(orbit(r, c, start as int, (m + 1) as nat) == start);
                        }
                        assert(m + 1 < t);
                        if on_walk(r, c, start as int, m, next as int) {
                            let u = choose|u: nat|
                                u < m && #[trigger] orbit(r, c, start as int, u) == next;
                            lemma_cycle(r, c, start as int, t, u, (m + 1) as nat);
                        }
                        lemma_cycle(r, c, start as int, t, m, (m + 1) as nat);
                        assert(next != i);
                        assert(walked[next as int] == before[next as int]);
                    }
                    let moved = self.data[next];
                    self.data[i] = moved;
                    proof {
                        assert forall|k: int| 0 <= k < n_el implies #[trigger] self.data@[k]
                            == if on_walk(r, c, start as int, (m + 1) as nat, k) {
                            before[source(r, c, k)]
                        } else {
                            before[k]
                        } by {
                            lemma_walk_grows(r, c, start as int, m, k);
                            assert(walked[k] == if on_walk(r, c, start as int, m, k) {
                                before[source(r, c, k)]
                            } else {
                                before[k]
                            });
                            if on_walk(r, c, start as int, m, k) && k == i {
                                let u = choose|u: nat|
                                    u < m && #[trigger] orbit(r, c, start as int, u) == k;
                                lemma_cycle(r, c, start as int, t, u, m);
                            }
                        }
                        m = m + 1;
                    }
                    i = next;
                }
                proof {
                    assert forall|k: int| 0 <= k < n_el implies #[trigger] self.data@[k]
                        == if settled(r, c, k, start + 1) {
                        old(self).data@[source(r, c, k)]
                    } else {
                        old(self).data@[k]
                    } by {
                        lemma_settled_by_cycle(r, c, start as int, t, k);
                        lemma_source(r, c, k);
                        assert(before[k] == if settled(r, c, k, start as int) {
                            old(self).data@[source(r, c, k)]
                        } else {
                            old(self).data@[k]
                        });
                        assert(before[source(r, c, k)] == if settled(
                            r,
                            c,
                            source(r, c, k),
                            start as int,
                        ) {
                            old(self).data@[source(r, c, source(r, c, k))]
                        } else {
                            old(self).data@[source(r, c, k)]
                        });
                    }
                }
            } else {
                proof {
                    assert forall|k: int| 0 <= k < n_el implies #[trigger] self.data@[k]
                        == if settled(r, c, k, start + 1) {
                        old(self).data@[source(r, c, k)]
                    } else {
                        old(self).data@[k]
                    } by {
                        lemma_settled_already(r, c, start as int, t, k);
                    }
                }
            }
            start += 1;
        }
        self.rows = cols;
        self.cols = rows;
        proof {
            let target = old(self)@.transposed();
            old(self)@.lemma_transposed();
            assert(rows * cols == cols * rows) by (nonlinear_arith);
            assert forall|x: int, y: int| self@.has(x, y) implies #[trigger] self@.at(x, y)
                == target.at(x, y) by {
                let k = x * r + y;
                lemma_cell_in_bounds(c, r, x, y);
                lemma_coords(r, x, y);
                assert(orbit(r, c, k, 0) < n_el);
                assert(settled(r, c, k, n_el as int));
                assert(self.data@[k] == old(self).data@[source(r, c, k)]);
            }
            lemma_grid_ext(self@, target);
        }
    }
}

/// One more step of the walk adds the index where the walk stands.
proof fn lemma_walk_grows(rows: int, cols: int, s: int, m: nat, k: int)
    ensures
        on_walk(rows, cols, s, m + 1, k) <==> on_walk(rows, cols, s, m, k) || k == orbit(
            rows,
            cols,
            s,
            m,
        ),
{
    if on_walk(rows, cols, s, m + 1, k) {
        let u = choose|u: nat| u < m + 1 && #[trigger] orbit(rows, cols, s, u) == k;
        if u < m {
            assert(on_walk(rows, cols, s, m, k));
        }
    }
    if on_walk(rows, cols, s, m, k) {
        let u = choose|u: nat| u < m && #[trigger] orbit(rows, cols, s, u) == k;
        assert(u < m + 1 && orbit(rows, cols, s, u) == k);
    }
    if k == orbit(rows, cols, s, m) {
        assert(m < m + 1 && orbit(rows, cols, s, m) == k);
    }
}

} // verus!
