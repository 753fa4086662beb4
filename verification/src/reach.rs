use vstd::prelude::*;

use std::collections::BTreeSet;

use crate::matrix::{lemma_row_major_bound, Matrix};

verus! {

broadcast use vstd::std_specs::btree::group_btree_axioms, vstd::laws_cmp::group_laws_cmp;

impl<C> Matrix<C> {
    /// One expansion step of the reachability search: `v` is a
    /// neighbour of `u` and the predicate admits `v`.
    pub open spec fn reach_step(
        &self,
        diagonals: bool,
        pred: spec_fn((usize, usize)) -> bool,
        u: (usize, usize),
        v: (usize, usize),
    ) -> bool {
        self.is_neighbour(u, v, diagonals) && pred(v)
    }

    /// Whether `c` can be reached from `start` in at most `n` expansion
    /// steps. The start itself is reached in zero steps, whether or not
    /// the predicate admits it.
    pub open spec fn reaches_in(
        &self,
        start: (usize, usize),
        diagonals: bool,
        pred: spec_fn((usize, usize)) -> bool,
        c: (usize, usize),
        n: nat,
    ) -> bool
        decreases n,
    {
        if n == 0 {
            c == start
        } else {
            self.reaches_in(start, diagonals, pred, c, (n - 1) as nat) || exists|u: (usize, usize)|
                self.reaches_in(start, diagonals, pred, u, (n - 1) as nat) && #[trigger] self.reach_step(
                    diagonals,
                    pred,
                    u,
                    c,
                )
        }
    }

    /// The set of cells reachable from `start` by repeated
    /// predicate-filtered neighbour expansion, including `start`.
    pub open spec fn reach_set(
        &self,
        start: (usize, usize),
        diagonals: bool,
        pred: spec_fn((usize, usize)) -> bool,
    ) -> Set<(usize, usize)> {
        Set::new(
            |c: (usize, usize)| exists|n: nat| self.reaches_in(start, diagonals, pred, c, n),
        )
    }

    /// A cell reachable from an out-of-bounds start is the start.
    proof fn lemma_reach_oob(
        &self,
        start: (usize, usize),
        diagonals: bool,
        pred: spec_fn((usize, usize)) -> bool,
        c: (usize, usize),
        n: nat,
    )
        requires
            !self.in_bounds(start.0 as int, start.1 as int),
            self.reaches_in(start, diagonals, pred, c, n),
        ensures
            c == start,
        decreases n,
    {
        if n > 0 {
            if self.reaches_in(start, diagonals, pred, c, (n - 1) as nat) {
                self.lemma_reach_oob(start, diagonals, pred, c, (n - 1) as nat);
            } else {
                let u = choose|u: (usize, usize)|
                    self.reaches_in(start, diagonals, pred, u, (n - 1) as nat)
                        && #[trigger] self.reach_step(diagonals, pred, u, c);
                self.lemma_reach_oob(start, diagonals, pred, u, (n - 1) as nat);
            }
        }
    }

    /// The reach set is closed under expansion steps.
    proof fn lemma_reach_extend(
        &self,
        start: (usize, usize),
        diagonals: bool,
        pred: spec_fn((usize, usize)) -> bool,
        u: (usize, usize),
        w: (usize, usize),
    )
        requires
            self.reach_set(start, diagonals, pred).contains(u),
            self.reach_step(diagonals, pred, u, w),
        ensures
            self.reach_set(start, diagonals, pred).contains(w),
    {
        let n = choose|n: nat| self.reaches_in(start, diagonals, pred, u, n);
        assert(self.reaches_in(start, diagonals, pred, w, n + 1));
    }

    /// A collection that holds the start and is closed under expansion
    /// steps holds every reachable cell.
    proof fn lemma_reach_complete(
        &self,
        start: (usize, usize),
        diagonals: bool,
        pred: spec_fn((usize, usize)) -> bool,
        rs: Seq<(usize, usize)>,
        c: (usize, usize),
        n: nat,
    )
        requires
            rs.contains(start),
            forall|u: (usize, usize), w: (usize, usize)|
                rs.contains(u) && #[trigger] self.reach_step(diagonals, pred, u, w) ==> rs.contains(
                    w,
                ),
            self.reaches_in(start, diagonals, pred, c, n),
        ensures
            rs.contains(c),
        decreases n,
    {
        if n > 0 {
            if self.reaches_in(start, diagonals, pred, c, (n - 1) as nat) {
                self.lemma_reach_complete(start, diagonals, pred, rs, c, (n - 1) as nat);
            } else {
                let u = choose|u: (usize, usize)|
                    self.reaches_in(start, diagonals, pred, u, (n - 1) as nat)
                        && #[trigger] self.reach_step(diagonals, pred, u, c);
                self.lemma_reach_complete(start, diagonals, pred, rs, u, (n - 1) as nat);
            }
        }
    }

    /// Two predicates that agree on the cells of the grid induce the
    /// same reachability, step by step.
    proof fn lemma_reach_pred_agree(
        &self,
        start: (usize, usize),
        diagonals: bool,
        g1: spec_fn((usize, usize)) -> bool,
        g2: spec_fn((usize, usize)) -> bool,
        c: (usize, usize),
        n: nat,
    )
        requires
            forall|p: (usize, usize)|
                self.in_bounds(p.0 as int, p.1 as int) ==> #[trigger] g1(p) == g2(p),
            self.reaches_in(start, diagonals, g1, c, n),
        ensures
            self.reaches_in(start, diagonals, g2, c, n),
        decreases n,
    {
        if n > 0 {
            if self.reaches_in(start, diagonals, g1, c, (n - 1) as nat) {
                self.lemma_reach_pred_agree(start, diagonals, g1, g2, c, (n - 1) as nat);
            } else {
                let u = choose|u: (usize, usize)|
                    self.reaches_in(start, diagonals, g1, u, (n - 1) as nat)
                        && #[trigger] self.reach_step(diagonals, g1, u, c);
                self.lemma_reach_pred_agree(start, diagonals, g1, g2, u, (n - 1) as nat);
                assert(self.reach_step(diagonals, g2, u, c));
            }
        }
    }
}

/// The predicate that a mask over the flat store encodes: a cell is
/// admitted when its row-major offset carries `true`.
pub open spec fn mask_pred(columns: int, allowed: Seq<bool>) -> spec_fn((usize, usize)) -> bool {
    |c: (usize, usize)| 0 <= c.0 as int * columns + c.1 < allowed.len() && allowed[c.0 as int
        * columns + c.1]
}

/// How many entries of a mask are still `false`.
spec fn count_false(s: Seq<bool>) -> int
    decreases s.len(),
{
    if s.len() == 0 {
        0
    } else {
        count_false(s.drop_last()) + if s.last() {
            0int
        } else {
            1int
        }
    }
}

proof fn lemma_count_false_nonneg(s: Seq<bool>)
    ensures
        count_false(s) >= 0,
    decreases s.len(),
{
    if s.len() > 0 {
        lemma_count_false_nonneg(s.drop_last());
    }
}

/// Turning a `false` entry `true` lowers the count by one.
proof fn lemma_count_false_update(s: Seq<bool>, i: int)
    requires
        0 <= i < s.len(),
        !s[i],
    ensures
        count_false(s.update(i, true)) == count_false(s) - 1,
    decreases s.len(),
{
    let t = s.update(i, true);
    if i == s.len() - 1 {
        assert(t.drop_last() =~= s.drop_last());
    } else {
        assert(t.drop_last() =~= s.drop_last().update(i, true));
        lemma_count_false_update(s.drop_last(), i);
    }
}

impl<C> Matrix<C> {
    /// Worklist search over the grid: collect every cell reachable from
    /// `start` through neighbours admitted by the mask. The worklist is
    /// consumed from the back in depth-first order and from the front
    /// in breadth-first order; either way the collected cells are the
    /// reach set of the mask's predicate.
    fn reach_core(
        &self,
        start: (usize, usize),
        diagonals: bool,
        allowed: &Vec<bool>,
        depth_first: bool,
    ) -> (v: Vec<(usize, usize)>)
        requires
            self.wf(),
            allowed@.len() == self.store().len(),
        ensures
            forall|p: (usize, usize)| #[trigger]
                v@.contains(p) <==> self.reach_set(
                    start,
                    diagonals,
                    mask_pred(self.columns as int, allowed@),
                ).contains(p),
    {
        let ghost pred = mask_pred(self.columns as int, allowed@);
        let ghost reach = self.reach_set(start, diagonals, pred);
        if !self.within_bounds(start) {
            let mut v: Vec<(usize, usize)> = Vec::new();
            v.push(start);
            proof {
                assert(self.reaches_in(start, diagonals, pred, start, 0));
                assert forall|p: (usize, usize)| #[trigger] v@.contains(p) <==> reach.contains(
                    p,
                ) by {
                    if reach.contains(p) {
                        let n = choose|n: nat| self.reaches_in(start, diagonals, pred, p, n);
                        self.lemma_reach_oob(start, diagonals, pred, p, n);
                        assert(v@[0] == p);
                    }
                    if v@.contains(p) {
                        let k = choose|k: int| 0 <= k < v@.len() && v@[k] == p;
                        assert(p == start);
                    }
                }
            }
            return v;
        }
        let mut visited: Vec<bool> = vec![false; allowed.len()];
        let mut result: Vec<(usize, usize)> = Vec::new();
        let mut queue: Vec<(usize, usize)> = Vec::new();
        let si = self.idx_unchecked(start);
        visited[si] = true;
        result.push(start);
        queue.push(start);
        proof {
            assert(self.reaches_in(start, diagonals, pred, start, 0));
            assert(reach.contains(start));
            lemma_count_false_nonneg(visited@);
            assert(result@[0] == start && queue@[0] == start);
            assert forall|p: (usize, usize)|
                self.in_bounds(p.0 as int, p.1 as int) implies (visited@[p.0 as int * self.columns
                + p.1] <==> result@.contains(p)) by {
                lemma_row_major_bound(p.0 as int, p.1 as int, self.rows as int, self.columns as int);
                if p.0 as int * self.columns + p.1 == start.0 as int * self.columns + start.1 {
                    crate::matrix::lemma_row_major_injective(
                        p.0 as int,
                        p.1 as int,
                        start.0 as int,
                        start.1 as int,
                        self.columns as int,
                    );
                }
                if result@.contains(p) {
                    let k = choose|k: int| 0 <= k < result@.len() && result@[k] == p;
                }
            }
        }
        while queue.len() > 0
            invariant
                self.wf(),
                allowed@.len() == self.store().len(),
                visited@.len() == self.store().len(),
                pred == mask_pred(self.columns as int, allowed@),
                reach == self.reach_set(start, diagonals, pred),
                self.in_bounds(start.0 as int, start.1 as int),
                result@.contains(start),
                forall|p: (usize, usize)|
                    self.in_bounds(p.0 as int, p.1 as int) ==> (visited@[p.0 as int * self.columns
                        + p.1] <==> result@.contains(p)),
                forall|k: int|
                    0 <= k < result@.len() ==> self.in_bounds(
                        (#[trigger] result@[k]).0 as int,
                        result@[k].1 as int,
                    ),
                forall|k: int| 0 <= k < result@.len() ==> reach.contains(#[trigger] result@[k]),
                forall|k: int| 0 <= k < queue@.len() ==> result@.contains(#[trigger] queue@[k]),
                forall|k1: int, k2: int|
                    0 <= k1 < k2 < queue@.len() ==> queue@[k1] != queue@[k2],
                forall|u: (usize, usize), w: (usize, usize)|
                    result@.contains(u) && !queue@.contains(u) && #[trigger] self.reach_step(
                        diagonals,
                        pred,
                        u,
                        w,
                    ) ==> result@.contains(w),
                count_false(visited@) >= 0,
            decreases count_false(visited@) + queue@.len(),
        {
            let ghost queue_before = queue@;
            let ghost m0 = count_false(visited@) + queue@.len();
            let u = if depth_first {
                queue.pop().unwrap()
            } else {
                queue.remove(0)
            };
            let ghost m1 = count_false(visited@) + queue@.len();
            proof {
                assert(m1 == m0 - 1);
                assert(queue_before.contains(u)) by {
                    if depth_first {
                        assert(queue_before[queue_before.len() - 1] == u);
                    } else {
                        assert(queue_before[0] == u);
                    }
                }
                assert(result@.contains(u));
                assert(reach.contains(u)) by {
                    let k = choose|k: int| 0 <= k < result@.len() && result@[k] == u;
                }
                assert(!queue@.contains(u)) by {
                    if queue@.contains(u) {
                        let k = choose|k: int| 0 <= k < queue@.len() && queue@[k] == u;
                        if depth_first {
                            assert(queue_before[k] == u);
                        } else {
                            assert(queue_before[k + 1] == u);
                        }
                    }
                }
                assert forall|k: int|
                    0 <= k < queue@.len() implies result@.contains(#[trigger] queue@[k]) by {
                    if depth_first {
                        assert(queue@[k] == queue_before[k]);
                    } else {
                        assert(queue@[k] == queue_before[k + 1]);
                    }
                }
                assert forall|k1: int, k2: int|
                    0 <= k1 < k2 < queue@.len() implies queue@[k1] != queue@[k2] by {
                    if depth_first {
                        assert(queue@[k1] == queue_before[k1] && queue@[k2] == queue_before[k2]);
                    } else {
                        assert(queue@[k1] == queue_before[k1 + 1] && queue@[k2] == queue_before[k2
                            + 1]);
                    }
                }
                assert forall|p: (usize, usize)|
                    queue_before.contains(p) implies p == u || queue@.contains(p) by {
                    let k = choose|k: int| 0 <= k < queue_before.len() && queue_before[k] == p;
                    if depth_first {
                        if k < queue_before.len() - 1 {
                            assert(queue@[k] == p);
                        }
                    } else {
                        if k > 0 {
                            assert(queue@[k - 1] == p);
                        }
                    }
                }
            }
            let nb = self.neighbours(u, diagonals);
            let mut t: usize = 0;
            while t < nb.len()
                invariant
                    self.wf(),
                    allowed@.len() == self.store().len(),
                    visited@.len() == self.store().len(),
                    pred == mask_pred(self.columns as int, allowed@),
                    reach == self.reach_set(start, diagonals, pred),
                    self.in_bounds(start.0 as int, start.1 as int),
                    0 <= t <= nb@.len(),
                    nb@ == self.neighbours_seq(u, diagonals),
                    result@.contains(start),
                    result@.contains(u),
                    reach.contains(u),
                    !queue@.contains(u),
                    forall|p: (usize, usize)|
                        self.in_bounds(p.0 as int, p.1 as int) ==> (visited@[p.0 as int
                            * self.columns + p.1] <==> result@.contains(p)),
                    forall|k: int|
                        0 <= k < result@.len() ==> self.in_bounds(
                            (#[trigger] result@[k]).0 as int,
                            result@[k].1 as int,
                        ),
                    forall|k: int| 0 <= k < result@.len() ==> reach.contains(#[trigger] result@[k]),
                    forall|k: int| 0 <= k < queue@.len() ==> result@.contains(#[trigger] queue@[k]),
                    forall|k1: int, k2: int|
                        0 <= k1 < k2 < queue@.len() ==> queue@[k1] != queue@[k2],
                    forall|j: int|
                        0 <= j < t && pred(#[trigger] nb@[j]) ==> result@.contains(nb@[j]),
                    forall|u_: (usize, usize), w: (usize, usize)|
                        result@.contains(u_) && !queue@.contains(u_) && u_ != u
                            && #[trigger] self.reach_step(diagonals, pred, u_, w)
                            ==> result@.contains(w),
                    count_false(visited@) + queue@.len() == m1,
                    count_false(visited@) >= 0,
                decreases nb@.len() - t,
            {
                let ghost result_entry = result@;
                let ghost queue_entry = queue@;
                let w = nb[t];
                proof {
                    assert(nb@.contains(w));
                    self.lemma_neighbours_seq_membership(u, diagonals, w);
                }
                let wi = self.idx_unchecked(w);
                let adm = allowed[wi];
                proof {
                    assert(adm == pred(w));
                }
                if adm {
                    if !visited[wi] {
                        let ghost visited_before = visited@;
                        visited[wi] = true;
                        result.push(w);
                        queue.push(w);
                        proof {
                            lemma_count_false_update(visited_before, wi as int);
                            lemma_count_false_nonneg(visited@);
                            self.lemma_reach_extend(start, diagonals, pred, u, w);
                            lemma_contains_push(result_entry, w, start);
                            lemma_contains_push(result_entry, w, u);
                            assert(!result_entry.contains(w));
                            lemma_contains_push(queue_entry, w, u);
                            assert forall|p: (usize, usize)|
                                self.in_bounds(p.0 as int, p.1 as int) implies (visited@[p.0 as int
                                * self.columns + p.1] <==> result@.contains(p)) by {
                                lemma_row_major_bound(
                                    p.0 as int,
                                    p.1 as int,
                                    self.rows as int,
                                    self.columns as int,
                                );
                                lemma_contains_push(result_entry, w, p);
                                if p.0 as int * self.columns + p.1 == w.0 as int * self.columns
                                    + w.1 {
                                    crate::matrix::lemma_row_major_injective(
                                        p.0 as int,
                                        p.1 as int,
                                        w.0 as int,
                                        w.1 as int,
                                        self.columns as int,
                                    );
                                }
                            }
                            assert forall|k: int|
                                0 <= k < queue@.len() implies result@.contains(
                                #[trigger] queue@[k],
                            ) by {
                                lemma_contains_push(result_entry, w, queue@[k]);
                                if k < queue_entry.len() {
                                    assert(queue@[k] == queue_entry[k]);
                                } else {
                                    assert(queue@[k] == w);
                                }
                            }
                            assert forall|k1: int, k2: int|
                                0 <= k1 < k2 < queue@.len() implies queue@[k1] != queue@[k2] by {
                                if k2 == queue_entry.len() {
                                    assert(queue@[k2] == w);
                                    assert(queue@[k1] == queue_entry[k1]);
                                    assert(result_entry.contains(queue_entry[k1]));
                                }
                            }
                            assert forall|u_: (usize, usize), w_: (usize, usize)|
                                result@.contains(u_) && !queue@.contains(u_) && u_ != u
                                    && #[trigger] self.reach_step(diagonals, pred, u_, w_)
                                    implies result@.contains(w_) by {
                                lemma_contains_push(result_entry, w, u_);
                                lemma_contains_push(queue_entry, w, u_);
                                lemma_contains_push(result_entry, w, w_);
                            }
                        }
                    } else {
                        proof {
                            assert(result@.contains(w));
                        }
                    }
                }
                proof {
                    assert forall|j: int|
                        0 <= j < t + 1 && pred(#[trigger] nb@[j]) implies result@.contains(
                        nb@[j],
                    ) by {
                        lemma_contains_push(result_entry, w, nb@[j]);
                    }
                }
                t = t + 1;
            }
            proof {
                assert forall|u_: (usize, usize), w: (usize, usize)|
                    result@.contains(u_) && !queue@.contains(u_) && #[trigger] self.reach_step(
                        diagonals,
                        pred,
                        u_,
                        w,
                    ) implies result@.contains(w) by {
                    if u_ == u {
                        self.lemma_neighbours_seq_membership(u, diagonals, w);
                        let j = choose|j: int| 0 <= j < nb@.len() && nb@[j] == w;
                    }
                }
            }
        }
        proof {
            assert forall|p: (usize, usize)| #[trigger] result@.contains(p) <==> reach.contains(
                p,
            ) by {
                if result@.contains(p) {
                    let k = choose|k: int| 0 <= k < result@.len() && result@[k] == p;
                }
                if reach.contains(p) {
                    let n = choose|n: nat| self.reaches_in(start, diagonals, pred, p, n);
                    self.lemma_reach_complete(start, diagonals, pred, result@, p, n);
                }
            }
        }
        result
    }
}

/// Collect the distinct cells of a vector into an ordered set.
fn to_btree_set(v: &Vec<(usize, usize)>) -> (s: BTreeSet<(usize, usize)>)
    ensures
        forall|p: (usize, usize)| #[trigger] s@.contains(p) <==> v@.contains(p),
{
    let mut s: BTreeSet<(usize, usize)> = BTreeSet::new();
    let mut i: usize = 0;
    while i < v.len()
        invariant
            0 <= i <= v@.len(),
            forall|p: (usize, usize)| #[trigger] s@.contains(p) <==> v@.subrange(0, i as int).contains(p),
        decreases v@.len() - i,
    {
        let x = v[i];
        s.insert(x);
        proof {
            assert(v@.subrange(0, i + 1 as int) =~= v@.subrange(0, i as int).push(x));
            assert forall|p: (usize, usize)| #[trigger] s@.contains(p) <==> v@.subrange(
                0,
                i + 1 as int,
            ).contains(p) by {
                lemma_contains_push(v@.subrange(0, i as int), x, p);
            }
        }
        i = i + 1;
    }
    proof {
        assert(v@.subrange(0, v@.len() as int) =~= v@);
    }
    s
}

impl<C> Matrix<C> {
    /// The common path of the two reachability searches: evaluate the
    /// predicate over the grid, run the worklist search, and collect
    /// the result into an ordered set.
    fn reachable_impl<P: Fn((usize, usize)) -> bool>(
        &self,
        start: (usize, usize),
        diagonals: bool,
        predicate: P,
        depth_first: bool,
    ) -> (r: BTreeSet<(usize, usize)>)
        requires
            self.wf(),
            forall|c: (usize, usize)|
                self.in_bounds(c.0 as int, c.1 as int) ==> #[trigger] call_requires(
                    predicate,
                    (c,),
                ),
        ensures
            forall|g: spec_fn((usize, usize)) -> bool|
                (forall|c: (usize, usize), b: bool|
                    self.in_bounds(c.0 as int, c.1 as int) && #[trigger] call_ensures(
                        predicate,
                        (c,),
                        b,
                    ) ==> b == g(c)) ==> r@ == #[trigger] self.reach_set(start, diagonals, g),
    {
        let mut allowed: Vec<bool> = Vec::new();
        let mut rr: usize = 0;
        while rr < self.rows
            invariant
                self.wf(),
                0 <= rr <= self.rows,
                allowed@.len() == rr * self.columns,
                forall|c: (usize, usize)|
                    self.in_bounds(c.0 as int, c.1 as int) ==> #[trigger] call_requires(
                        predicate,
                        (c,),
                    ),
                forall|a: int, b2: int|
                    0 <= a < rr && 0 <= b2 < self.columns ==> call_ensures(
                        predicate,
                        (((a as usize, b2 as usize)),),
                        #[trigger] allowed@[a * self.columns + b2],
                    ),
            decreases self.rows - rr,
        {
            let mut cc: usize = 0;
            while cc < self.columns
                invariant
                    self.wf(),
                    0 <= rr < self.rows,
                    0 <= cc <= self.columns,
                    allowed@.len() == rr * self.columns + cc,
                    forall|c: (usize, usize)|
                        self.in_bounds(c.0 as int, c.1 as int) ==> #[trigger] call_requires(
                            predicate,
                            (c,),
                        ),
                    forall|a: int, b2: int|
                        0 <= a < rr && 0 <= b2 < self.columns ==> call_ensures(
                            predicate,
                            (((a as usize, b2 as usize)),),
                            #[trigger] allowed@[a * self.columns + b2],
                        ),
                    forall|b2: int|
                        0 <= b2 < cc ==> call_ensures(
                            predicate,
                            (((rr, b2 as usize)),),
                            #[trigger] allowed@[rr as int * self.columns + b2],
                        ),
                decreases self.columns - cc,
            {
                let b = predicate((rr, cc));
                allowed.push(b);
                proof {
                    lemma_row_major_bound(rr as int, cc as int, rr as int + 1, self.columns as int);
                    assert forall|a: int, b2: int|
                        0 <= a < rr && 0 <= b2 < self.columns implies call_ensures(
                        predicate,
                        (((a as usize, b2 as usize)),),
                        #[trigger] allowed@[a * self.columns + b2],
                    ) by {
                        lemma_row_major_bound(a, b2, rr as int, self.columns as int);
                    }
                }
                cc = cc + 1;
            }
            proof {
                crate::matrix::lemma_mul_succ_row(rr as int, self.columns as int);
            }
            rr = rr + 1;
        }
        let core = self.reach_core(start, diagonals, &allowed, depth_first);
        let r = to_btree_set(&core);
        proof {
            let mp = mask_pred(self.columns as int, allowed@);
            assert forall|g: spec_fn((usize, usize)) -> bool|
                (forall|c: (usize, usize), b: bool|
                    self.in_bounds(c.0 as int, c.1 as int) && #[trigger] call_ensures(
                        predicate,
                        (c,),
                        b,
                    ) ==> b == g(c)) implies r@ == #[trigger] self.reach_set(
                start,
                diagonals,
                g,
            ) by {
                assert forall|p: (usize, usize)|
                    self.in_bounds(p.0 as int, p.1 as int) implies #[trigger] mp(p) == g(p) by {
                    lemma_row_major_bound(
                        p.0 as int,
                        p.1 as int,
                        self.rows as int,
                        self.columns as int,
                    );
                    assert(call_ensures(
                        predicate,
                        (p,),
                        allowed@[p.0 as int * self.columns + p.1],
                    ));
                }
                assert(r@ =~= self.reach_set(start, diagonals, g)) by {
                    assert forall|p: (usize, usize)| #[trigger]
                        r@.contains(p) implies self.reach_set(start, diagonals, g).contains(p) by {
                        assert(self.reach_set(start, diagonals, mp).contains(p));
                        let n = choose|n: nat| self.reaches_in(start, diagonals, mp, p, n);
                        self.lemma_reach_pred_agree(start, diagonals, mp, g, p, n);
                        assert(self.reaches_in(start, diagonals, g, p, n));
                    }
                    assert forall|p: (usize, usize)| #[trigger]
                        self.reach_set(start, diagonals, g).contains(p) implies r@.contains(p) by {
                        let n = choose|n: nat| self.reaches_in(start, diagonals, g, p, n);
                        self.lemma_reach_pred_agree(start, diagonals, g, mp, p, n);
                        assert(self.reaches_in(start, diagonals, mp, p, n));
                        assert(self.reach_set(start, diagonals, mp).contains(p));
                    }
                }
            }
        }
        r
    }

    /// Return the set of cells reachable from `start` through
    /// neighbours (with or without diagonals) admitted by `predicate`,
    /// searched breadth-first. The start itself is always part of the
    /// set. For any predicate the closure decides — one whose result
    /// depends on its argument alone — the set is exactly the
    /// [`reach_set`](Matrix::reach_set) of that decision.
    ///
    /// # See also
    ///
    /// [`dfs_reachable`](Self::dfs_reachable) performs a depth-first
    /// search instead, and returns the same set.
    pub fn bfs_reachable<P: Fn((usize, usize)) -> bool>(
        &self,
        start: (usize, usize),
        diagonals: bool,
        predicate: P,
    ) -> (r: BTreeSet<(usize, usize)>)
        requires
            self.wf(),
            forall|c: (usize, usize)|
                self.in_bounds(c.0 as int, c.1 as int) ==> #[trigger] call_requires(
                    predicate,
                    (c,),
                ),
        ensures
            forall|g: spec_fn((usize, usize)) -> bool|
                (forall|c: (usize, usize), b: bool|
                    self.in_bounds(c.0 as int, c.1 as int) && #[trigger] call_ensures(
                        predicate,
                        (c,),
                        b,
                    ) ==> b == g(c)) ==> r@ == #[trigger] self.reach_set(start, diagonals, g),
    {
        self.reachable_impl(start, diagonals, predicate, false)
    }

    /// Return the set of cells reachable from `start` through
    /// neighbours (with or without diagonals) admitted by `predicate`,
    /// searched depth-first. The start itself is always part of the
    /// set. For any predicate the closure decides, the set is exactly
    /// the [`reach_set`](Matrix::reach_set) of that decision: only the
    /// discovery order differs from the breadth-first search.
    ///
    /// # See also
    ///
    /// [`bfs_reachable`](Self::bfs_reachable) performs a breadth-first
    /// search instead, and returns the same set.
    pub fn dfs_reachable<P: Fn((usize, usize)) -> bool>(
        &self,
        start: (usize, usize),
        diagonals: bool,
        predicate: P,
    ) -> (r: BTreeSet<(usize, usize)>)
        requires
            self.wf(),
            forall|c: (usize, usize)|
                self.in_bounds(c.0 as int, c.1 as int) ==> #[trigger] call_requires(
                    predicate,
                    (c,),
                ),
        ensures
            forall|g: spec_fn((usize, usize)) -> bool|
                (forall|c: (usize, usize), b: bool|
                    self.in_bounds(c.0 as int, c.1 as int) && #[trigger] call_ensures(
                        predicate,
                        (c,),
                        b,
                    ) ==> b == g(c)) ==> r@ == #[trigger] self.reach_set(start, diagonals, g),
    {
        self.reachable_impl(start, diagonals, predicate, true)
    }

    /// Former name of [`bfs_reachable`](Self::bfs_reachable), kept as a
    /// thin forwarding function for callers of the old interface.
    pub fn reachable<P: Fn((usize, usize)) -> bool>(
        &self,
        start: (usize, usize),
        diagonals: bool,
        predicate: P,
    ) -> (r: BTreeSet<(usize, usize)>)
        requires
            self.wf(),
            forall|c: (usize, usize)|
                self.in_bounds(c.0 as int, c.1 as int) ==> #[trigger] call_requires(
                    predicate,
                    (c,),
                ),
        ensures
            forall|g: spec_fn((usize, usize)) -> bool|
                (forall|c: (usize, usize), b: bool|
                    self.in_bounds(c.0 as int, c.1 as int) && #[trigger] call_ensures(
                        predicate,
                        (c,),
                        b,
                    ) ==> b == g(c)) ==> r@ == #[trigger] self.reach_set(start, diagonals, g),
    {
        self.bfs_reachable(start, diagonals, predicate)
    }
}

/// Reachability does not depend on the order of the search: any two
/// sets that both satisfy the contracts of
/// [`Matrix::bfs_reachable`] and [`Matrix::dfs_reachable`] for the same
/// start, connectivity mode and decided predicate are the set of
/// reachable cells, and so are equal.
pub proof fn lemma_reachable_order_independent<C>(
    m: &Matrix<C>,
    start: (usize, usize),
    diagonals: bool,
    pred: spec_fn((usize, usize)) -> bool,
    bfs_result: Set<(usize, usize)>,
    dfs_result: Set<(usize, usize)>,
)
    requires
        bfs_result == m.reach_set(start, diagonals, pred),
        dfs_result == m.reach_set(start, diagonals, pred),
    ensures
        bfs_result == dfs_result,
{
}

/// Membership after a push: the pushed element, or an element that was
/// already there.
proof fn lemma_contains_push(s: Seq<(usize, usize)>, x: (usize, usize), y: (usize, usize))
    ensures
        s.push(x).contains(y) <==> s.contains(y) || x == y,
{
    if s.contains(y) {
        let k = choose|k: int| 0 <= k < s.len() && s[k] == y;
        assert(s.push(x)[k] == y);
    }
    if x == y {
        assert(s.push(x)[s.len() as int] == y);
    }
    if s.push(x).contains(y) {
        let k = choose|k: int| 0 <= k < s.push(x).len() && s.push(x)[k] == y;
        if k < s.len() {
            assert(s[k] == y);
        }
    }
}

} // verus!
