//! The path search engine: an exhaustive, worklist-driven traversal over all
//! simple paths from the start position, tracking the shortest completed path
//! to the target.

use vstd::prelude::*;

use crate::grid::{path_contains, spec_adjacent, Maze, Pos};

verus! {

/// One pending record of the search frontier: a position to examine paired
/// with the path walked to reach it.
pub struct FrontierEntry {
    pub pos: Pos,
    pub path: Vec<Pos>,
}

/// A route from `start` to the target of `m`: a non-empty sequence of
/// in-bounds positions that begins at `start`, ends at the target, repeats no
/// position, steps only between orthogonally adjacent cells, and crosses only
/// open cells past its first position.
///
/// The first position is exempt from the openness demand because the search
/// never inspects the cell under the start position itself.
pub open spec fn is_route(m: Maze, start: Pos, sol: Seq<Pos>) -> bool {
    &&& sol.len() > 0
    &&& sol[0] == start
    &&& sol.last() == m.target
    &&& sol.no_duplicates()
    &&& forall|i: int| 0 <= i < sol.len() ==> m.in_bounds(#[trigger] sol[i])
    &&& forall|i: int| 1 <= i < sol.len() ==> m.is_open(#[trigger] sol[i])
    &&& forall|i: int| 0 <= i < sol.len() - 1 ==> spec_adjacent(#[trigger] sol[i], sol[i + 1])
}

/// The shape every partial path on the frontier keeps: duplicate-free,
/// in-bounds, open past its first position, chained by adjacency, starting at
/// `start`, and never through the target.
pub open spec fn path_inv(m: Maze, start: Pos, path: Seq<Pos>) -> bool {
    &&& path.no_duplicates()
    &&& !path.contains(m.target)
    &&& path.len() > 0 ==> path[0] == start
    &&& forall|i: int| 0 <= i < path.len() ==> m.in_bounds(#[trigger] path[i])
    &&& forall|i: int| 1 <= i < path.len() ==> m.is_open(#[trigger] path[i])
    &&& forall|i: int| 0 <= i < path.len() - 1 ==> spec_adjacent(#[trigger] path[i], path[i + 1])
    &&& path.len() <= m.size * m.size
}

/// The invariant of a frontier record: its path keeps `path_inv`, and its
/// position either is the start (for the initial record) or is an open cell
/// adjacent to the end of its path.
pub open spec fn entry_inv(m: Maze, start: Pos, e: FrontierEntry) -> bool {
    &&& path_inv(m, start, e.path@)
    &&& m.in_bounds(e.pos)
    &&& e.path@.len() == 0 ==> e.pos == start
    &&& e.path@.len() > 0 ==> spec_adjacent(e.path@.last(), e.pos) && m.is_open(e.pos)
}

/// The pair `(path, p)` still leads toward the route `sol`: walking `path`
/// and then stepping on `p` retraces a prefix of `sol`.
pub open spec fn extends_toward(path: Seq<Pos>, p: Pos, sol: Seq<Pos>) -> bool {
    &&& path.len() + 1 <= sol.len()
    &&& sol.take(path.len() + 1 as int) == path.push(p)
}

/// Some pending frontier record still leads toward the route `sol`.
pub open spec fn frontier_covers(fr: Seq<FrontierEntry>, sol: Seq<Pos>) -> bool {
    exists|i: int| 0 <= i < fr.len() && extends_toward((#[trigger] fr[i]).path@, fr[i].pos, sol)
}

/// The best path found so far is no longer than the route `sol`.
pub open spec fn best_covers(best: Option<Vec<Pos>>, sol: Seq<Pos>) -> bool {
    best matches Some(b) && b@.len() <= sol.len()
}

/// What the search returns: the shortest route when one exists — no route is
/// shorter than the returned path — and nothing exactly when no route exists.
pub open spec fn solve_post(m: Maze, start: Pos, r: Option<Vec<Pos>>) -> bool {
    match r {
        Some(best) => is_route(m, start, best@) && (forall|sol: Seq<Pos>|
            #[trigger] is_route(m, start, sol) ==> best@.len() <= sol.len()),
        None => forall|sol: Seq<Pos>| !is_route(m, start, sol),
    }
}

/// The central invariant of the search: every route is accounted for, either
/// by the best path found so far being at least as short, or by a pending
/// frontier record that still leads toward it.
pub open spec fn search_cover(
    m: Maze,
    start: Pos,
    fr: Seq<FrontierEntry>,
    best: Option<Vec<Pos>>,
) -> bool {
    forall|sol: Seq<Pos>|
        #[trigger] is_route(m, start, sol) ==> best_covers(best, sol) || frontier_covers(fr, sol)
}

/// The coverage carried through an expansion: every route is accounted for
/// by the best path, by a pending record, or by a neighbor of the examined
/// position that is not yet pushed (one of the first `i` of `nbrs`).
pub open spec fn pending_cover(
    m: Maze,
    start: Pos,
    fr: Seq<FrontierEntry>,
    best: Option<Vec<Pos>>,
    newpath: Seq<Pos>,
    nbrs: Seq<Pos>,
    i: int,
) -> bool {
    forall|sol: Seq<Pos>|
        #[trigger] is_route(m, start, sol) ==> best_covers(best, sol) || frontier_covers(fr, sol)
            || (exists|j: int| 0 <= j < i && extends_toward(newpath, #[trigger] nbrs[j], sol))
}

/// Five to the power `n`; the base of the frontier's termination measure.
pub open spec fn pow5(n: nat) -> nat
    decreases n,
{
    if n == 0 {
        1
    } else {
        5 * pow5((n - 1) as nat)
    }
}

proof fn lemma_pow5_pos(n: nat)
    ensures
        pow5(n) >= 1,
    decreases n,
{
    if n > 0 {
        lemma_pow5_pos((n - 1) as nat);
    }
}

/// The termination weight of a frontier record whose path has length `len`:
/// shorter paths have exponentially more search left under them.
pub open spec fn weight_for(len: nat, cap: nat) -> nat {
    pow5((cap - len) as nat)
}

pub open spec fn entry_weight(e: FrontierEntry, cap: nat) -> nat {
    weight_for(e.path@.len(), cap)
}

/// The termination measure of the whole frontier: the sum of its records'
/// weights.
pub open spec fn frontier_measure(fr: Seq<FrontierEntry>, cap: nat) -> nat
    decreases fr.len(),
{
    if fr.len() == 0 {
        0
    } else {
        frontier_measure(fr.drop_last(), cap) + entry_weight(fr.last(), cap)
    }
}

proof fn lemma_measure_push(fr: Seq<FrontierEntry>, e: FrontierEntry, cap: nat)
    ensures
        frontier_measure(fr.push(e), cap) == frontier_measure(fr, cap) + entry_weight(e, cap),
{
    assert(fr.push(e).drop_last() =~= fr);
    assert(fr.push(e).last() == e);
}

/// A duplicate-free sequence of in-bounds positions cannot be longer than
/// the number of cells of the grid.
proof fn lemma_distinct_in_bounds_len(m: Maze, s: Seq<Pos>)
    requires
        m.well_formed(),
        s.no_duplicates(),
        forall|i: int| 0 <= i < s.len() ==> m.in_bounds(#[trigger] s[i]),
    ensures
        s.len() <= m.size * m.size,
{
    let n = m.size as int;
    let f = |p: Pos| p.y * n + p.x;
    let t = s.map_values(f);
    assert forall|i: int, j: int| 0 <= i < t.len() && 0 <= j < t.len() && i != j implies t[i]
        != t[j] by {
        assert(s[i] != s[j]);
        assert(m.in_bounds(s[i]) && m.in_bounds(s[j]));
        assert(s[i].y * n + s[i].x != s[j].y * n + s[j].x) by (nonlinear_arith)
            requires
                0 <= s[i].x < n,
                0 <= s[j].x < n,
                0 <= s[i].y < n,
                0 <= s[j].y < n,
                s[i] != s[j],
        ;
    }
    assert(t.no_duplicates());
    t.unique_seq_to_set();
    let range = vstd::set_lib::set_int_range(0, n * n);
    vstd::set_lib::lemma_int_range(0, n * n);
    assert forall|v: int| t.to_set().contains(v) implies range.contains(v) by {
        let i = choose|i: int| 0 <= i < t.len() && t[i] == v;
        assert(m.in_bounds(s[i]));
        assert(0 <= s[i].y * n + s[i].x < n * n) by (nonlinear_arith)
            requires
                0 <= s[i].x < n,
                0 <= s[i].y < n,
        ;
    }
    vstd::set_lib::lemma_len_subset(t.to_set(), range);
}

/// Extending a frontier path by its examined position keeps the path shape,
/// provided that position is new, is not the target, and either starts the
/// path or continues it through an open adjacent cell.
proof fn lemma_push_path(m: Maze, start: Pos, e: FrontierEntry)
    requires
        m.well_formed(),
        entry_inv(m, start, e),
        !e.path@.contains(e.pos),
        e.pos != m.target,
    ensures
        path_inv(m, start, e.path@.push(e.pos)),
        e.path@.push(e.pos).len() > 0,
        e.path@.push(e.pos)[0] == start,
        e.path@.push(e.pos).last() == e.pos,
{
    broadcast use vstd::seq_lib::group_seq_properties;

    let path = e.path@;
    let np = path.push(e.pos);
    assert forall|i: int, j: int| 0 <= i < np.len() && 0 <= j < np.len() && i != j implies np[i]
        != np[j] by {
        if i < path.len() && j < path.len() {
            assert(path[i] != path[j]);
        } else if j == path.len() && i < path.len() {
            assert(!path.contains(e.pos));
            assert(path[i] == np[i]);
        } else {
            assert(!path.contains(e.pos));
            assert(path[j] == np[j]);
        }
    }
    assert(np.no_duplicates());
    assert(!np.contains(m.target)) by {
        if np.contains(m.target) {
            let i = choose|i: int| 0 <= i < np.len() && np[i] == m.target;
            assert(i < path.len() ==> path.contains(m.target));
        }
    }
    lemma_distinct_in_bounds_len(m, np);
}

/// A route prefix that has reached the target is the whole route: the target
/// occurs in a route only at its end.
proof fn lemma_prefix_at_target_is_whole(
    m: Maze,
    start: Pos,
    path: Seq<Pos>,
    p: Pos,
    sol: Seq<Pos>,
)
    requires
        is_route(m, start, sol),
        p == m.target,
        extends_toward(path, p, sol),
    ensures
        sol == path.push(p),
{
    let k = path.len() + 1;
    assert(sol.take(k as int)[k - 1] == path.push(p)[k - 1]);
    assert(sol[k - 1] == p);
    if k < sol.len() {
        assert(sol[k - 1] == sol[sol.len() - 1]);
        assert(false);
    }
    assert(sol.take(k as int) =~= sol);
}

/// A completed frontier record forms a route when its position is the target.
proof fn lemma_candidate_is_route(m: Maze, start: Pos, e: FrontierEntry)
    requires
        m.well_formed(),
        entry_inv(m, start, e),
        e.pos == m.target,
    ensures
        is_route(m, start, e.path@.push(e.pos)),
{
    broadcast use vstd::seq_lib::group_seq_properties;

    let path = e.path@;
    let np = path.push(e.pos);
    assert(!path.contains(e.pos));
    assert forall|i: int, j: int| 0 <= i < np.len() && 0 <= j < np.len() && i != j implies np[i]
        != np[j] by {
        if i < path.len() && j < path.len() {
            assert(path[i] != path[j]);
        } else if j == path.len() && i < path.len() {
            assert(path[i] == np[i]);
        } else if i == path.len() && j < path.len() {
            assert(path[j] == np[j]);
        }
    }
    assert(np.no_duplicates());
}

/// The coverage invariant holds of the initial frontier: the sole record,
/// the start with the empty path, leads toward every route.
proof fn lemma_cover_init(m: Maze, start: Pos, fr: Seq<FrontierEntry>)
    requires
        fr.len() == 1,
        fr[0].pos == start,
        fr[0].path@.len() == 0,
    ensures
        search_cover(m, start, fr, None),
{
    assert forall|sol: Seq<Pos>| #[trigger] is_route(m, start, sol) implies best_covers(
        None,
        sol,
    ) || frontier_covers(fr, sol) by {
        assert(sol.take(1) =~= fr[0].path@.push(start));
        assert(extends_toward(fr[0].path@, fr[0].pos, sol));
    }
}

/// Popping a record whose position is the target keeps the coverage, as long
/// as the best path afterwards is no longer than the completed candidate and
/// no longer than the best path before.
proof fn lemma_cover_after_target(
    m: Maze,
    start: Pos,
    fr0: Seq<FrontierEntry>,
    best0: Option<Vec<Pos>>,
    best: Option<Vec<Pos>>,
)
    requires
        fr0.len() > 0,
        fr0.last().pos == m.target,
        search_cover(m, start, fr0, best0),
        best is Some,
        best matches Some(b) ==> b@.len() <= fr0.last().path@.len() + 1,
        best0 matches Some(b0) ==> (best matches Some(b) && b@.len() <= b0@.len()),
    ensures
        search_cover(m, start, fr0.drop_last(), best),
{
    let e0 = fr0.last();
    let rest = fr0.drop_last();
    assert forall|sol: Seq<Pos>| #[trigger] is_route(m, start, sol) implies best_covers(best, sol)
        || frontier_covers(rest, sol) by {
        assert(best_covers(best0, sol) || frontier_covers(fr0, sol));
        if best_covers(best0, sol) {
            assert(best_covers(best, sol));
        } else {
            let k = choose|k: int|
                0 <= k < fr0.len() && extends_toward((#[trigger] fr0[k]).path@, fr0[k].pos, sol);
            if k == fr0.len() - 1 {
                lemma_prefix_at_target_is_whole(m, start, e0.path@, e0.pos, sol);
                assert(sol.len() == e0.path@.len() + 1);
                assert(best_covers(best, sol));
            } else {
                assert(rest[k] == fr0[k]);
                assert(frontier_covers(rest, sol));
            }
        }
    }
}

/// Popping a record whose position repeats inside its own path keeps the
/// coverage: such a record leads toward no route.
proof fn lemma_cover_after_discard(
    m: Maze,
    start: Pos,
    fr0: Seq<FrontierEntry>,
    best: Option<Vec<Pos>>,
)
    requires
        fr0.len() > 0,
        fr0.last().path@.contains(fr0.last().pos),
        search_cover(m, start, fr0, best),
    ensures
        search_cover(m, start, fr0.drop_last(), best),
{
    let e0 = fr0.last();
    let rest = fr0.drop_last();
    assert forall|sol: Seq<Pos>| #[trigger] is_route(m, start, sol) implies best_covers(best, sol)
        || frontier_covers(rest, sol) by {
        assert(best_covers(best, sol) || frontier_covers(fr0, sol));
        if !best_covers(best, sol) {
            let k = choose|k: int|
                0 <= k < fr0.len() && extends_toward((#[trigger] fr0[k]).path@, fr0[k].pos, sol);
            if k == fr0.len() - 1 {
                let path = e0.path@;
                let pre = sol.take(path.len() + 1 as int);
                let j = choose|j: int| 0 <= j < path.len() && path[j] == e0.pos;
                assert(pre[j] == path[j]);
                assert(pre[path.len() as int] == e0.pos);
                assert(sol[j] == sol[path.len() as int]);
                assert(false);
            } else {
                assert(rest[k] == fr0[k]);
                assert(frontier_covers(rest, sol));
            }
        }
    }
}

/// Popping a record for expansion keeps the coverage in its pending form:
/// a route the record led toward continues through one of the open neighbors
/// of the record's position.
proof fn lemma_cover_expand_start(
    m: Maze,
    start: Pos,
    fr0: Seq<FrontierEntry>,
    best: Option<Vec<Pos>>,
    nbrs: Seq<Pos>,
)
    requires
        fr0.len() > 0,
        fr0.last().pos != m.target,
        search_cover(m, start, fr0, best),
        forall|q: Pos| nbrs.contains(q) <==> (spec_adjacent(fr0.last().pos, q) && m.is_open(q)),
    ensures
        pending_cover(
            m,
            start,
            fr0.drop_last(),
            best,
            fr0.last().path@.push(fr0.last().pos),
            nbrs,
            nbrs.len() as int,
        ),
{
    let e0 = fr0.last();
    let rest = fr0.drop_last();
    let path = e0.path@;
    let np = path.push(e0.pos);
    assert forall|sol: Seq<Pos>| #[trigger] is_route(m, start, sol) implies best_covers(best, sol)
        || frontier_covers(rest, sol) || (exists|j: int|
        0 <= j < nbrs.len() && extends_toward(np, #[trigger] nbrs[j], sol)) by {
        assert(best_covers(best, sol) || frontier_covers(fr0, sol));
        if !best_covers(best, sol) {
            let k = choose|k: int|
                0 <= k < fr0.len() && extends_toward((#[trigger] fr0[k]).path@, fr0[k].pos, sol);
            if k == fr0.len() - 1 {
                let kk = path.len() + 1 as int;
                assert(sol.take(kk) == np);
                if kk == sol.len() {
                    assert(sol.take(kk) =~= sol);
                    assert(sol.last() == e0.pos);
                    assert(false);
                }
                let nxt = sol[kk];
                assert(sol.take(kk)[kk - 1] == np[kk - 1]);
                assert(sol[kk - 1] == e0.pos);
                assert(spec_adjacent(sol[kk - 1], sol[kk]));
                assert(m.is_open(nxt));
                assert(nbrs.contains(nxt));
                let j = choose|j: int| 0 <= j < nbrs.len() && nbrs[j] == nxt;
                assert(sol.take(kk + 1) =~= sol.take(kk).push(nxt));
                assert(extends_toward(np, nbrs[j], sol));
            } else {
                assert(rest[k] == fr0[k]);
                assert(frontier_covers(rest, sol));
            }
        }
    }
}

/// Pushing the next neighbor's record moves its coverage from the pending
/// form to the frontier itself.
proof fn lemma_cover_push_child(
    m: Maze,
    start: Pos,
    fr: Seq<FrontierEntry>,
    best: Option<Vec<Pos>>,
    newpath: Seq<Pos>,
    nbrs: Seq<Pos>,
    i: int,
    child: FrontierEntry,
)
    requires
        pending_cover(m, start, fr, best, newpath, nbrs, i),
        1 <= i <= nbrs.len(),
        child.path@ == newpath,
        child.pos == nbrs[i - 1],
    ensures
        pending_cover(m, start, fr.push(child), best, newpath, nbrs, i - 1),
{
    let frp = fr.push(child);
    assert forall|sol: Seq<Pos>| #[trigger] is_route(m, start, sol) implies best_covers(best, sol)
        || frontier_covers(frp, sol) || (exists|j: int|
        0 <= j < i - 1 && extends_toward(newpath, #[trigger] nbrs[j], sol)) by {
        if !best_covers(best, sol) {
            if frontier_covers(fr, sol) {
                let k = choose|k: int|
                    0 <= k < fr.len() && extends_toward((#[trigger] fr[k]).path@, fr[k].pos, sol);
                assert(frp[k] == fr[k]);
                assert(frontier_covers(frp, sol));
            } else if exists|j: int| 0 <= j < i && extends_toward(newpath, #[trigger] nbrs[j], sol) {
                let j = choose|j: int|
                    0 <= j < i && extends_toward(newpath, #[trigger] nbrs[j], sol);
                if j == i - 1 {
                    assert(frp[frp.len() - 1] == child);
                    assert(extends_toward(child.path@, child.pos, sol));
                    assert(frontier_covers(frp, sol));
                }
            }
        }
    }
}

/// Once every neighbor's record is pushed, the pending form collapses back
/// into the plain coverage invariant.
proof fn lemma_cover_expand_done(
    m: Maze,
    start: Pos,
    fr: Seq<FrontierEntry>,
    best: Option<Vec<Pos>>,
    newpath: Seq<Pos>,
    nbrs: Seq<Pos>,
)
    requires
        pending_cover(m, start, fr, best, newpath, nbrs, 0),
    ensures
        search_cover(m, start, fr, best),
{
}

/// Returns a copy of a path, element for element.
fn copy_path(v: &Vec<Pos>) -> (r: Vec<Pos>)
    ensures
        r@ == v@,
{
    let mut r: Vec<Pos> = Vec::new();
    let mut i: usize = 0;
    while i < v.len()
        invariant
            i <= v@.len(),
            r@ =~= v@.take(i as int),
        decreases v@.len() - i,
    {
        r.push(v[i]);
        i = i + 1;
    }
    proof {
        assert(v@.take(v@.len() as int) =~= v@);
    }
    r
}

impl Maze {
    /// Searches exhaustively over all simple paths from `start` for the
    /// shortest route to the target.
    ///
    /// The frontier is kept as explicit heap data, with the head at the end
    /// of the vector, so the traversal is depth-first — the open neighbors of
    /// the examined position are explored, in the order left, right, up,
    /// down, before the records already pending — and never grows the call
    /// stack. A completed path replaces the best one found so far only when
    /// it is strictly shorter, and the search goes on until the frontier is
    /// exhausted.
    ///
    /// Returns the shortest route when one exists, and `None` exactly when
    /// no route exists.
    pub fn solve(&self, start: Pos) -> (r: Option<Vec<Pos>>)
        requires
            self.well_formed(),
            self.in_bounds(start),
        ensures
            solve_post(*self, start, r),
    {
        let ghost m = *self;
        let ghost cap = (m.size * m.size + 1) as nat;
        let mut frontier: Vec<FrontierEntry> = Vec::new();
        frontier.push(FrontierEntry { pos: start, path: Vec::new() });
        let mut best: Option<Vec<Pos>> = None;
        proof {
            lemma_cover_init(m, start, frontier@);
        }
        while frontier.len() > 0
            invariant
                m == *self,
                m.well_formed(),
                m.in_bounds(start),
                cap == (m.size * m.size + 1) as nat,
                forall|k: int|
                    0 <= k < frontier@.len() ==> entry_inv(m, start, #[trigger] frontier@[k]),
                best matches Some(b) ==> is_route(m, start, b@),
                search_cover(m, start, frontier@, best),
            decreases frontier_measure(frontier@, cap),
        {
            let ghost fr0 = frontier@;
            let ghost best0 = best;
            let e = frontier.pop().unwrap();
            let ghost e0 = e;
            proof {
                assert(entry_inv(m, start, e0));
                assert(frontier@ =~= fr0.drop_last());
                assert(frontier_measure(fr0, cap) == frontier_measure(frontier@, cap)
                    + entry_weight(e0, cap));
                lemma_pow5_pos((cap - e0.path@.len()) as nat);
            }
            let FrontierEntry { pos: p, path } = e;
            if p == self.target {
                let mut cand = path;
                cand.push(p);
                proof {
                    lemma_candidate_is_route(m, start, e0);
                    assert(cand@ == e0.path@.push(e0.pos));
                }
                let better = match &best {
                    None => true,
                    Some(b) => cand.len() < b.len(),
                };
                if better {
                    best = Some(cand);
                }
                proof {
                    lemma_cover_after_target(m, start, fr0, best0, best);
                }
            } else if path_contains(&path, &p) {
                proof {
                    lemma_cover_after_discard(m, start, fr0, best);
                }
            } else {
                let nbrs = p.next(self);
                let mut newpath = path;
                newpath.push(p);
                proof {
                    lemma_push_path(m, start, e0);
                    assert(newpath@ == e0.path@.push(e0.pos));
                    lemma_cover_expand_start(m, start, fr0, best, nbrs@);
                }
                let ghost rest = frontier@;
                let ghost wc = weight_for(newpath@.len(), cap);
                proof {
                    assert(entry_weight(e0, cap) == 5 * wc);
                    lemma_pow5_pos((cap - newpath@.len()) as nat);
                }
                let mut i = nbrs.len();
                while i > 0
                    invariant
                        m.well_formed(),
                        i <= nbrs@.len(),
                        nbrs@.len() <= 4,
                        forall|q: Pos| #[trigger] nbrs@.contains(q) ==> (spec_adjacent(
                            newpath@.last(),
                            q,
                        ) && m.is_open(q)),
                        path_inv(m, start, newpath@),
                        newpath@.len() > 0,
                        frontier@.len() == rest.len() + (nbrs@.len() - i),
                        forall|k: int|
                            0 <= k < frontier@.len() ==> entry_inv(
                                m,
                                start,
                                #[trigger] frontier@[k],
                            ),
                        best matches Some(b) ==> is_route(m, start, b@),
                        wc == weight_for(newpath@.len(), cap),
                        frontier_measure(frontier@, cap) == frontier_measure(rest, cap) + (
                        nbrs@.len() - i) * wc,
                        pending_cover(m, start, frontier@, best, newpath@, nbrs@, i as int),
                    decreases i,
                {
                    i = i - 1;
                    let ghost frbefore = frontier@;
                    let q: Pos = nbrs[i];
                    let child_path = copy_path(&newpath);
                    let child = FrontierEntry { pos: q, path: child_path };
                    proof {
                        assert(nbrs@.contains(q));
                        assert(entry_inv(m, start, child));
                        lemma_measure_push(frbefore, child, cap);
                        lemma_cover_push_child(
                            m,
                            start,
                            frbefore,
                            best,
                            newpath@,
                            nbrs@,
                            i + 1 as int,
                            child,
                        );
                    }
                    frontier.push(child);
                    proof {
                        assert(entry_weight(child, cap) == wc);
                        assert((nbrs@.len() - i - 1) * wc + wc == (nbrs@.len() - i) * wc)
                            by (nonlinear_arith);
                    }
                }
                proof {
                    lemma_cover_expand_done(m, start, frontier@, best, newpath@, nbrs@);
                    assert((nbrs@.len() - 0) * wc <= 4 * wc) by (nonlinear_arith)
                        requires
                            nbrs@.len() <= 4,
                            wc >= 0,
                    ;
                    assert(frontier_measure(frontier@, cap) < frontier_measure(fr0, cap));
                }
            }
        }
        proof {
            assert forall|sol: Seq<Pos>| #[trigger] is_route(m, start, sol) implies best_covers(
                best,
                sol,
            ) by {
                assert(!frontier_covers(frontier@, sol));
            }
        }
        best
    }
}

/// When the start position is the target, the single-position path
/// `[start]` is a route, and it is the only route; the search therefore
/// returns exactly that path.
pub proof fn lemma_start_is_target(m: Maze, start: Pos, r: Option<Vec<Pos>>)
    requires
        m.in_bounds(start),
        start == m.target,
        solve_post(m, start, r),
    ensures
        r matches Some(best) && best@ == seq![start],
{
    let single = seq![start];
    assert(single.last() == start);
    assert(single.no_duplicates());
    assert(is_route(m, start, single));
    assert forall|sol: Seq<Pos>| #[trigger] is_route(m, start, sol) implies sol == single by {
        if sol.len() > 1 {
            assert(sol[0] == start);
            assert(sol[sol.len() - 1] == start);
            assert(false);
        }
        assert(sol =~= single);
    }
}

/// When no route connects the start to the target, the search returns the
/// explicit no-solution result, never a path.
pub proof fn lemma_unsolvable_returns_none(m: Maze, start: Pos, r: Option<Vec<Pos>>)
    requires
        solve_post(m, start, r),
        forall|sol: Seq<Pos>| !is_route(m, start, sol),
    ensures
        r is None,
{
}

/// The returned path is at most as long as every simple path from the start
/// to the target that the exhaustive search can discover — it has the true
/// shortest length.
pub proof fn lemma_returned_path_is_shortest(
    m: Maze,
    start: Pos,
    r: Option<Vec<Pos>>,
    sol: Seq<Pos>,
)
    requires
        solve_post(m, start, r),
        is_route(m, start, sol),
    ensures
        r matches Some(best) && best@.len() <= sol.len(),
{
}

/// When a solution exists, the search succeeds, and the returned path starts
/// at the start, ends at the target, repeats no position, steps only between
/// orthogonally adjacent cells, and crosses only open cells past its first
/// position; when the start cell itself is open, every position on the
/// returned path is open.
///
/// The start cell must be open for the last clause because the search never
/// inspects the cell under the start position: from a blocked start cell
/// with open neighbors it still explores outward.
pub proof fn lemma_solved_path_properties(m: Maze, start: Pos, r: Option<Vec<Pos>>, sol: Seq<Pos>)
    requires
        solve_post(m, start, r),
        is_route(m, start, sol),
    ensures
        r matches Some(best) && {
            let p = best@;
            &&& p.len() > 0
            &&& p[0] == start
            &&& p.last() == m.target
            &&& p.no_duplicates()
            &&& forall|i: int| 0 <= i < p.len() - 1 ==> spec_adjacent(#[trigger] p[i], p[i + 1])
            &&& forall|i: int| 1 <= i < p.len() ==> m.is_open(#[trigger] p[i])
            &&& (m.is_open(start) ==> forall|i: int|
                0 <= i < p.len() ==> m.is_open(#[trigger] p[i]))
        },
{
}

} // verus!
