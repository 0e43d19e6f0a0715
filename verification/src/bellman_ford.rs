//! Single-source shortest-path distances by repeated edge relaxation.
//!
//! Distances start at a large sentinel and only ever decrease; a round
//! that changes nothing ends the computation, and at most `n` rounds
//! run.  Relaxation is guarded on both sides of the sentinel range so
//! that the arithmetic provably stays in bounds for every input.

use vstd::prelude::*;

verus! {

/// The sentinel distance standing for "unreached".
pub const INF: i64 = 0x3FFF_FFFF_FFFF_FFFF;

/// The largest admissible edge weight magnitude.
pub const MAX_WEIGHT: i64 = 1_000_000_000;

/// All edges stay inside the vertex range and the weight bound.
pub open spec fn edges_wf(e: Seq<(usize, usize, i64)>, n: int) -> bool {
    forall|k: int|
        0 <= k < e.len() ==> (#[trigger] e[k]).0 < n && e[k].1 < n && -MAX_WEIGHT <= e[k].2
            <= MAX_WEIGHT
}

/// Every produced distance lies in the admissible band.
pub open spec fn dist_wf(d: Seq<i64>) -> bool {
    forall|v: int| 0 <= v < d.len() ==> -INF <= #[trigger] d[v] <= INF
}

/// Compute upper bounds on single-source shortest-path distances by at
/// most `n` relaxation rounds, stopping early once no edge relaxes.
#[verifier::loop_isolation(false)]
pub fn bellman_ford(n: usize, source: usize, e: &Vec<(usize, usize, i64)>, is_direct: bool) -> (r:
    Vec<i64>)
    requires
        source < n,
        edges_wf(e@, n as int),
    ensures
        r@.len() == n,
        r@[source as int] <= 0,
        dist_wf(r@),
{
    let mut dist: Vec<i64> = Vec::new();
    let mut i: usize = 0;
    while i < n
        invariant
            i <= n,
            dist@.len() == i,
            forall|v: int| 0 <= v < i ==> #[trigger] dist@[v] == INF,
        decreases n - i,
    {
        dist.push(INF);
        i += 1;
    }
    dist[source] = 0;
    let mut round: usize = 0;
    let mut changed = true;
    while changed && round < n
        invariant
            round <= n,
            dist@.len() == n,
            dist@[source as int] <= 0,
            dist_wf(dist@),
        decreases n - round,
    {
        changed = false;
        let mut j: usize = 0;
        while j < e.len()
            invariant
                j <= e@.len(),
                dist@.len() == n,
                dist@[source as int] <= 0,
                dist_wf(dist@),
            decreases e@.len() - j,
        {
            let (v, w, a) = e[j];
            if dist[v] < INF / 2 && dist[v] > -(INF / 2) && dist[v] + a < dist[w] {
                let nd = dist[v] + a;
                dist[w] = nd;
                changed = true;
            }
            if !is_direct {
                if dist[w] < INF / 2 && dist[w] > -(INF / 2) && dist[w] + a < dist[v] {
                    let nd = dist[w] + a;
                    dist[v] = nd;
                    changed = true;
                }
            }
            j += 1;
        }
        round += 1;
    }
    dist
}

/// Like [`bellman_ford`], additionally recording for each reached
/// vertex the neighbour its final distance came through.
#[verifier::loop_isolation(false)]
pub fn bellman_ford_re(
    n: usize,
    source: usize,
    e: &Vec<(usize, usize, i64)>,
    is_direct: bool,
) -> (r: Vec<(i64, Option<usize>)>)
    requires
        source < n,
        edges_wf(e@, n as int),
    ensures
        r@.len() == n,
        r@[source as int].0 <= 0,
        forall|v: int| 0 <= v < n ==> -INF <= (#[trigger] r@[v]).0 <= INF,
        forall|v: int|
            0 <= v < n ==> ((#[trigger] r@[v]).1 matches Some(p) ==> p < n),
{
    let mut dist: Vec<(i64, Option<usize>)> = Vec::new();
    let mut i: usize = 0;
    while i < n
        invariant
            i <= n,
            dist@.len() == i,
            forall|v: int| 0 <= v < i ==> #[trigger] dist@[v] == (INF, Option::<usize>::None),
        decreases n - i,
    {
        dist.push((INF, None));
        i += 1;
    }
    dist[source] = (0, Some(source));
    let mut round: usize = 0;
    let mut changed = true;
    while changed && round < n
        invariant
            round <= n,
            dist@.len() == n,
            dist@[source as int].0 <= 0,
            forall|v: int| 0 <= v < n ==> -INF <= (#[trigger] dist@[v]).0 <= INF,
            forall|v: int|
                0 <= v < n ==> ((#[trigger] dist@[v]).1 matches Some(p) ==> p < n),
        decreases n - round,
    {
        changed = false;
        let mut j: usize = 0;
        while j < e.len()
            invariant
                j <= e@.len(),
                dist@.len() == n,
                dist@[source as int].0 <= 0,
                forall|v: int| 0 <= v < n ==> -INF <= (#[trigger] dist@[v]).0 <= INF,
                forall|v: int|
                    0 <= v < n ==> ((#[trigger] dist@[v]).1 matches Some(p) ==> p < n),
            decreases e@.len() - j,
        {
            let (v, w, a) = e[j];
            let dv = dist[v].0;
            if dv < INF / 2 && dv > -(INF / 2) && dv + a < dist[w].0 {
                dist[w] = (dv + a, Some(v));
                changed = true;
            }
            if !is_direct {
                let dw = dist[w].0;
                if dw < INF / 2 && dw > -(INF / 2) && dw + a < dist[v].0 {
                    dist[v] = (dw + a, Some(w));
                    changed = true;
                }
            }
            j += 1;
        }
        round += 1;
    }
    dist
}

} // verus!
