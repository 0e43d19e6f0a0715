//! All-pairs shortest-path upper bounds by the triple relaxation loop
//! over an adjacency matrix, guarded on both sides of the sentinel
//! range so the arithmetic provably stays in bounds for every input.

use vstd::prelude::*;
use crate::bellman_ford::INF;
use crate::bellman_ford::edges_wf;

verus! {

/// All-pairs shortest-path upper bounds by the triple relaxation loop,
/// with the same two-sided sentinel guard.
#[verifier::loop_isolation(false)]
pub fn floyd_warshall(n: usize, e: &Vec<(usize, usize, i64)>, is_direct: bool) -> (r: Vec<Vec<i64>>)
    requires
        edges_wf(e@, n as int),
    ensures
        r@.len() == n,
        forall|u: int| 0 <= u < n ==> (#[trigger] r@[u])@.len() == n,
        forall|u: int| 0 <= u < n ==> (#[trigger] r@[u])@[u] <= 0,
        forall|u: int, w: int|
            0 <= u < n && 0 <= w < n ==> -INF <= #[trigger] (r@[u])@[w] <= INF,
{
    let mut dist: Vec<Vec<i64>> = Vec::new();
    let mut u: usize = 0;
    while u < n
        invariant
            u <= n,
            dist@.len() == u,
            forall|x: int| 0 <= x < u ==> (#[trigger] dist@[x])@.len() == n,
            forall|x: int| 0 <= x < u ==> (#[trigger] dist@[x])@[x] == 0,
            forall|x: int, y: int|
                0 <= x < u && 0 <= y < n ==> -INF <= #[trigger] (dist@[x])@[y] <= INF,
        decreases n - u,
    {
        let mut row: Vec<i64> = Vec::new();
        let mut w: usize = 0;
        while w < n
            invariant
                w <= n,
                row@.len() == w,
                forall|y: int| 0 <= y < w ==> -INF <= #[trigger] row@[y] <= INF,
                forall|y: int| 0 <= y < w ==> (y == u ==> row@[y] == 0),
            decreases n - w,
        {
            if w == u {
                row.push(0);
            } else {
                row.push(INF);
            }
            w += 1;
        }
        dist.push(row);
        u += 1;
    }
    let mut j: usize = 0;
    while j < e.len()
        invariant
            j <= e@.len(),
            dist@.len() == n,
            forall|x: int| 0 <= x < n ==> (#[trigger] dist@[x])@.len() == n,
            forall|x: int| 0 <= x < n ==> (#[trigger] dist@[x])@[x] <= 0,
            forall|x: int, y: int|
                0 <= x < n && 0 <= y < n ==> -INF <= #[trigger] (dist@[x])@[y] <= INF,
        decreases e@.len() - j,
    {
        let (v, w, a) = e[j];
        if a < dist[v][w] {
            dist[v][w] = a;
        }
        if !is_direct {
            if a < dist[w][v] {
                dist[w][v] = a;
            }
        }
        j += 1;
    }
    let mut v: usize = 0;
    while v < n
        invariant
            v <= n,
            dist@.len() == n,
            forall|x: int| 0 <= x < n ==> (#[trigger] dist@[x])@.len() == n,
            forall|x: int| 0 <= x < n ==> (#[trigger] dist@[x])@[x] <= 0,
            forall|x: int, y: int|
                0 <= x < n && 0 <= y < n ==> -INF <= #[trigger] (dist@[x])@[y] <= INF,
        decreases n - v,
    {
        let mut uu: usize = 0;
        while uu < n
            invariant
                uu <= n,
                v < n,
                dist@.len() == n,
                forall|x: int| 0 <= x < n ==> (#[trigger] dist@[x])@.len() == n,
                forall|x: int| 0 <= x < n ==> (#[trigger] dist@[x])@[x] <= 0,
                forall|x: int, y: int|
                    0 <= x < n && 0 <= y < n ==> -INF <= #[trigger] (dist@[x])@[y] <= INF,
            decreases n - uu,
        {
            let mut ww: usize = 0;
            while ww < n
                invariant
                    ww <= n,
                    v < n,
                    uu < n,
                    dist@.len() == n,
                    forall|x: int| 0 <= x < n ==> (#[trigger] dist@[x])@.len() == n,
                    forall|x: int| 0 <= x < n ==> (#[trigger] dist@[x])@[x] <= 0,
                    forall|x: int, y: int|
                        0 <= x < n && 0 <= y < n ==> -INF <= #[trigger] (dist@[x])@[y] <= INF,
                decreases n - ww,
            {
                let duv = dist[uu][v];
                let dvw = dist[v][ww];
                if duv > -(INF / 2) && dvw > -(INF / 2) && duv < INF / 2 && dvw < INF / 2 {
                    let cand = duv + dvw;
                    if cand < dist[uu][ww] {
                        dist[uu][ww] = cand;
                    }
                }
                ww += 1;
            }
            uu += 1;
        }
        v += 1;
    }
    dist
}


/// Like [`floyd_warshall`], additionally recording for each pair the
/// intermediate vertex its final distance went through.
#[verifier::loop_isolation(false)]
pub fn floyd_warshall_re(n: usize, e: &Vec<(usize, usize, i64)>, is_direct: bool) -> (r: Vec<
    Vec<(i64, Option<usize>)>,
>)
    requires
        edges_wf(e@, n as int),
    ensures
        r@.len() == n,
        forall|u: int| 0 <= u < n ==> (#[trigger] r@[u])@.len() == n,
        forall|u: int| 0 <= u < n ==> (#[trigger] r@[u])@[u].0 <= 0,
        forall|u: int, w: int|
            0 <= u < n && 0 <= w < n ==> -INF <= #[trigger] ((r@[u])@[w].0) <= INF,
        forall|u: int, w: int|
            0 <= u < n && 0 <= w < n ==> (#[trigger] ((r@[u])@[w].1) matches Some(p) ==> p < n),
{
    let mut dist: Vec<Vec<(i64, Option<usize>)>> = Vec::new();
    let mut u: usize = 0;
    while u < n
        invariant
            u <= n,
            dist@.len() == u,
            forall|x: int| 0 <= x < u ==> (#[trigger] dist@[x])@.len() == n,
            forall|x: int| 0 <= x < u ==> (#[trigger] dist@[x])@[x].0 <= 0,
            forall|x: int, y: int|
                0 <= x < u && 0 <= y < n ==> -INF <= #[trigger] ((dist@[x])@[y].0) <= INF,
            forall|x: int, y: int|
                0 <= x < u && 0 <= y < n ==> (#[trigger] ((dist@[x])@[y].1) matches Some(p) ==> p
                    < n),
        decreases n - u,
    {
        let mut row: Vec<(i64, Option<usize>)> = Vec::new();
        let mut w: usize = 0;
        while w < n
            invariant
                w <= n,
                u < n,
                row@.len() == w,
                forall|y: int| 0 <= y < w ==> -INF <= #[trigger] (row@[y].0) <= INF,
                forall|y: int| 0 <= y < w ==> (y == u ==> row@[y].0 == 0),
                forall|y: int| 0 <= y < w ==> (#[trigger] (row@[y].1) matches Some(p) ==> p < n),
            decreases n - w,
        {
            if w == u {
                row.push((0, Some(u)));
            } else {
                row.push((INF, None));
            }
            w += 1;
        }
        dist.push(row);
        u += 1;
    }
    let mut j: usize = 0;
    while j < e.len()
        invariant
            j <= e@.len(),
            dist@.len() == n,
            forall|x: int| 0 <= x < n ==> (#[trigger] dist@[x])@.len() == n,
            forall|x: int| 0 <= x < n ==> (#[trigger] dist@[x])@[x].0 <= 0,
            forall|x: int, y: int|
                0 <= x < n && 0 <= y < n ==> -INF <= #[trigger] ((dist@[x])@[y].0) <= INF,
            forall|x: int, y: int|
                0 <= x < n && 0 <= y < n ==> (#[trigger] ((dist@[x])@[y].1) matches Some(p) ==> p
                    < n),
        decreases e@.len() - j,
    {
        let (v, w, a) = e[j];
        if a < dist[v][w].0 {
            dist[v][w] = (a, Some(v));
        }
        if !is_direct {
            if a < dist[w][v].0 {
                dist[w][v] = (a, Some(w));
            }
        }
        j += 1;
    }
    let mut v: usize = 0;
    while v < n
        invariant
            v <= n,
            dist@.len() == n,
            forall|x: int| 0 <= x < n ==> (#[trigger] dist@[x])@.len() == n,
            forall|x: int| 0 <= x < n ==> (#[trigger] dist@[x])@[x].0 <= 0,
            forall|x: int, y: int|
                0 <= x < n && 0 <= y < n ==> -INF <= #[trigger] ((dist@[x])@[y].0) <= INF,
            forall|x: int, y: int|
                0 <= x < n && 0 <= y < n ==> (#[trigger] ((dist@[x])@[y].1) matches Some(p) ==> p
                    < n),
        decreases n - v,
    {
        let mut uu: usize = 0;
        while uu < n
            invariant
                uu <= n,
                v < n,
                dist@.len() == n,
                forall|x: int| 0 <= x < n ==> (#[trigger] dist@[x])@.len() == n,
                forall|x: int| 0 <= x < n ==> (#[trigger] dist@[x])@[x].0 <= 0,
                forall|x: int, y: int|
                    0 <= x < n && 0 <= y < n ==> -INF <= #[trigger] ((dist@[x])@[y].0) <= INF,
                forall|x: int, y: int|
                    0 <= x < n && 0 <= y < n ==> (#[trigger] ((dist@[x])@[y].1) matches Some(p)
                        ==> p < n),
            decreases n - uu,
        {
            let mut ww: usize = 0;
            while ww < n
                invariant
                    ww <= n,
                    v < n,
                    uu < n,
                    dist@.len() == n,
                    forall|x: int| 0 <= x < n ==> (#[trigger] dist@[x])@.len() == n,
                    forall|x: int| 0 <= x < n ==> (#[trigger] dist@[x])@[x].0 <= 0,
                    forall|x: int, y: int|
                        0 <= x < n && 0 <= y < n ==> -INF <= #[trigger] ((dist@[x])@[y].0) <= INF,
                    forall|x: int, y: int|
                        0 <= x < n && 0 <= y < n ==> (#[trigger] ((dist@[x])@[y].1) matches Some(
                            p,
                        ) ==> p < n),
                decreases n - ww,
            {
                let duv = dist[uu][v].0;
                let dvw = dist[v][ww].0;
                if duv > -(INF / 2) && dvw > -(INF / 2) && duv < INF / 2 && dvw < INF / 2 {
                    let cand = duv + dvw;
                    if cand < dist[uu][ww].0 {
                        dist[uu][ww] = (cand, Some(v));
                    }
                }
                ww += 1;
            }
            uu += 1;
        }
        v += 1;
    }
    dist
}

} // verus!
