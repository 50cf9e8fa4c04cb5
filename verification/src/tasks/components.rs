use vstd::prelude::*;
use crate::ranges::{canonical, covers, in_range, lawful_order, Ranges};

verus! {

/// The edge `x` (joining vertices `x` and `x + 1`) is present after the first `t` queries:
/// `(1, l, r)` adds the edges `l..r`, `(2, l, r)` takes them away, other kinds only ask.
pub open spec fn linked(qs: Seq<(u8, u32, u32)>, t: int, x: int) -> bool
    decreases t,
{
    if t <= 0 {
        false
    } else {
        let q = qs[t - 1];
        if q.0 == 1 {
            linked(qs, t - 1, x) || q.1 <= x < q.2
        } else if q.0 == 2 {
            linked(qs, t - 1, x) && !(q.1 <= x < q.2)
        } else {
            linked(qs, t - 1, x)
        }
    }
}

/// `[s, e)` is a maximal run of present edges after the first `t` queries: the vertices
/// `s..=e` form one component.
pub open spec fn run(qs: Seq<(u8, u32, u32)>, t: int, s: int, e: int) -> bool {
    &&& s < e
    &&& forall|x: int| s <= x < e ==> linked(qs, t, x)
    &&& !linked(qs, t, s - 1)
    &&& !linked(qs, t, e)
}

/// The size of the component of vertex `v`, `size` for the answer: through the run of edges
/// that holds edge `v`, else the one that holds edge `v - 1`, else `v` stands alone.
pub open spec fn component_is(qs: Seq<(u8, u32, u32)>, t: int, v: int, size: int) -> bool {
    if exists|s: int, e: int| #[trigger] run(qs, t, s, e) && s <= v < e {
        exists|s: int, e: int| #[trigger] run(qs, t, s, e) && s <= v < e && size == e - s + 1
    } else if exists|s: int, e: int| #[trigger] run(qs, t, s, e) && s <= v - 1 < e {
        exists|s: int, e: int| #[trigger] run(qs, t, s, e) && s <= v - 1 < e && size == e - s + 1
    } else {
        size == 1
    }
}

/// The answer to query `t`, asked after the queries before it: none for a change; for
/// `(3, u, v)` whether `u` and `v` are connected, `1` or `0`; for the rest, the size of the
/// component of the second field.
pub open spec fn answer(qs: Seq<(u8, u32, u32)>, t: int, ans: Option<u64>) -> bool {
    let q = qs[t];
    if q.0 == 1 || q.0 == 2 {
        ans is None
    } else if q.0 == 3 {
        let lo = if q.1 < q.2 { q.1 } else { q.2 };
        let hi = if q.1 < q.2 { q.2 } else { q.1 };
        ans == Some(if forall|x: int| lo <= x < hi ==> #[trigger] linked(qs, t, x) { 1u64 } else { 0u64 })
    } else {
        ans matches Some(size) && component_is(qs, t, q.1 as int, size as int)
    }
}

proof fn lemma_linked_bounds(qs: Seq<(u8, u32, u32)>, t: int, x: int)
    requires
        linked(qs, t, x),
    ensures
        0 <= x < u32::MAX,
    decreases t,
{
    if t > 0 {
        let q = qs[t - 1];
        if linked(qs, t - 1, x) {
            lemma_linked_bounds(qs, t - 1, x);
        }
    }
}

/// In canonical form, an interval of edges is a maximal run.
proof fn lemma_interval_is_run(qs: Seq<(u8, u32, u32)>, t: int, v: Seq<(u32, u32)>, p: int)
    requires
        canonical(v),
        0 <= p < v.len(),
        forall|x: u32| #[trigger] covers(v, x) <==> linked(qs, t, x as int),
    ensures
        run(qs, t, v[p].0 as int, v[p].1 as int),
{
    let (s, e) = v[p];
    assert forall|x: int| s <= x < e implies linked(qs, t, x) by {
        assert(in_range(v[p].0, v[p].1, x as u32));
        assert(covers(v, x as u32));
    }
    assert(!linked(qs, t, e as int)) by {
        if linked(qs, t, e as int) {
            assert(covers(v, e));
            let q = choose|q: int| 0 <= q < v.len() && #[trigger] in_range(v[q].0, v[q].1, e);
            if q < p {
                assert(v[q].1 < v[p].0);
            } else if q > p {
                assert(v[p].1 < v[q].0);
            }
        }
    }
    assert(!linked(qs, t, s - 1)) by {
        if linked(qs, t, s - 1) {
            lemma_linked_bounds(qs, t, s - 1);
            assert(covers(v, (s - 1) as u32));
            let q = choose|q: int| 0 <= q < v.len() && #[trigger] in_range(v[q].0, v[q].1, (s - 1) as u32);
            if q < p {
                assert(v[q].1 < v[p].0);
            } else if q > p {
                assert(v[p].1 < v[q].0);
            }
        }
    }
}

/// The component of `w` through the edges of `v`: the run holding edge `w`, if any.
fn run_through(edges: &Ranges<u32>, w: u32, Ghost(qs): Ghost<Seq<(u8, u32, u32)>>, Ghost(t): Ghost<int>) -> (r: Option<u64>)
    requires
        lawful_order::<u32>(),
        edges.wf(),
        forall|x: u32| #[trigger] covers(edges@, x) <==> linked(qs, t, x as int),
    ensures
        r is Some ==> exists|s: int, e: int| #[trigger] run(qs, t, s, e) && s <= w < e && r.unwrap() == e - s + 1,
        r is None ==> !exists|s: int, e: int| #[trigger] run(qs, t, s, e) && s <= w < e,
{
    match edges.covering(&w) {
        Some((start, end)) => {
            let (s, e) = (*start, *end);
            proof {
                let v = edges@;
                let p = choose|p: int| 0 <= p < v.len() && #[trigger] v[p] == (s, e) && in_range(s, e, w);
                lemma_interval_is_run(qs, t, v, p);
                assert(in_range(s, e, w));
                assert(run(qs, t, s as int, e as int) && s <= w < e);
            }
            Some((e - s) as u64 + 1)
        },
        None => {
            proof {
                if exists|s: int, e: int| #[trigger] run(qs, t, s, e) && s <= w < e {
                    let (s, e) = choose|s: int, e: int| #[trigger] run(qs, t, s, e) && s <= w < e;
                    assert(linked(qs, t, w as int));
                }
            }
            None
        },
    }
}

/// Answers the queries in order on a path whose vertices start unconnected. A component-size
/// query must name a vertex of at least `1`.
pub fn answer_queries(qs: &Vec<(u8, u32, u32)>) -> (r: Vec<Option<u64>>)
    requires
        forall|t: int|
            0 <= t < qs@.len() ==> (#[trigger] qs@[t]).0 == 1 || qs@[t].0 == 2 || qs@[t].0 == 3 || qs@[t].1 >= 1,
    ensures
        r@.len() == qs@.len(),
        forall|t: int| 0 <= t < qs@.len() ==> answer(qs@, t, #[trigger] r@[t]),
{
    let ghost g = qs@;
    let mut edges: Ranges<u32> = Ranges::new();
    let mut out: Vec<Option<u64>> = Vec::new();
    proof {
        crate::ranges::lemma_order::<u32>();
    }
    for t in 0..qs.len()
        invariant
            g == qs@,
            lawful_order::<u32>(),
            edges.wf(),
            forall|x: u32| #[trigger] covers(edges@, x) <==> linked(g, t as int, x as int),
            forall|k: int|
                0 <= k < g.len() ==> (#[trigger] g[k]).0 == 1 || g[k].0 == 2 || g[k].0 == 3 || g[k].1 >= 1,
            out@.len() == t,
            forall|k: int| 0 <= k < t ==> answer(g, k, #[trigger] out@[k]),
    {
        let (kind, x, y) = qs[t];
        let ghost old_out = out@;
        assert(g[t as int] == (kind, x, y));
        if kind == 1 {
            edges.insert(x..y);
            out.push(None);
            assert(answer(g, t as int, out@[t as int]));
        } else if kind == 2 {
            edges.remove(x..y);
            out.push(None);
            assert(answer(g, t as int, out@[t as int]));
        } else if kind == 3 {
            let (lo, hi) = if x < y {
                (x, y)
            } else {
                (y, x)
            };
            let rg = lo..hi;
            let connected = edges.contains_range(&rg);
            proof {
                if connected {
                    assert forall|z: int| lo <= z < hi implies #[trigger] linked(g, t as int, z) by {
                        assert(in_range(rg.start, rg.end, z as u32));
                        assert(covers(edges@, z as u32));
                    }
                } else {
                    let z = choose|z: u32| !(#[trigger] in_range(rg.start, rg.end, z) ==> covers(edges@, z));
                    assert(lo <= z < hi && !linked(g, t as int, z as int));
                }
            }
            out.push(Some(if connected { 1 } else { 0 }));
            assert(answer(g, t as int, out@[t as int]));
        } else {
            let here = run_through(&edges, x, Ghost(g), Ghost(t as int));
            let size: u64 = match here {
                Some(sz) => {
                    proof {
                        let (s0, e0) = choose|s0: int, e0: int| #[trigger] run(g, t as int, s0, e0) && s0 <= x < e0 && here.unwrap() == e0 - s0 + 1;
                        assert(run(g, t as int, s0, e0) && s0 <= x as int && (x as int) < e0);
                        assert(e0 - s0 + 1 == sz);
                    }
                    sz
                },
                None => {
                    let there = run_through(&edges, x - 1, Ghost(g), Ghost(t as int));
                    match there {
                        Some(sz) => {
                            proof {
                                let (s0, e0) = choose|s0: int, e0: int| #[trigger] run(g, t as int, s0, e0) && s0 <= x - 1 < e0 && there.unwrap() == e0 - s0 + 1;
                                assert(run(g, t as int, s0, e0) && s0 <= x - 1 && x - 1 < e0);
                                assert(e0 - s0 + 1 == sz);
                            }
                            sz
                        },
                        None => 1,
                    }
                },
            };
            out.push(Some(size));
            assert(x >= 1);
            assert(component_is(g, t as int, x as int, size as int));
            assert(answer(g, t as int, out@[t as int]));
        }
        proof {
            assert forall|z: u32| #[trigger] covers(edges@, z) <==> linked(g, t + 1, z as int) by {}
            assert forall|k: int| 0 <= k < t + 1 implies answer(g, k, #[trigger] out@[k]) by {
                if k < t {
                    assert(old_out[k] == out@[k]);
                }
            }
        }
    }
    out
}

} // verus!
