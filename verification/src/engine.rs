//! The cover-relation engine: for each element, scan the levels of strictly
//! greater cardinality in ascending order and record exactly the minimal
//! strict supersets as edge targets.

use vstd::prelude::*;
use vstd::set_lib::lemma_len_subset;
use vstd::string::StringExecFns;
use crate::graph::{Graph, Node, NodeV, levels_wf};

verus! {

/// An edge of the cover relation: `source` is covered by `target`.
/// The pair holds copies of the two element identifiers.
pub struct Edge {
    pub source: String,
    pub target: String,
}

impl View for Edge {
    type V = (Seq<char>, Seq<char>);

    open spec fn view(&self) -> (Seq<char>, Seq<char>) {
        (self.source@, self.target@)
    }
}

/// `a` is a strict subset of `b`.
pub open spec fn strict_sub(a: Set<int>, b: Set<int>) -> bool {
    a.subset_of(b) && a != b
}

pub open spec fn valid_pos(g: Seq<Seq<NodeV>>, l: int, p: int) -> bool {
    0 <= l < g.len() && 0 <= p < g[l].len()
}

/// Some family member lies strictly between `a` and `b`.
pub open spec fn has_between(g: Seq<Seq<NodeV>>, a: Set<int>, b: Set<int>) -> bool {
    exists|cl: int, cp: int|
        valid_pos(g, cl, cp) && strict_sub(a, #[trigger] g[cl][cp].set) && strict_sub(
            g[cl][cp].set,
            b,
        )
}

/// The element at `(tl, tp)` is recorded as an edge target of the element at
/// `(sl, sp)`: it is a minimal strict superset, and it is the first element
/// of its bucket carrying its exact set (later duplicates are dominated by
/// the first and receive no edge).
pub open spec fn produces_edge(g: Seq<Seq<NodeV>>, sl: int, sp: int, tl: int, tp: int) -> bool {
    &&& valid_pos(g, sl, sp)
    &&& valid_pos(g, tl, tp)
    &&& strict_sub(g[sl][sp].set, g[tl][tp].set)
    &&& !has_between(g, g[sl][sp].set, g[tl][tp].set)
    &&& forall|q: int| 0 <= q < tp ==> (#[trigger] g[tl][q]).set != g[tl][tp].set
}

/// The set of identifier pairs of a sequence of edges.
pub open spec fn edge_set(es: Seq<Edge>) -> Set<(Seq<char>, Seq<char>)> {
    Set::new(|pr: (Seq<char>, Seq<char>)| exists|k: int| 0 <= k < es.len() && (#[trigger] es[k])@ == pr)
}

/// The identifier pairs of all edges whose source is the element at
/// `(sl, sp)`.
pub open spec fn node_cover_names(g: Seq<Seq<NodeV>>, sl: int, sp: int) -> Set<
    (Seq<char>, Seq<char>),
> {
    Set::new(
        |pr: (Seq<char>, Seq<char>)|
            exists|tl: int, tp: int|
                produces_edge(g, sl, sp, tl, tp) && pr == (
                    g[sl][sp].name,
                    (#[trigger] g[tl][tp]).name,
                ),
    )
}

/// The identifier pairs of all edges whose source lies at level `lo` or
/// above.
pub open spec fn cover_names_from(g: Seq<Seq<NodeV>>, lo: int) -> Set<(Seq<char>, Seq<char>)> {
    Set::new(
        |pr: (Seq<char>, Seq<char>)|
            exists|sl: int, sp: int, tl: int, tp: int|
                sl >= lo && produces_edge(g, sl, sp, tl, tp) && pr == (
                    (#[trigger] g[sl][sp]).name,
                    (#[trigger] g[tl][tp]).name,
                ),
    )
}

/// The identifier pairs of all edges the engine produces.
pub open spec fn cover_names(g: Seq<Seq<NodeV>>) -> Set<(Seq<char>, Seq<char>)> {
    cover_names_from(g, 0)
}

/// Sources strictly above level `l`, plus those at level `l` before
/// position `p`.
spec fn cover_names_upto(g: Seq<Seq<NodeV>>, l: int, p: int) -> Set<(Seq<char>, Seq<char>)> {
    Set::new(
        |pr: (Seq<char>, Seq<char>)|
            exists|sl: int, sp: int, tl: int, tp: int|
                (sl > l || (sl == l && sp < p)) && produces_edge(g, sl, sp, tl, tp) && pr == (
                    (#[trigger] g[sl][sp]).name,
                    (#[trigger] g[tl][tp]).name,
                ),
    )
}

/// A strict subset of a finite set is finite and strictly smaller.
pub proof fn lemma_strict_sub_len(a: Set<int>, b: Set<int>)
    requires
        strict_sub(a, b),
        b.finite(),
    ensures
        a.finite(),
        a.len() < b.len(),
{
    lemma_len_subset(a, b);
    assert(!b.subset_of(a)) by {
        if b.subset_of(a) {
            assert(a =~= b);
        }
    }
    let x = choose|x: int| b.contains(x) && !a.contains(x);
    a.lemma_subset_not_in_lt(b, x);
}

spec fn hp(h: (usize, usize)) -> (int, int) {
    (h.0 as int, h.1 as int)
}

/// `m` names a position in the scan range of a source at `level`.
spec fn in_scan(g: Seq<Seq<NodeV>>, level: int, m: (int, int)) -> bool {
    level < m.0 < g.len() && 0 <= m.1 < g[m.0].len()
}

/// `a` is visited before `b` by the ascending scan.
spec fn scan_lt(a: (int, int), b: (int, int)) -> bool {
    a.0 < b.0 || (a.0 == b.0 && a.1 < b.1)
}

/// The greedy scan records `m` for the source at `(level, sp)`: the source's
/// set is contained in `m`'s, and no earlier-scanned candidate both contains
/// the source and is contained in `m`.
spec fn recorded_ok(g: Seq<Seq<NodeV>>, level: int, sp: int, m: (int, int)) -> bool {
    &&& in_scan(g, level, m)
    &&& g[level][sp].set.subset_of(g[m.0][m.1].set)
    &&& !exists|d: (int, int)|
        in_scan(g, level, d) && scan_lt(d, m) && g[level][sp].set.subset_of(
            (#[trigger] g[d.0][d.1]).set,
        ) && g[d.0][d.1].set.subset_of(g[m.0][m.1].set)
}

/// Whatever the greedy scan records is an edge target.
proof fn lemma_recorded_produces(g: Seq<Seq<NodeV>>, level: int, sp: int, m: (int, int))
    requires
        levels_wf(g),
        valid_pos(g, level, sp),
        recorded_ok(g, level, sp, m),
    ensures
        produces_edge(g, level, sp, m.0, m.1),
{
    let e = g[level][sp].set;
    let ms = g[m.0][m.1].set;
    assert(e.len() == level && ms.len() == m.0);
    assert(e != ms);
    assert(!has_between(g, e, ms)) by {
        if has_between(g, e, ms) {
            let (cl, cp) = choose|cl: int, cp: int|
                valid_pos(g, cl, cp) && strict_sub(e, #[trigger] g[cl][cp].set) && strict_sub(
                    g[cl][cp].set,
                    ms,
                );
            lemma_strict_sub_len(e, g[cl][cp].set);
            lemma_strict_sub_len(g[cl][cp].set, ms);
            assert(in_scan(g, level, (cl, cp)));
            assert(scan_lt((cl, cp), m));
            assert(false);
        }
    }
    assert forall|q: int| 0 <= q < m.1 implies (#[trigger] g[m.0][q]).set != ms by {
        if g[m.0][q].set == ms {
            assert(in_scan(g, level, (m.0, q)));
            assert(scan_lt((m.0, q), m));
            assert(g[level][sp].set.subset_of(g[m.0][q].set));
            assert(false);
        }
    }
}

/// A recorded element whose set is contained in an edge target's set is that
/// target itself.
proof fn lemma_recorded_unique(g: Seq<Seq<NodeV>>, level: int, sp: int, m: (int, int), t: (int, int))
    requires
        levels_wf(g),
        valid_pos(g, level, sp),
        recorded_ok(g, level, sp, m),
        produces_edge(g, level, sp, t.0, t.1),
        g[m.0][m.1].set.subset_of(g[t.0][t.1].set),
    ensures
        m == t,
{
    let e = g[level][sp].set;
    let ms = g[m.0][m.1].set;
    let ts = g[t.0][t.1].set;
    assert(e.len() == level && ms.len() == m.0 && ts.len() == t.0);
    assert(e != ms);
    if ms != ts {
        assert(strict_sub(e, ms) && strict_sub(ms, ts));
        assert(has_between(g, e, ts));
        assert(false);
    }
    assert(m.0 == t.0);
    if m.1 < t.1 {
        assert(g[t.0 as int][m.1 as int].set == ts);
        assert(false);
    }
    if t.1 < m.1 {
        assert(in_scan(g, level, (t.0, t.1)));
        assert(scan_lt((t.0, t.1), m));
        assert(e.subset_of(ts) && ts.subset_of(ms));
        assert(false);
    }
    assert(m.1 == t.1);
}

/// The per-element scan invariant: recorded targets and produced edges
/// correspond, every recorded target was admissible when recorded, and every
/// already-scanned candidate containing the source is dominated by some
/// recorded target. `fr` is the scan frontier (next candidate).
spec fn links_inv(
    g: Seq<Seq<NodeV>>,
    level: int,
    sp: int,
    linked: Seq<(usize, usize)>,
    ret: Seq<Edge>,
    fr: (int, int),
) -> bool {
    &&& ret.len() == linked.len()
    &&& forall|k: int|
        0 <= k < linked.len() ==> recorded_ok(g, level, sp, hp(#[trigger] linked[k]))
    &&& forall|k: int| 0 <= k < linked.len() ==> scan_lt(hp(#[trigger] linked[k]), fr)
    &&& forall|k: int|
        0 <= k < linked.len() ==> (#[trigger] ret[k])@ == (
            g[level][sp].name,
            g[hp(linked[k]).0][hp(linked[k]).1].name,
        )
    &&& forall|d: (int, int)|
        in_scan(g, level, d) && scan_lt(d, fr) && g[level][sp].set.subset_of(
            (#[trigger] g[d.0][d.1]).set,
        ) ==> exists|k: int|
            0 <= k < linked.len() && g[hp(#[trigger] linked[k]).0][hp(linked[k]).1].set.subset_of(
                g[d.0][d.1].set,
            )
}

/// The per-element task: all edges out of the element at `(level, pos)`.
/// Scans only the levels strictly above `level`, nearest cardinality first,
/// and records a candidate iff no already-recorded target is contained in
/// it. Pure: safe to run concurrently with other elements' tasks.
#[verifier::rlimit(100)]
pub fn node_links(graph: &Graph, level: usize, pos: usize) -> (r: Vec<Edge>)
    requires
        graph.wf(),
        level < graph.level_count,
        pos < graph.levels()[level as int].len(),
    ensures
        edge_set(r@) == node_cover_names(graph.levels(), level as int, pos as int),
{
    let ghost g = graph.levels();
    proof {
        graph.lemma_wf_levels();
    }
    let node = &graph.data.nodes[level][pos];
    proof {
        assert(node@ == g[level as int][pos as int]);
    }
    let mut linked: Vec<(usize, usize)> = Vec::new();
    let mut ret: Vec<Edge> = Vec::new();
    let mut c = level + 1;
    while c < graph.level_count
        invariant
            graph.wf(),
            g == graph.levels(),
            levels_wf(g),
            g.len() == graph.level_count,
            level < graph.level_count,
            pos < g[level as int].len(),
            node@ == g[level as int][pos as int],
            level < c <= graph.level_count,
            links_inv(g, level as int, pos as int, linked@, ret@, (c as int, 0)),
        decreases graph.level_count - c,
    {
        let bucket_len = graph.data.nodes[c].len();
        let mut i: usize = 0;
        while i < bucket_len
            invariant
                graph.wf(),
                g == graph.levels(),
                levels_wf(g),
                g.len() == graph.level_count,
                level < graph.level_count,
                pos < g[level as int].len(),
                node@ == g[level as int][pos as int],
                level < c < graph.level_count,
                bucket_len == g[c as int].len(),
                i <= bucket_len,
                links_inv(g, level as int, pos as int, linked@, ret@, (c as int, i as int)),
            decreases bucket_len - i,
        {
            let cand = &graph.data.nodes[c][i];
            proof {
                assert(cand@ == g[c as int][i as int]);
            }
            if node.is_subset(cand) {
                let mut dom = false;
                let mut k: usize = 0;
                while k < linked.len()
                    invariant
                        graph.wf(),
                        g == graph.levels(),
                        g.len() == graph.level_count,
                        cand@ == g[c as int][i as int],
                        k <= linked.len(),
                        forall|kk: int|
                            0 <= kk < linked@.len() ==> recorded_ok(
                                g,
                                level as int,
                                pos as int,
                                hp(#[trigger] linked@[kk]),
                            ),
                        dom <==> exists|kk: int|
                            0 <= kk < k && g[hp(#[trigger] linked@[kk]).0][hp(
                                linked@[kk],
                            ).1].set.subset_of(g[c as int][i as int].set),
                    decreases linked.len() - k,
                {
                    let (ll, lp) = linked[k];
                    let m = &graph.data.nodes[ll][lp];
                    proof {
                        assert(m@ == g[ll as int][lp as int]);
                    }
                    if m.is_subset(cand) {
                        dom = true;
                    }
                    k = k + 1;
                }
                if !dom {
                    let ghost linked0 = linked@;
                    ret.push(
                        Edge { source: node.name.clone(), target: cand.name.clone() },
                    );
                    linked.push((c, i));
                    proof {
                        let lv = level as int;
                        let pp = pos as int;
                        let e = g[lv][pp].set;
                        let nm = (c as int, i as int);
                        assert(recorded_ok(g, lv, pp, nm)) by {
                            if exists|d: (int, int)|
                                in_scan(g, lv, d) && scan_lt(d, nm) && e.subset_of(
                                    (#[trigger] g[d.0][d.1]).set,
                                ) && g[d.0][d.1].set.subset_of(g[nm.0][nm.1].set) {
                                let d = choose|d: (int, int)|
                                    in_scan(g, lv, d) && scan_lt(d, nm) && e.subset_of(
                                        (#[trigger] g[d.0][d.1]).set,
                                    ) && g[d.0][d.1].set.subset_of(g[nm.0][nm.1].set);
                                let kk = choose|kk: int|
                                    0 <= kk < linked0.len() && g[hp(
                                        #[trigger] linked0[kk],
                                    ).0][hp(linked0[kk]).1].set.subset_of(g[d.0][d.1].set);
                                assert(g[hp(linked0[kk]).0][hp(linked0[kk]).1].set.subset_of(
                                    g[c as int][i as int].set,
                                ));
                                assert(false);
                            }
                        }
                        assert forall|d: (int, int)|
                            in_scan(g, lv, d) && scan_lt(d, (c as int, i as int + 1))
                                && e.subset_of(
                                (#[trigger] g[d.0][d.1]).set,
                            ) implies exists|k2: int|
                            0 <= k2 < linked@.len() && g[hp(#[trigger] linked@[k2]).0][hp(
                                linked@[k2],
                            ).1].set.subset_of(g[d.0][d.1].set) by {
                            if scan_lt(d, nm) {
                                let k2 = choose|k2: int|
                                    0 <= k2 < linked0.len() && g[hp(
                                        #[trigger] linked0[k2],
                                    ).0][hp(linked0[k2]).1].set.subset_of(g[d.0][d.1].set);
                                assert(linked@[k2] == linked0[k2]);
                            } else {
                                assert(d.0 == nm.0 && d.1 == nm.1);
                                let k2 = linked@.len() - 1;
                                assert(hp(linked@[k2]) == nm);
                                assert(g[hp(linked@[k2]).0][hp(linked@[k2]).1].set.subset_of(
                                    g[d.0][d.1].set,
                                ));
                            }
                        }
                    }
                } else {
                    proof {
                        let lv = level as int;
                        let pp = pos as int;
                        let e = g[lv][pp].set;
                        let nm = (c as int, i as int);
                        assert forall|d: (int, int)|
                            in_scan(g, lv, d) && scan_lt(d, (c as int, i as int + 1))
                                && e.subset_of((#[trigger] g[d.0][d.1]).set) implies exists|k2: int|
                            0 <= k2 < linked@.len() && g[hp(#[trigger] linked@[k2]).0][hp(
                                linked@[k2],
                            ).1].set.subset_of(g[d.0][d.1].set) by {
                            if !scan_lt(d, nm) {
                                assert(d.0 == nm.0 && d.1 == nm.1);
                            }
                        }
                    }
                }
            } else {
                proof {
                    let lv = level as int;
                    let e = g[lv][pos as int].set;
                    let nm = (c as int, i as int);
                    assert forall|d: (int, int)|
                        in_scan(g, lv, d) && scan_lt(d, (c as int, i as int + 1)) && e.subset_of(
                            (#[trigger] g[d.0][d.1]).set,
                        ) implies exists|k2: int|
                        0 <= k2 < linked@.len() && g[hp(#[trigger] linked@[k2]).0][hp(
                            linked@[k2],
                        ).1].set.subset_of(g[d.0][d.1].set) by {
                        if !scan_lt(d, nm) {
                            assert(d.0 == nm.0 && d.1 == nm.1);
                            assert(false);
                        }
                    }
                }
            }
            i = i + 1;
        }
        c = c + 1;
        proof {
            assert forall|d: (int, int)|
                in_scan(g, level as int, d) && scan_lt(d, (c as int, 0)) && g[level as int][
                    pos as int].set.subset_of(
                    (#[trigger] g[d.0][d.1]).set,
                ) implies exists|k2: int|
                0 <= k2 < linked@.len() && g[hp(#[trigger] linked@[k2]).0][hp(
                    linked@[k2],
                ).1].set.subset_of(g[d.0][d.1].set) by {
                assert(scan_lt(d, (c as int - 1, bucket_len as int)));
            }
        }
    }
    proof {
        let lv = level as int;
        let pp = pos as int;
        let fin = (g.len() as int, 0int);
        assert forall|pr: (Seq<char>, Seq<char>)| edge_set(ret@).contains(pr) implies
            node_cover_names(g, lv, pp).contains(pr) by {
            let k = choose|k: int| 0 <= k < ret@.len() && (#[trigger] ret@[k])@ == pr;
            lemma_recorded_produces(g, lv, pp, hp(linked@[k]));
            let t = hp(linked@[k]);
            assert(produces_edge(g, lv, pp, t.0, t.1) && pr == (g[lv][pp].name, g[t.0][t.1].name));
        }
        assert forall|pr: (Seq<char>, Seq<char>)| node_cover_names(g, lv, pp).contains(
            pr,
        ) implies edge_set(ret@).contains(pr) by {
            let (tl, tp) = choose|tl: int, tp: int|
                produces_edge(g, lv, pp, tl, tp) && pr == (
                    g[lv][pp].name,
                    (#[trigger] g[tl][tp]).name,
                );
            let e = g[lv][pp].set;
            let ts = g[tl][tp].set;
            lemma_strict_sub_len(e, ts);
            assert(in_scan(g, lv, (tl, tp)));
            assert(scan_lt((tl, tp), fin));
            let k = choose|k: int|
                0 <= k < linked@.len() && g[hp(#[trigger] linked@[k]).0][hp(
                    linked@[k],
                ).1].set.subset_of(g[tl][tp].set);
            lemma_recorded_unique(g, lv, pp, hp(linked@[k]), (tl, tp));
            assert(ret@[k]@ == pr);
        }
        assert(edge_set(ret@) =~= node_cover_names(g, lv, pp));
    }
    ret
}

/// Render one edge between two elements as `source->target`.
pub fn render(link: (&Node, &Node)) -> (r: String)
    ensures
        r@ == link.0.name@ + "->"@ + link.1.name@,
{
    let mut s = link.0.name.clone();
    s.append("->");
    s.append(link.1.name.as_str());
    s
}

/// Render a collected edge as `source->target`.
pub fn render_edge(e: &Edge) -> (r: String)
    ensures
        r@ == e.source@ + "->"@ + e.target@,
{
    let mut s = e.source.clone();
    s.append("->");
    s.append(e.target.as_str());
    s
}

/// Concatenating edge sequences unions their identifier-pair sets.
proof fn lemma_edge_set_concat(a: Seq<Edge>, b: Seq<Edge>)
    ensures
        edge_set(a + b) == edge_set(a).union(edge_set(b)),
{
    assert forall|pr: (Seq<char>, Seq<char>)| edge_set(a).union(edge_set(b)).contains(
        pr,
    ) implies edge_set(a + b).contains(pr) by {
        if edge_set(a).contains(pr) {
            let k = choose|k: int| 0 <= k < a.len() && (#[trigger] a[k])@ == pr;
            assert((a + b)[k]@ == pr);
        } else {
            let k = choose|k: int| 0 <= k < b.len() && (#[trigger] b[k])@ == pr;
            assert((a + b)[a.len() + k]@ == pr);
        }
    }
    assert forall|pr: (Seq<char>, Seq<char>)| edge_set(a + b).contains(pr) implies edge_set(
        a,
    ).union(edge_set(b)).contains(pr) by {
        let k = choose|k: int| 0 <= k < (a + b).len() && (#[trigger] (a + b)[k])@ == pr;
        if k < a.len() {
            assert(a[k]@ == pr);
        } else {
            assert(b[k - a.len()]@ == pr);
        }
    }
    assert(edge_set(a + b) =~= edge_set(a).union(edge_set(b)));
}

/// Walk the levels from the highest cardinality down, collect every
/// element's edges, and return the whole cover-edge collection. The result
/// is characterized as a set of identifier pairs: collection order carries
/// no meaning.
pub fn compute_links(graph: &Graph) -> (r: Vec<Edge>)
    requires
        graph.wf(),
    ensures
        edge_set(r@) == cover_names(graph.levels()),
{
    let ghost g = graph.levels();
    proof {
        graph.lemma_wf_levels();
    }
    let mut links: Vec<Edge> = Vec::new();
    let mut l = graph.level_count;
    proof {
        assert(edge_set(links@) =~= cover_names_from(g, l as int));
    }
    while l > 0
        invariant
            graph.wf(),
            g == graph.levels(),
            levels_wf(g),
            g.len() == graph.level_count,
            l <= graph.level_count,
            edge_set(links@) == cover_names_from(g, l as int),
        decreases l,
    {
        l = l - 1;
        if l + 1 >= graph.level_count {
            proof {
                assert forall|pr: (Seq<char>, Seq<char>)| cover_names_from(g, l as int).contains(
                    pr,
                ) implies cover_names_from(g, l as int + 1).contains(pr) by {
                    let (sl, sp, tl, tp) = choose|sl: int, sp: int, tl: int, tp: int|
                        sl >= l as int && produces_edge(g, sl, sp, tl, tp) && pr == (
                            (#[trigger] g[sl][sp]).name,
                            (#[trigger] g[tl][tp]).name,
                        );
                    if sl == l as int {
                        lemma_strict_sub_len(g[sl][sp].set, g[tl][tp].set);
                        assert(false);
                    }
                }
                assert(cover_names_from(g, l as int) =~= cover_names_from(g, l as int + 1));
            }
            continue ;
        }
        let bucket_len = graph.data.nodes[l].len();
        let mut pos: usize = 0;
        proof {
            assert forall|pr: (Seq<char>, Seq<char>)| cover_names_from(g, l as int + 1).contains(
                pr,
            ) implies cover_names_upto(g, l as int, 0).contains(pr) by {
                let (sl, sp, tl, tp) = choose|sl: int, sp: int, tl: int, tp: int|
                    sl >= l as int + 1 && produces_edge(g, sl, sp, tl, tp) && pr == (
                        (#[trigger] g[sl][sp]).name,
                        (#[trigger] g[tl][tp]).name,
                    );
                assert(sl > l as int && produces_edge(g, sl, sp, tl, tp));
            }
            assert forall|pr: (Seq<char>, Seq<char>)| cover_names_upto(g, l as int, 0).contains(
                pr,
            ) implies cover_names_from(g, l as int + 1).contains(pr) by {
                let (sl, sp, tl, tp) = choose|sl: int, sp: int, tl: int, tp: int|
                    (sl > l as int || (sl == l as int && sp < 0)) && produces_edge(g, sl, sp, tl, tp)
                        && pr == ((#[trigger] g[sl][sp]).name, (#[trigger] g[tl][tp]).name);
                assert(sl >= l as int + 1 && produces_edge(g, sl, sp, tl, tp));
            }
            assert(cover_names_from(g, l as int + 1) =~= cover_names_upto(g, l as int, 0));
        }
        while pos < bucket_len
            invariant
                graph.wf(),
                g == graph.levels(),
                levels_wf(g),
                g.len() == graph.level_count,
                l < graph.level_count,
                bucket_len == g[l as int].len(),
                pos <= bucket_len,
                edge_set(links@) == cover_names_upto(g, l as int, pos as int),
            decreases bucket_len - pos,
        {
            let mut es = node_links(graph, l, pos);
            let ghost old_links = links@;
            let ghost es_v = es@;
            links.append(&mut es);
            proof {
                lemma_edge_set_concat(old_links, es_v);
                let li = l as int;
                let pi = pos as int;
                assert forall|pr: (Seq<char>, Seq<char>)|
                    cover_names_upto(g, li, pi + 1).contains(pr) implies cover_names_upto(
                    g,
                    li,
                    pi,
                ).union(node_cover_names(g, li, pi)).contains(pr) by {
                    let (sl, sp, tl, tp) = choose|sl: int, sp: int, tl: int, tp: int|
                        (sl > li || (sl == li && sp < pi + 1)) && produces_edge(g, sl, sp, tl, tp)
                            && pr == ((#[trigger] g[sl][sp]).name, (#[trigger] g[tl][tp]).name);
                    if sl == li && sp == pi {
                        assert(node_cover_names(g, li, pi).contains(pr));
                    } else {
                        assert(cover_names_upto(g, li, pi).contains(pr));
                    }
                }
                assert forall|pr: (Seq<char>, Seq<char>)|
                    cover_names_upto(g, li, pi).union(node_cover_names(g, li, pi)).contains(
                    pr,
                ) implies cover_names_upto(g, li, pi + 1).contains(pr) by {
                    if cover_names_upto(g, li, pi).contains(pr) {
                        let (sl, sp, tl, tp) = choose|sl: int, sp: int, tl: int, tp: int|
                            (sl > li || (sl == li && sp < pi)) && produces_edge(g, sl, sp, tl, tp)
                                && pr == ((#[trigger] g[sl][sp]).name, (#[trigger] g[tl][tp]).name);
                        assert((sl > li || (sl == li && sp < pi + 1)) && produces_edge(
                            g,
                            sl,
                            sp,
                            tl,
                            tp,
                        ));
                    } else {
                        let (tl, tp) = choose|tl: int, tp: int|
                            produces_edge(g, li, pi, tl, tp) && pr == (
                                g[li][pi].name,
                                (#[trigger] g[tl][tp]).name,
                            );
                        assert((li > li || (li == li && pi < pi + 1)) && produces_edge(
                            g,
                            li,
                            pi,
                            tl,
                            tp,
                        ));
                    }
                }
                assert(edge_set(links@) =~= cover_names_upto(g, li, pi + 1));
            }
            pos = pos + 1;
        }
        proof {
            let li = l as int;
            let bi = bucket_len as int;
            assert forall|pr: (Seq<char>, Seq<char>)| cover_names_upto(g, li, bi).contains(
                pr,
            ) implies cover_names_from(g, li).contains(pr) by {
                let (sl, sp, tl, tp) = choose|sl: int, sp: int, tl: int, tp: int|
                    (sl > li || (sl == li && sp < bi)) && produces_edge(g, sl, sp, tl, tp) && pr
                        == ((#[trigger] g[sl][sp]).name, (#[trigger] g[tl][tp]).name);
                assert(sl >= li && produces_edge(g, sl, sp, tl, tp));
            }
            assert forall|pr: (Seq<char>, Seq<char>)| cover_names_from(g, li).contains(
                pr,
            ) implies cover_names_upto(g, li, bi).contains(pr) by {
                let (sl, sp, tl, tp) = choose|sl: int, sp: int, tl: int, tp: int|
                    sl >= li && produces_edge(g, sl, sp, tl, tp) && pr == (
                        (#[trigger] g[sl][sp]).name,
                        (#[trigger] g[tl][tp]).name,
                    );
                assert((sl > li || (sl == li && sp < bi)) && produces_edge(g, sl, sp, tl, tp));
            }
            assert(edge_set(links@) =~= cover_names_from(g, li));
        }
    }
    links
}

} // verus!
