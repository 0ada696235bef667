//! The properties the engine's output is promised to have, stated over the
//! abstract levels and proved from the engine's contracts.

use vstd::prelude::*;
use crate::graph::{NodeV, levels_wf};
use crate::engine::{
    strict_sub, valid_pos, has_between, produces_edge, cover_names, edge_set, lemma_strict_sub_len,
    Edge,
};

verus! {

/// `(sl, sp)` is covered by `(tl, tp)`: a strict inclusion with no family
/// member strictly between the two sets.
pub open spec fn is_cover_pair(g: Seq<Seq<NodeV>>, sl: int, sp: int, tl: int, tp: int) -> bool {
    &&& valid_pos(g, sl, sp)
    &&& valid_pos(g, tl, tp)
    &&& strict_sub(g[sl][sp].set, g[tl][tp].set)
    &&& !has_between(g, g[sl][sp].set, g[tl][tp].set)
}

/// The identifier pairs of the mathematical cover relation of the family.
pub open spec fn cover_pair_names(g: Seq<Seq<NodeV>>) -> Set<(Seq<char>, Seq<char>)> {
    Set::new(
        |pr: (Seq<char>, Seq<char>)|
            exists|sl: int, sp: int, tl: int, tp: int|
                is_cover_pair(g, sl, sp, tl, tp) && pr == (
                    (#[trigger] g[sl][sp]).name,
                    (#[trigger] g[tl][tp]).name,
                ),
    )
}

/// No two family members hold the same set.
pub open spec fn distinct_sets(g: Seq<Seq<NodeV>>) -> bool {
    forall|l1: int, p1: int, l2: int, p2: int|
        valid_pos(g, l1, p1) && valid_pos(g, l2, p2) && !(l1 == l2 && p1 == p2) ==> (
        #[trigger] g[l1][p1]).set != (#[trigger] g[l2][p2]).set
}

/// No two family members carry the same identifier.
pub open spec fn distinct_names(g: Seq<Seq<NodeV>>) -> bool {
    forall|l1: int, p1: int, l2: int, p2: int|
        valid_pos(g, l1, p1) && valid_pos(g, l2, p2) && !(l1 == l2 && p1 == p2) ==> (
        #[trigger] g[l1][p1]).name != (#[trigger] g[l2][p2]).name
}

/// Cover-relation correctness: over a family whose sets are pairwise
/// distinct, the engine's edge set is exactly the cover relation of the
/// inclusion order — every produced pair is a covering pair and every
/// covering pair is produced. (With duplicated set contents, only the first
/// of the duplicates receives each edge; the hypothesis rules that out.)
pub proof fn lemma_cover_relation_correct(g: Seq<Seq<NodeV>>)
    requires
        levels_wf(g),
        distinct_sets(g),
    ensures
        cover_names(g) == cover_pair_names(g),
{
    assert forall|sl: int, sp: int, tl: int, tp: int|
        #[trigger] produces_edge(g, sl, sp, tl, tp) <==> #[trigger] is_cover_pair(
        g,
        sl,
        sp,
        tl,
        tp,
    ) by {
        if is_cover_pair(g, sl, sp, tl, tp) {
            assert forall|q: int| 0 <= q < tp implies (#[trigger] g[tl][q]).set != g[tl][tp].set by {
                assert(valid_pos(g, tl, q));
            }
        }
    }
    assert forall|pr: (Seq<char>, Seq<char>)| cover_names(g).contains(pr) implies cover_pair_names(
        g,
    ).contains(pr) by {
        let (sl, sp, tl, tp) = choose|sl: int, sp: int, tl: int, tp: int|
            sl >= 0 && produces_edge(g, sl, sp, tl, tp) && pr == (
                (#[trigger] g[sl][sp]).name,
                (#[trigger] g[tl][tp]).name,
            );
        assert(is_cover_pair(g, sl, sp, tl, tp));
    }
    assert forall|pr: (Seq<char>, Seq<char>)| cover_pair_names(g).contains(pr) implies cover_names(
        g,
    ).contains(pr) by {
        let (sl, sp, tl, tp) = choose|sl: int, sp: int, tl: int, tp: int|
            is_cover_pair(g, sl, sp, tl, tp) && pr == (
                (#[trigger] g[sl][sp]).name,
                (#[trigger] g[tl][tp]).name,
            );
        assert(sl >= 0 && produces_edge(g, sl, sp, tl, tp));
    }
    assert(cover_names(g) =~= cover_pair_names(g));
}

/// No self-loops: an edge never joins an element to itself — its endpoints
/// are different positions with different sets, and, when identifiers are
/// unique, different identifiers.
pub proof fn lemma_no_self_loop(g: Seq<Seq<NodeV>>, sl: int, sp: int, tl: int, tp: int)
    requires
        produces_edge(g, sl, sp, tl, tp),
    ensures
        !(sl == tl && sp == tp),
        g[sl][sp].set != g[tl][tp].set,
        distinct_names(g) ==> g[sl][sp].name != g[tl][tp].name,
{
}

/// No self-loops, stated over the output itself: under unique
/// identifiers, no pair of the produced edge set joins an identifier to
/// itself.
pub proof fn lemma_no_self_loop_pairs(g: Seq<Seq<NodeV>>)
    requires
        distinct_names(g),
    ensures
        forall|pr: (Seq<char>, Seq<char>)| cover_names(g).contains(pr) ==> pr.0 != pr.1,
{
    assert forall|pr: (Seq<char>, Seq<char>)| cover_names(g).contains(pr) implies pr.0 != pr.1 by {
        let (sl, sp, tl, tp) = choose|sl: int, sp: int, tl: int, tp: int|
            sl >= 0 && produces_edge(g, sl, sp, tl, tp) && pr == (
                (#[trigger] g[sl][sp]).name,
                (#[trigger] g[tl][tp]).name,
            );
        lemma_no_self_loop(g, sl, sp, tl, tp);
    }
}

/// Level monotonicity: an edge's target has strictly greater cardinality
/// than its source, and therefore lives in a strictly higher bucket.
pub proof fn lemma_level_monotone(g: Seq<Seq<NodeV>>, sl: int, sp: int, tl: int, tp: int)
    requires
        levels_wf(g),
        produces_edge(g, sl, sp, tl, tp),
    ensures
        g[sl][sp].set.len() < g[tl][tp].set.len(),
        sl < tl,
{
    lemma_strict_sub_len(g[sl][sp].set, g[tl][tp].set);
}

/// Order insensitivity / idempotence: any two edge collections that satisfy
/// the engine's contract for the same family are equal as sets of
/// identifier pairs, whatever order workers completed in either run.
pub proof fn lemma_run_deterministic(g: Seq<Seq<NodeV>>, r1: Seq<Edge>, r2: Seq<Edge>)
    requires
        edge_set(r1) == cover_names(g),
        edge_set(r2) == cover_names(g),
    ensures
        edge_set(r1) == edge_set(r2),
{
}

} // verus!
