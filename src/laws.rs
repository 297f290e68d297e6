use vstd::prelude::*;
use crate::model::{
    bound_counter, bound_edges, consistent, ids_below, keeps_parents, labels_unique, lemma_bound,
    links, put, rho, sigma, ID_LIMIT,
};
use crate::universe::Universe;

verus! {

/// Binding an attribute edge out of a vertex other than the root leaves its
/// target with parent and copy edges that lead back to that vertex, and to
/// no other.
pub proof fn law_bind_adds_inverses(u: Universe, e: u32, v1: u32, v2: u32, a: Seq<char>)
    requires
        u.wf(),
        u.bind_allowed(e, v1, v2, a),
        v1 != 0,
        a != rho(),
        a != sigma(),
    ensures
        forall|t: u32|
            links(bound_edges(u.edge_map(), u.edge_counter(), e, v1, v2, a), v2, rho(), t) <==> t
                == v1,
        forall|t: u32|
            links(bound_edges(u.edge_map(), u.edge_counter(), e, v1, v2, a), v2, sigma(), t) <==> t
                == v1,
{
    u.lemma_wf();
    lemma_bound(u.edge_map(), u.edge_counter(), e, v1, v2, a);
}

/// Binding one label of one vertex twice leaves exactly one edge for that
/// label, leading to the target of the second bind; the first edge is gone.
pub proof fn law_rebind_keeps_newest(
    u: Universe,
    e1: u32,
    e2: u32,
    v: u32,
    t1: u32,
    t2: u32,
    a: Seq<char>,
)
    requires
        u.wf(),
        u.bind_allowed(e1, v, t1, a),
        !bound_edges(u.edge_map(), u.edge_counter(), e1, v, t1, a).contains_key(e2),
        bound_counter(
            bound_edges(u.edge_map(), u.edge_counter(), e1, v, t1, a),
            bound_counter(u.edge_map(), u.edge_counter(), e1, v, t1, a),
            e2,
            v,
            t2,
            a,
        ) <= ID_LIMIT,
    ensures
        ({
            let m1 = bound_edges(u.edge_map(), u.edge_counter(), e1, v, t1, a);
            let c1 = bound_counter(u.edge_map(), u.edge_counter(), e1, v, t1, a);
            let m2 = bound_edges(m1, c1, e2, v, t2, a);
            &&& forall|t: u32| links(m2, v, a, t) <==> t == t2
            &&& forall|i: u32, j: u32|
                #[trigger] m2.contains_key(i) && #[trigger] m2.contains_key(j) && m2[i].0 == v
                    && m2[i].2 == a && m2[j].0 == v && m2[j].2 == a ==> i == j
            &&& !m2.contains_key(e1)
        }),
{
    let m = u.edge_map();
    let c = u.edge_counter();
    u.lemma_wf();
    assert(ids_below(m, c));
    lemma_bound(m, c, e1, v, t1, a);
    let m1 = bound_edges(m, c, e1, v, t1, a);
    let c1 = bound_counter(m, c, e1, v, t1, a);
    lemma_bound(m1, c1, e2, v, t2, a);
    assert(m1.contains_key(e1));
}

/// Binding out of the root adds no parent or copy edge back to the root:
/// the bound edge is the only change.
pub proof fn law_root_bind_adds_no_back_edges(u: Universe, e: u32, v: u32, a: Seq<char>)
    requires
        u.wf(),
        u.bind_allowed(e, 0, v, a),
    ensures
        bound_edges(u.edge_map(), u.edge_counter(), e, 0, v, a) == put(u.edge_map(), e, 0, v, a),
        !(v == 0 && a == rho()) ==> (links(
            bound_edges(u.edge_map(), u.edge_counter(), e, 0, v, a),
            v,
            rho(),
            0,
        ) <==> links(u.edge_map(), v, rho(), 0)),
        !(v == 0 && a == sigma()) ==> (links(
            bound_edges(u.edge_map(), u.edge_counter(), e, 0, v, a),
            v,
            sigma(),
            0,
        ) <==> links(u.edge_map(), v, sigma(), 0)),
{
    u.lemma_wf();
    lemma_bound(u.edge_map(), u.edge_counter(), e, 0, v, a);
}

/// A bind on a consistent universe keeps it consistent, as long as it
/// redirects no parent or copy edge that another attribute edge relies on.
pub proof fn law_bind_keeps_consistency(u: Universe, e: u32, v1: u32, v2: u32, a: Seq<char>)
    requires
        u.wf(),
        u.bind_allowed(e, v1, v2, a),
        consistent(u.vertex_set(), u.edge_map()),
        keeps_parents(u.edge_map(), v1, v2, a),
    ensures
        consistent(u.vertex_set(), bound_edges(u.edge_map(), u.edge_counter(), e, v1, v2, a)),
{
    let m = u.edge_map();
    let c = u.edge_counter();
    u.lemma_wf();
    assert(ids_below(m, c));
    lemma_bound(m, c, e, v1, v2, a);
    let r = bound_edges(m, c, e, v1, v2, a);
    assert forall|id: u32| #[trigger] r.contains_key(id) && crate::model::needs_inverses(
        r[id].0,
        r[id].2,
    ) implies links(r, r[id].1, rho(), r[id].0) && links(r, r[id].1, sigma(), r[id].0) by {
        if id != e && id < c {
            assert(m.contains_key(id));
        }
    }
}

} // verus!
