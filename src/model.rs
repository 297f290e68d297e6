use vstd::prelude::*;

verus! {

/// An edge as the contracts see it: source vertex, target vertex, label.
pub type EdgeTriple = (u32, u32, Seq<char>);

/// The reserved label of an edge that points back to the parent.
pub open spec fn rho() -> Seq<char> {
    seq!['\u{3c1}']
}

/// The reserved label of an edge that points back to the copy source.
pub open spec fn sigma() -> Seq<char> {
    seq!['\u{3c3}']
}

/// The label is one of the two that the engine maintains itself.
pub open spec fn is_reserved(a: Seq<char>) -> bool {
    a == rho() || a == sigma()
}

/// An attribute edge out of a vertex other than the root is paired with
/// parent and copy edges that lead back from its target.
pub open spec fn needs_inverses(from: u32, a: Seq<char>) -> bool {
    !is_reserved(a) && from != 0
}

/// Some edge of `m` leads from `v` to `t` under label `a`.
pub open spec fn links(m: Map<u32, EdgeTriple>, v: u32, a: Seq<char>, t: u32) -> bool {
    exists|id: u32| #[trigger] m.contains_key(id) && m[id] == (v, t, a)
}

/// `m` without the edges that leave `v` under label `a`.
pub open spec fn unbind(m: Map<u32, EdgeTriple>, v: u32, a: Seq<char>) -> Map<u32, EdgeTriple> {
    m.restrict(m.dom().filter(|id: u32| !(m[id].0 == v && m[id].2 == a)))
}

/// `m` where edge `e` from `v` to `t` under `a` replaces whatever left `v` under `a`.
pub open spec fn put(m: Map<u32, EdgeTriple>, e: u32, v: u32, t: u32, a: Seq<char>) -> Map<
    u32,
    EdgeTriple,
> {
    unbind(m, v, a).insert(e, (v, t, a))
}

/// Every edge leads between known vertices.
pub open spec fn endpoints_known(vs: Set<u32>, m: Map<u32, EdgeTriple>) -> bool {
    forall|id: u32| #[trigger]
        m.contains_key(id) ==> vs.contains(m[id].0) && vs.contains(m[id].1)
}

/// No two edges leave one vertex under one label.
pub open spec fn labels_unique(m: Map<u32, EdgeTriple>) -> bool {
    forall|i: u32, j: u32|
        #[trigger] m.contains_key(i) && #[trigger] m.contains_key(j) && i != j ==> !(m[i].0
            == m[j].0 && m[i].2 == m[j].2)
}

/// Every attribute edge that needs them has its parent and copy edges.
pub open spec fn inverses_present(m: Map<u32, EdgeTriple>) -> bool {
    forall|id: u32| #[trigger]
        m.contains_key(id) && needs_inverses(m[id].0, m[id].2) ==> links(m, m[id].1, rho(), m[id].0)
            && links(m, m[id].1, sigma(), m[id].0)
}

/// The graph is well formed as an object model.
pub open spec fn consistent(vs: Set<u32>, m: Map<u32, EdgeTriple>) -> bool {
    endpoints_known(vs, m) && labels_unique(m) && inverses_present(m)
}

/// One more than the largest id an edge or a vertex can have.
pub const ID_LIMIT: u64 = 0x1_0000_0000;

/// The edge counter once edge `e` is placed: every edge id stays below it.
pub open spec fn counter_after(c: nat, e: u32) -> nat {
    if e < c {
        c
    } else {
        (e + 1) as nat
    }
}

/// Binding `v1 -a-> v2` in `m` has to install the parent edge `v2 -ρ-> v1`.
pub open spec fn needs_parent(m: Map<u32, EdgeTriple>, v1: u32, v2: u32, a: Seq<char>) -> bool {
    needs_inverses(v1, a) && !links(m, v2, rho(), v1)
}

/// Binding `v1 -a-> v2` in `m` has to install the copy edge `v2 -σ-> v1`.
pub open spec fn needs_copy(m: Map<u32, EdgeTriple>, v1: u32, v2: u32, a: Seq<char>) -> bool {
    needs_inverses(v1, a) && !links(m, v2, sigma(), v1)
}

/// The edge counter after binding edge `e` from `v1` to `v2` under `a`,
/// with `c` the counter before: each installed inverse takes the next id.
pub open spec fn bound_counter(
    m: Map<u32, EdgeTriple>,
    c: nat,
    e: u32,
    v1: u32,
    v2: u32,
    a: Seq<char>,
) -> nat {
    counter_after(c, e) + (if needs_parent(m, v1, v2, a) {
        1nat
    } else {
        0nat
    }) + (if needs_copy(m, v1, v2, a) {
        1nat
    } else {
        0nat
    })
}

/// The edges after binding edge `e` from `v1` to `v2` under `a`: the new
/// edge replaces the one that left `v1` under `a`, and the parent and copy
/// edges back from `v2` to `v1` that were missing are installed under fresh
/// ids, each replacing the one that left `v2` under its label.
pub open spec fn bound_edges(
    m: Map<u32, EdgeTriple>,
    c: nat,
    e: u32,
    v1: u32,
    v2: u32,
    a: Seq<char>,
) -> Map<u32, EdgeTriple> {
    let m1 = put(m, e, v1, v2, a);
    let c1 = counter_after(c, e);
    let m2 = if needs_parent(m, v1, v2, a) {
        put(m1, c1 as u32, v2, v1, rho())
    } else {
        m1
    };
    let c2 = if needs_parent(m, v1, v2, a) {
        c1 + 1
    } else {
        c1
    };
    if needs_copy(m, v1, v2, a) {
        put(m2, c2 as u32, v2, v1, sigma())
    } else {
        m2
    }
}

/// Binding `v1 -a-> v2` in `m` redirects no parent or copy edge that
/// another attribute edge of `m` relies on.
pub open spec fn keeps_parents(m: Map<u32, EdgeTriple>, v1: u32, v2: u32, a: Seq<char>) -> bool {
    if is_reserved(a) {
        forall|id: u32| #[trigger]
            m.contains_key(id) && needs_inverses(m[id].0, m[id].2) && m[id].1 == v1 ==> m[id].0 == v2
    } else {
        v1 != 0 ==> forall|id: u32| #[trigger]
            m.contains_key(id) && needs_inverses(m[id].0, m[id].2) && m[id].1 == v2 ==> m[id].0 == v1
    }
}

/// Each edge id of `m` is below `c`.
pub open spec fn ids_below(m: Map<u32, EdgeTriple>, c: nat) -> bool {
    forall|id: u32| #[trigger] m.contains_key(id) ==> id < c
}

/// What replacing the edge that leaves `v` under `a` by a fresh edge `e`
/// does to the graph.
pub proof fn lemma_put(m: Map<u32, EdgeTriple>, e: u32, v: u32, t: u32, a: Seq<char>)
    requires
        !m.contains_key(e),
        labels_unique(m),
    ensures
        labels_unique(put(m, e, v, t, a)),
        forall|x: u32, b: Seq<char>, y: u32|
            #[trigger] links(put(m, e, v, t, a), x, b, y) == (if x == v && b == a {
                y == t
            } else {
                links(m, x, b, y)
            }),
        forall|id: u32| #[trigger]
            put(m, e, v, t, a).contains_key(id) ==> (id == e && put(m, e, v, t, a)[id] == (v, t, a))
                || (id != e && m.contains_key(id) && put(m, e, v, t, a)[id] == m[id] && !(m[id].0
                == v && m[id].2 == a)),
{
    let p = put(m, e, v, t, a);
    assert forall|x: u32, b: Seq<char>, y: u32|
        #[trigger] links(p, x, b, y) == (if x == v && b == a {
            y == t
        } else {
            links(m, x, b, y)
        }) by {
        if x == v && b == a {
            if y == t {
                assert(p.contains_key(e) && p[e] == (x, y, b));
            } else if links(p, x, b, y) {
                let id = choose|id: u32| #[trigger] p.contains_key(id) && p[id] == (x, y, b);
                assert(id != e);
            }
        } else {
            if links(m, x, b, y) {
                let id = choose|id: u32| #[trigger] m.contains_key(id) && m[id] == (x, y, b);
                assert(p.contains_key(id) && p[id] == (x, y, b));
            }
            if links(p, x, b, y) {
                let id = choose|id: u32| #[trigger] p.contains_key(id) && p[id] == (x, y, b);
                assert(m.contains_key(id) && m[id] == (x, y, b));
            }
        }
    }
}

/// What a bind does to the graph: which label of which vertex leads where
/// afterwards, where each edge comes from, and that ids stay unique and
/// below the new counter.
pub proof fn lemma_bound(m: Map<u32, EdgeTriple>, c: nat, e: u32, v1: u32, v2: u32, a: Seq<char>)
    requires
        labels_unique(m),
        ids_below(m, c),
        !m.contains_key(e),
        bound_counter(m, c, e, v1, v2, a) <= ID_LIMIT,
    ensures
        labels_unique(bound_edges(m, c, e, v1, v2, a)),
        ids_below(bound_edges(m, c, e, v1, v2, a), bound_counter(m, c, e, v1, v2, a)),
        forall|x: u32, b: Seq<char>, y: u32|
            #[trigger] links(bound_edges(m, c, e, v1, v2, a), x, b, y) == (if x == v1 && b == a {
                y == v2
            } else if needs_inverses(v1, a) && x == v2 && (b == rho() || b == sigma()) {
                y == v1
            } else {
                links(m, x, b, y)
            }),
        forall|id: u32| #[trigger]
            bound_edges(m, c, e, v1, v2, a).contains_key(id) ==> {
                let r = bound_edges(m, c, e, v1, v2, a);
                ||| id == e && r[id] == (v1, v2, a)
                ||| c <= id && needs_inverses(v1, a) && (r[id] == (v2, v1, rho()) || r[id] == (
                    v2,
                    v1,
                    sigma(),
                ))
                ||| id != e && id < c && m.contains_key(id) && r[id] == m[id] && !(m[id].0 == v1
                    && m[id].2 == a)
            },
{
    let m1 = put(m, e, v1, v2, a);
    let c1 = counter_after(c, e);
    lemma_put(m, e, v1, v2, a);
    assert(ids_below(m1, c1));
    let np = needs_parent(m, v1, v2, a);
    let m2 = if np {
        put(m1, c1 as u32, v2, v1, rho())
    } else {
        m1
    };
    let c2 = if np {
        c1 + 1
    } else {
        c1
    };
    if np {
        lemma_put(m1, c1 as u32, v2, v1, rho());
    }
    assert(ids_below(m2, c2));
    if needs_copy(m, v1, v2, a) {
        lemma_put(m2, c2 as u32, v2, v1, sigma());
    }
    let r = bound_edges(m, c, e, v1, v2, a);
    assert(r == if needs_copy(m, v1, v2, a) {
        put(m2, c2 as u32, v2, v1, sigma())
    } else {
        m2
    });
    assert forall|x: u32, b: Seq<char>, y: u32|
        #[trigger] links(r, x, b, y) == (if x == v1 && b == a {
            y == v2
        } else if needs_inverses(v1, a) && x == v2 && (b == rho() || b == sigma()) {
            y == v1
        } else {
            links(m, x, b, y)
        }) by {
        assert(links(m2, x, b, y) == links(r, x, b, y) || (x == v2 && b == sigma()));
        if needs_inverses(v1, a) && x == v2 && b == rho() && !np {
            let w = choose|id: u32| #[trigger] m.contains_key(id) && m[id] == (v2, v1, rho());
            if links(m, x, b, y) {
                let z = choose|id: u32| #[trigger] m.contains_key(id) && m[id] == (x, y, b);
                assert(w == z);
            }
        }
        if needs_inverses(v1, a) && x == v2 && b == sigma() && !needs_copy(m, v1, v2, a) {
            let w = choose|id: u32| #[trigger] m.contains_key(id) && m[id] == (v2, v1, sigma());
            if links(m, x, b, y) {
                let z = choose|id: u32| #[trigger] m.contains_key(id) && m[id] == (x, y, b);
                assert(w == z);
            }
        }
    }
}

} // verus!
