use vstd::prelude::*;
use vstd::string::StringExecFns;
use crate::model::{
    bound_counter, bound_edges, counter_after, endpoints_known, labels_unique, links, needs_copy,
    needs_parent, consistent, inverses_present, needs_inverses, put, rho, sigma, unbind, EdgeTriple,
    ID_LIMIT,
};

verus! {

/// A directed, labeled edge between two vertices.
pub struct Edge {
    pub from: u32,
    pub to: u32,
    pub a: String,
}

impl Edge {
    pub open spec fn view(&self) -> EdgeTriple {
        (self.from, self.to, self.a@)
    }

    pub fn new(from: u32, to: u32, a: String) -> (r: Edge)
        ensures
            r@ == (from, to, a@),
    {
        Edge { from, to, a }
    }
}

/// What the universe refuses to do, and why.
#[derive(Debug)]
pub enum UniverseError {
    /// A bind was asked for with an empty label.
    EmptyLabel { from: u32, to: u32 },
    /// The vertex is not in the universe.
    VertexNotFound { vertex: u32 },
    /// An edge with this id is already in the universe.
    DuplicateEdgeId { edge: u32 },
    /// No edge leaves `from` under `label`.
    EdgeNotFound { from: u32, label: String },
    /// The vertex is already in the universe.
    VertexExists { vertex: u32 },
    /// Every edge id that could be minted is taken.
    EdgeIdsExhausted,
}

/// A violation of the object model that the consistency check reports.
#[derive(Debug)]
pub enum Inconsistency {
    /// Edge `edge` touches `vertex`, which is not in the universe.
    LostVertex { edge: u32, vertex: u32 },
    /// Edges `first` and `second` leave one vertex under one label.
    SharedLabel { first: u32, second: u32 },
    /// Attribute edge `edge` has no parent edge back from its target.
    NoParent { edge: u32 },
    /// Attribute edge `edge` has no copy edge back from its target.
    NoCopy { edge: u32 },
}

/// Finding `f` is true of the graph with vertices `vs` and edges `m`.
pub open spec fn finding_holds(vs: Set<u32>, m: Map<u32, EdgeTriple>, f: Inconsistency) -> bool {
    match f {
        Inconsistency::LostVertex { edge, vertex } => m.contains_key(edge) && (m[edge].0 == vertex
            || m[edge].1 == vertex) && !vs.contains(vertex),
        Inconsistency::SharedLabel { first, second } => m.contains_key(first) && m.contains_key(
            second,
        ) && first != second && m[first].0 == m[second].0 && m[first].2 == m[second].2,
        Inconsistency::NoParent { edge } => m.contains_key(edge) && needs_inverses(
            m[edge].0,
            m[edge].2,
        ) && !links(m, m[edge].1, rho(), m[edge].0),
        Inconsistency::NoCopy { edge } => m.contains_key(edge) && needs_inverses(
            m[edge].0,
            m[edge].2,
        ) && !links(m, m[edge].1, sigma(), m[edge].0),
    }
}

/// The stored edge at index `p` of `s` is sound: its ends are in `vs`, no
/// later edge shares its source and label, and its inverses are in `m`.
pub open spec fn entry_sound(
    vs: Set<u32>,
    m: Map<u32, EdgeTriple>,
    s: Seq<(u32, Edge)>,
    p: int,
) -> bool {
    &&& vs.contains(s[p].1.from)
    &&& vs.contains(s[p].1.to)
    &&& forall|q: int| p < q < s.len() ==> !(s[p].1.from == #[trigger] s[q].1.from && s[p].1.a@ == s[q].1.a@)
    &&& needs_inverses(s[p].1.from, s[p].1.a@) ==> links(m, s[p].1.to, rho(), s[p].1.from) && links(
        m,
        s[p].1.to,
        sigma(),
        s[p].1.from,
    )
}

/// The character of decimal digit `d`.
pub open spec fn digit_char(d: nat) -> char {
    seq!['0', '1', '2', '3', '4', '5', '6', '7', '8', '9'][d as int]
}

/// The decimal digits of `n`, most significant first, with no leading zero.
pub open spec fn decimal_digits(n: nat) -> Seq<char>
    decreases n,
{
    if n < 10 {
        seq![digit_char(n)]
    } else {
        decimal_digits(n / 10).push(digit_char(n % 10))
    }
}

/// Relies on `u32::to_string` (through `Display`): the decimal form of `n`.
#[verifier::external_body]
fn decimal(n: u32) -> (r: String)
    ensures
        r@ == decimal_digits(n as nat),
{
    n.to_string()
}

/// How a finding reads, with `ε` before an edge id and `ν` before a vertex id.
pub open spec fn finding_text(f: Inconsistency) -> Seq<char> {
    match f {
        Inconsistency::LostVertex { edge, vertex } => "edge \u{3b5}"@ + decimal_digits(edge as nat)
            + " touches \u{3bd}"@ + decimal_digits(vertex as nat) + ", which is not in the universe"@,
        Inconsistency::SharedLabel { first, second } => "edges \u{3b5}"@ + decimal_digits(
            first as nat,
        ) + " and \u{3b5}"@ + decimal_digits(second as nat) + " leave one vertex under one label"@,
        Inconsistency::NoParent { edge } => "edge \u{3b5}"@ + decimal_digits(edge as nat)
            + " has no \u{3c1} edge back to its source"@,
        Inconsistency::NoCopy { edge } => "edge \u{3b5}"@ + decimal_digits(edge as nat)
            + " has no \u{3c3} edge back to its source"@,
    }
}

impl Inconsistency {
    /// The finding as a sentence.
    pub fn text(&self) -> (r: String)
        ensures
            r@ == finding_text(*self),
    {
        match self {
            Inconsistency::LostVertex { edge, vertex } => {
                let mut s = String::from_str("edge \u{3b5}");
                s.append(decimal(*edge).as_str());
                s.append(" touches \u{3bd}");
                s.append(decimal(*vertex).as_str());
                s.append(", which is not in the universe");
                s
            },
            Inconsistency::SharedLabel { first, second } => {
                let mut s = String::from_str("edges \u{3b5}");
                s.append(decimal(*first).as_str());
                s.append(" and \u{3b5}");
                s.append(decimal(*second).as_str());
                s.append(" leave one vertex under one label");
                s
            },
            Inconsistency::NoParent { edge } => {
                let mut s = String::from_str("edge \u{3b5}");
                s.append(decimal(*edge).as_str());
                s.append(" has no \u{3c1} edge back to its source");
                s
            },
            Inconsistency::NoCopy { edge } => {
                let mut s = String::from_str("edge \u{3b5}");
                s.append(decimal(*edge).as_str());
                s.append(" has no \u{3c3} edge back to its source");
                s
            },
        }
    }
}

/// The map from edge id to edge that a sequence of stored edges describes.
pub open spec fn table_of(s: Seq<(u32, Edge)>) -> Map<u32, EdgeTriple>
    decreases s.len(),
{
    if s.len() == 0 {
        Map::empty()
    } else {
        table_of(s.drop_last()).insert(s.last().0, s.last().1@)
    }
}

pub open spec fn ids_unique(s: Seq<(u32, Edge)>) -> bool {
    forall|i: int, j: int| 0 <= i < j < s.len() ==> s[i].0 != s[j].0
}

proof fn lemma_table(s: Seq<(u32, Edge)>)
    requires
        ids_unique(s),
    ensures
        forall|i: int|
            0 <= i < s.len() ==> table_of(s).contains_key(#[trigger] s[i].0) && table_of(s)[s[i].0]
                == s[i].1@,
        forall|id: u32| #[trigger]
            table_of(s).contains_key(id) ==> exists|i: int| 0 <= i < s.len() && s[i].0 == id,
    decreases s.len(),
{
    if s.len() > 0 {
        let p = s.drop_last();
        lemma_table(p);
        assert(table_of(s) == table_of(p).insert(s.last().0, s.last().1@));
        assert forall|i: int| 0 <= i < s.len() implies table_of(s).contains_key(#[trigger] s[i].0)
            && table_of(s)[s[i].0] == s[i].1@ by {
            if i < s.len() - 1 {
                assert(p[i] == s[i]);
            }
        }
        assert forall|id: u32| #[trigger]
            table_of(s).contains_key(id) implies exists|i: int| 0 <= i < s.len() && s[i].0 == id by {
            if id != s.last().0 {
                assert(table_of(p).contains_key(id));
                let i = choose|i: int| 0 <= i < p.len() && p[i].0 == id;
                assert(s[i] == p[i]);
            } else {
                assert(s[s.len() - 1].0 == id);
            }
        }
    }
}

proof fn lemma_table_remove(s: Seq<(u32, Edge)>, i: int)
    requires
        ids_unique(s),
        0 <= i < s.len(),
    ensures
        ids_unique(s.remove(i)),
        table_of(s.remove(i)) == table_of(s).remove(s[i].0),
{
    let r = s.remove(i);
    assert forall|a: int, b: int| 0 <= a < b < r.len() implies r[a].0 != r[b].0 by {
        let a2 = if a < i { a } else { a + 1 };
        let b2 = if b < i { b } else { b + 1 };
        assert(r[a] == s[a2] && r[b] == s[b2]);
    }
    lemma_table(s);
    lemma_table(r);
    assert forall|id: u32| #[trigger] table_of(r).contains_key(id) <==> table_of(s).remove(
        s[i].0,
    ).contains_key(id) by {
        if table_of(r).contains_key(id) {
            let k = choose|k: int| 0 <= k < r.len() && r[k].0 == id;
            let k2 = if k < i { k } else { k + 1 };
            assert(r[k] == s[k2]);
        }
        if table_of(s).contains_key(id) && id != s[i].0 {
            let k = choose|k: int| 0 <= k < s.len() && s[k].0 == id;
            let k2 = if k < i { k } else { k - 1 };
            assert(r[k2] == s[k]);
        }
    }
    assert forall|id: u32| #[trigger] table_of(r).contains_key(id) implies table_of(r)[id]
        == table_of(s)[id] by {
        let k = choose|k: int| 0 <= k < r.len() && r[k].0 == id;
        let k2 = if k < i { k } else { k + 1 };
        assert(r[k] == s[k2]);
    }
    assert(table_of(r) =~= table_of(s).remove(s[i].0));
}

proof fn lemma_table_push(s: Seq<(u32, Edge)>, x: (u32, Edge))
    ensures
        table_of(s.push(x)) == table_of(s).insert(x.0, x.1@),
{
    assert(s.push(x).drop_last() == s);
}

/// The object graph: known vertices, and edges addressed by their own ids.
pub struct Universe {
    vertices: Vec<u32>,
    edges: Vec<(u32, Edge)>,
    next_vertex: u64,
    next_edge: u64,
}

impl Universe {
    /// The vertices of the universe.
    pub closed spec fn vertex_set(&self) -> Set<u32> {
        self.vertices@.to_set()
    }

    /// The edges of the universe, by id.
    pub closed spec fn edge_map(&self) -> Map<u32, EdgeTriple> {
        table_of(self.edges@)
    }

    /// The id that the edge counter hands out next; every edge id is below it.
    pub closed spec fn edge_counter(&self) -> nat {
        self.next_edge as nat
    }

    /// The id that the vertex counter hands out next; every vertex id is below it.
    pub closed spec fn vertex_counter(&self) -> nat {
        self.next_vertex as nat
    }

    /// The stored edges have distinct ids below the edge counter, vertex ids
    /// are below the vertex counter, every edge leads between known vertices,
    /// and no two edges leave one vertex under one label.
    pub closed spec fn wf(&self) -> bool {
        &&& ids_unique(self.edges@)
        &&& self.next_edge <= ID_LIMIT
        &&& self.next_vertex <= ID_LIMIT
        &&& forall|i: int| 0 <= i < self.edges@.len() ==> #[trigger] self.edges@[i].0 < self.next_edge
        &&& forall|i: int| 0 <= i < self.vertices@.len() ==> #[trigger] self.vertices@[i] < self.next_vertex
        &&& endpoints_known(self.vertex_set(), self.edge_map())
        &&& labels_unique(self.edge_map())
    }

    /// A bind of edge `e` from `v1` to `v2` under `a` goes through: the label
    /// is not empty, both vertices are known, the id is free, and there are
    /// ids left for the inverse edges.
    pub open spec fn bind_allowed(&self, e: u32, v1: u32, v2: u32, a: Seq<char>) -> bool {
        &&& a.len() > 0
        &&& self.vertex_set().contains(v1)
        &&& self.vertex_set().contains(v2)
        &&& !self.edge_map().contains_key(e)
        &&& bound_counter(self.edge_map(), self.edge_counter(), e, v1, v2, a) <= ID_LIMIT
    }

    /// What a well-formed universe guarantees of its graph and counters.
    pub proof fn lemma_wf(&self)
        requires
            self.wf(),
        ensures
            endpoints_known(self.vertex_set(), self.edge_map()),
            labels_unique(self.edge_map()),
            self.edge_counter() <= ID_LIMIT,
            self.vertex_counter() <= ID_LIMIT,
            forall|id: u32| #[trigger] self.edge_map().contains_key(id) ==> id < self.edge_counter(),
            forall|v: u32| #[trigger] self.vertex_set().contains(v) ==> v < self.vertex_counter(),
    {
        lemma_table(self.edges@);
    }

    /// A universe with no vertices and no edges. Both counters start at 1:
    /// vertex 0 is left for the root.
    pub fn empty() -> (u: Universe)
        ensures
            u.wf(),
            u.vertex_set() == Set::<u32>::empty(),
            u.edge_map() == Map::<u32, EdgeTriple>::empty(),
            consistent(u.vertex_set(), u.edge_map()),
            u.edge_counter() == 1,
            u.vertex_counter() == 1,
    {
        let u = Universe { vertices: Vec::new(), edges: Vec::new(), next_vertex: 1, next_edge: 1 };
        assert(u.vertex_set() =~= Set::<u32>::empty());
        u
    }

    /// Whether vertex `v` is in the universe.
    pub fn has_vertex(&self, v: u32) -> (r: bool)
        requires
            self.wf(),
        ensures
            r == self.vertex_set().contains(v),
    {
        let mut i: usize = 0;
        while i < self.vertices.len()
            invariant
                i <= self.vertices@.len(),
                forall|k: int| 0 <= k < i ==> self.vertices@[k] != v,
            decreases self.vertices@.len() - i,
        {
            if self.vertices[i] == v {
                assert(self.vertices@.contains(v));
                return true;
            }
            i = i + 1;
        }
        false
    }

    /// Adds vertex `v`; fails when it is already there.
    pub fn add(&mut self, v: u32) -> (r: Result<(), UniverseError>)
        requires
            old(self).wf(),
        ensures
            final(self).wf(),
            final(self).edge_map() == old(self).edge_map(),
            final(self).edge_counter() == old(self).edge_counter(),
            old(self).vertex_set().contains(v) ==> r == Err::<(), UniverseError>(
                UniverseError::VertexExists { vertex: v },
            ) && *final(self) == *old(self),
            !old(self).vertex_set().contains(v) ==> r is Ok && final(self).vertex_set()
                == old(self).vertex_set().insert(v) && final(self).vertex_counter() == (if v
                < old(self).vertex_counter() {
                old(self).vertex_counter()
            } else {
                (v + 1) as nat
            }),
    {
        if self.has_vertex(v) {
            return Err(UniverseError::VertexExists { vertex: v });
        }
        let ghost before = self.vertices@;
        self.vertices.push(v);
        if v as u64 >= self.next_vertex {
            self.next_vertex = v as u64 + 1;
        }
        assert(self.vertices@.to_set() =~= before.to_set().insert(v)) by {
            assert forall|x: u32| self.vertices@.contains(x) <==> before.contains(x) || x == v by {
                if before.contains(x) {
                    let k = choose|k: int| 0 <= k < before.len() && before[k] == x;
                    assert(self.vertices@[k] == x);
                }
                if self.vertices@.contains(x) && x != v {
                    let k = choose|k: int| 0 <= k < self.vertices@.len() && self.vertices@[k] == x;
                    assert(before[k] == x);
                }
                if x == v {
                    assert(self.vertices@[before.len() as int] == v);
                }
            }
        }
        Ok(())
    }

    /// A vertex id that is not taken, if the counter has one left.
    pub fn next_v(&self) -> (r: Option<u32>)
        requires
            self.wf(),
        ensures
            r == (if self.vertex_counter() < ID_LIMIT {
                Some(self.vertex_counter() as u32)
            } else {
                None::<u32>
            }),
            r matches Some(v) ==> !self.vertex_set().contains(v),
    {
        proof {
            self.lemma_wf();
        }
        if self.next_vertex < ID_LIMIT {
            Some(self.next_vertex as u32)
        } else {
            None
        }
    }

    /// An edge id that is not taken, if the counter has one left.
    pub fn next_e(&self) -> (r: Option<u32>)
        requires
            self.wf(),
        ensures
            r == (if self.edge_counter() < ID_LIMIT {
                Some(self.edge_counter() as u32)
            } else {
                None::<u32>
            }),
            r matches Some(e) ==> !self.edge_map().contains_key(e),
    {
        proof {
            self.lemma_wf();
        }
        if self.next_edge < ID_LIMIT {
            Some(self.next_edge as u32)
        } else {
            None
        }
    }

    /// Whether an edge with id `e` is in the universe.
    fn has_edge_id(&self, e: u32) -> (r: bool)
        requires
            self.wf(),
        ensures
            r == self.edge_map().contains_key(e),
    {
        proof {
            lemma_table(self.edges@);
        }
        let mut i: usize = 0;
        while i < self.edges.len()
            invariant
                self.wf(),
                i <= self.edges@.len(),
                forall|k: int| 0 <= k < i ==> (#[trigger] self.edges@[k]).0 != e,
            decreases self.edges@.len() - i,
        {
            if self.edges[i].0 == e {
                proof {
                    lemma_table(self.edges@);
                    assert(self.edge_map().contains_key(self.edges@[i as int].0));
                }
                return true;
            }
            i = i + 1;
        }
        false
    }

    /// Where the edge that leaves `v` under `a` is stored, if there is one.
    fn position(&self, v: u32, a: &String) -> (r: Option<usize>)
        ensures
            r matches Some(i) ==> i < self.edges@.len() && self.edges@[i as int].1.from == v
                && self.edges@[i as int].1.a@ == a@,
            r is None ==> forall|k: int|
                0 <= k < self.edges@.len() ==> !((#[trigger] self.edges@[k]).1.from == v
                    && self.edges@[k].1.a@ == a@),
    {
        let mut i: usize = 0;
        while i < self.edges.len()
            invariant
                i <= self.edges@.len(),
                forall|k: int|
                    0 <= k < i ==> !((#[trigger] self.edges@[k]).1.from == v && self.edges@[k].1.a@
                        == a@),
            decreases self.edges@.len() - i,
        {
            if self.edges[i].1.from == v && self.edges[i].1.a == *a {
                return Some(i);
            }
            i = i + 1;
        }
        None
    }

    /// Whether some edge leads from `v` to `t` under label `a`.
    fn links_to(&self, v: u32, a: &String, t: u32) -> (r: bool)
        requires
            self.wf(),
        ensures
            r == links(self.edge_map(), v, a@, t),
    {
        proof {
            lemma_table(self.edges@);
        }
        match self.position(v, a) {
            Some(i) => {
                let r = self.edges[i].1.to == t;
                proof {
                    let m = self.edge_map();
                    let id = self.edges@[i as int].0;
                    assert(m.contains_key(id));
                    if !r {
                        assert forall|j: u32| #[trigger] m.contains_key(j) implies m[j] != (v, t, a@) by {
                            if j != id && m[j] == (v, t, a@) {
                                assert(!(m[id].0 == m[j].0 && m[id].2 == m[j].2));
                            }
                        }
                    }
                }
                r
            },
            None => {
                proof {
                    let m = self.edge_map();
                    assert forall|j: u32| #[trigger] m.contains_key(j) implies m[j] != (v, t, a@) by {
                        let k = choose|k: int| 0 <= k < self.edges@.len() && self.edges@[k].0 == j;
                        assert(m[j] == self.edges@[k].1@);
                    }
                }
                false
            },
        }
    }

    /// The target of the edge that leaves `v` under label `a`, if there is one.
    fn target(&self, v: u32, a: &String) -> (r: Option<u32>)
        requires
            self.wf(),
        ensures
            r matches Some(t) ==> links(self.edge_map(), v, a@, t) && forall|y: u32|
                links(self.edge_map(), v, a@, y) ==> y == t,
            r is None ==> forall|t: u32| !links(self.edge_map(), v, a@, t),
    {
        proof {
            lemma_table(self.edges@);
        }
        match self.position(v, a) {
            Some(i) => {
                let t = self.edges[i].1.to;
                proof {
                    let m = self.edge_map();
                    let id = self.edges@[i as int].0;
                    assert(m.contains_key(id) && m[id] == (v, t, a@));
                    assert forall|y: u32| links(m, v, a@, y) implies y == t by {
                        let j = choose|j: u32| #[trigger] m.contains_key(j) && m[j] == (v, y, a@);
                        if j != id {
                            assert(!(m[id].0 == m[j].0 && m[id].2 == m[j].2));
                        }
                    }
                }
                Some(t)
            },
            None => {
                proof {
                    let m = self.edge_map();
                    assert forall|t: u32| !links(m, v, a@, t) by {
                        assert forall|j: u32| #[trigger] m.contains_key(j) implies m[j] != (v, t, a@) by {
                            let k = choose|k: int| 0 <= k < self.edges@.len() && self.edges@[k].0 == j;
                            assert(m[j] == self.edges@[k].1@);
                        }
                    }
                }
                None
            },
        }
    }

    /// The target of the edge that leaves `v` under label `a`, if there is one.
    pub fn edge(&self, v: u32, a: &str) -> (r: Option<u32>)
        requires
            self.wf(),
        ensures
            r matches Some(t) ==> links(self.edge_map(), v, a@, t) && forall|y: u32|
                links(self.edge_map(), v, a@, y) ==> y == t,
            r is None ==> forall|t: u32| !links(self.edge_map(), v, a@, t),
    {
        let label = a.to_owned();
        self.target(v, &label)
    }

    /// Resolves attribute `a` of vertex `v` to the vertex it leads to.
    pub fn find(&self, v: u32, a: &str) -> (r: Result<u32, UniverseError>)
        requires
            self.wf(),
        ensures
            r matches Ok(t) ==> links(self.edge_map(), v, a@, t) && forall|y: u32|
                links(self.edge_map(), v, a@, y) ==> y == t,
            r is Err <==> forall|t: u32| !links(self.edge_map(), v, a@, t),
            r matches Err(e) ==> e matches UniverseError::EdgeNotFound { from, label } && from == v
                && label@ == a@,
    {
        let label = a.to_owned();
        match self.target(v, &label) {
            Some(t) => Ok(t),
            None => Err(UniverseError::EdgeNotFound { from: v, label }),
        }
    }

    /// Stores edge `e` from `v` to `t` under `a`, in place of the edge that
    /// left `v` under `a` before.
    fn put_edge(&mut self, e: u32, v: u32, t: u32, a: String)
        requires
            old(self).wf(),
            !old(self).edge_map().contains_key(e),
            old(self).vertex_set().contains(v),
            old(self).vertex_set().contains(t),
        ensures
            final(self).wf(),
            final(self).edge_map() == put(old(self).edge_map(), e, v, t, a@),
            final(self).vertices == old(self).vertices,
            final(self).next_vertex == old(self).next_vertex,
            final(self).next_edge == (if (e as u64) < old(self).next_edge {
                old(self).next_edge
            } else {
                (e + 1) as u64
            }),
    {
        let ghost m0 = self.edge_map();
        proof {
            lemma_table(self.edges@);
        }
        match self.position(v, &a) {
            Some(i) => {
                let ghost s0 = self.edges@;
                let ghost id = s0[i as int].0;
                self.edges.remove(i);
                proof {
                    lemma_table_remove(s0, i as int);
                    assert(m0.contains_key(id));
                    assert forall|j: u32| #[trigger] m0.contains_key(j) && j != id implies !(m0[j].0 == v
                        && m0[j].2 == a@) by {
                        assert(!(m0[id].0 == m0[j].0 && m0[id].2 == m0[j].2));
                    }
                    assert(unbind(m0, v, a@) =~= m0.remove(id));
                }
            },
            None => {
                proof {
                    assert forall|j: u32| #[trigger] m0.contains_key(j) implies !(m0[j].0 == v && m0[j].2
                        == a@) by {
                        let k = choose|k: int| 0 <= k < self.edges@.len() && self.edges@[k].0 == j;
                        assert(m0[j] == self.edges@[k].1@);
                    }
                    assert(unbind(m0, v, a@) =~= m0);
                }
            },
        }
        let ghost s1 = self.edges@;
        let ghost a_view = a@;
        proof {
            lemma_table(s1);
        }
        self.edges.push((e, Edge::new(v, t, a)));
        if e as u64 >= self.next_edge {
            self.next_edge = e as u64 + 1;
        }
        proof {
            let s2 = self.edges@;
            lemma_table_push(s1, s2.last());
            assert(s2.drop_last() == s1);
            assert forall|p: int, q: int| 0 <= p < q < s2.len() implies s2[p].0 != s2[q].0 by {
                if q == s2.len() - 1 {
                    assert(s1[p] == s2[p]);
                    assert(table_of(s1).contains_key(s1[p].0));
                } else {
                    assert(s1[p] == s2[p] && s1[q] == s2[q]);
                }
            }
            assert forall|k: int| 0 <= k < s2.len() implies #[trigger] s2[k].0 < self.next_edge by {
                if k < s2.len() - 1 {
                    assert(s1[k] == s2[k]);
                    assert(table_of(s1).contains_key(s1[k].0));
                    assert(m0.contains_key(s1[k].0));
                }
            }
            let m2 = self.edge_map();
            assert(m2 == put(m0, e, v, t, a_view));
            assert forall|i: u32, j: u32| #[trigger] m2.contains_key(i) && #[trigger] m2.contains_key(j)
                && i != j implies !(m2[i].0 == m2[j].0 && m2[i].2 == m2[j].2) by {
                if i != e && j != e {
                    assert(m0.contains_key(i) && m0.contains_key(j));
                }
            }
            assert forall|id: u32| #[trigger] m2.contains_key(id) implies self.vertex_set().contains(
                m2[id].0,
            ) && self.vertex_set().contains(m2[id].1) by {
                if id != e {
                    assert(m0.contains_key(id));
                }
            }
        }
    }

    /// Makes edge `e1` from vertex `v1` to vertex `v2` with label `a`, in
    /// place of the edge that left `v1` under `a` before. Unless the label is
    /// `ρ` or `σ`, or `v1` is the root, it also makes the edges `v2 -ρ-> v1`
    /// and `v2 -σ-> v1` where they are missing. Either all of it happens or
    /// nothing does.
    pub fn bind(&mut self, e1: u32, v1: u32, v2: u32, a: &str) -> (r: Result<(), UniverseError>)
        requires
            old(self).wf(),
        ensures
            final(self).wf(),
            final(self).vertex_set() == old(self).vertex_set(),
            final(self).vertex_counter() == old(self).vertex_counter(),
            r is Ok <==> old(self).bind_allowed(e1, v1, v2, a@),
            r is Err ==> *final(self) == *old(self),
            a@.len() == 0 ==> r == Err::<(), UniverseError>(
                UniverseError::EmptyLabel { from: v1, to: v2 },
            ),
            a@.len() > 0 && !old(self).vertex_set().contains(v1) ==> r == Err::<(), UniverseError>(
                UniverseError::VertexNotFound { vertex: v1 },
            ),
            a@.len() > 0 && old(self).vertex_set().contains(v1) && !old(self).vertex_set().contains(
                v2,
            ) ==> r == Err::<(), UniverseError>(UniverseError::VertexNotFound { vertex: v2 }),
            a@.len() > 0 && old(self).vertex_set().contains(v1) && old(self).vertex_set().contains(v2)
                && old(self).edge_map().contains_key(e1) ==> r == Err::<(), UniverseError>(
                UniverseError::DuplicateEdgeId { edge: e1 },
            ),
            a@.len() > 0 && old(self).vertex_set().contains(v1) && old(self).vertex_set().contains(v2)
                && !old(self).edge_map().contains_key(e1) && !old(self).bind_allowed(e1, v1, v2, a@)
                ==> r == Err::<(), UniverseError>(UniverseError::EdgeIdsExhausted),
            r is Ok ==> final(self).edge_map() == bound_edges(
                old(self).edge_map(),
                old(self).edge_counter(),
                e1,
                v1,
                v2,
                a@,
            ) && final(self).edge_counter() == bound_counter(
                old(self).edge_map(),
                old(self).edge_counter(),
                e1,
                v1,
                v2,
                a@,
            ),
    {
        if a.is_empty() {
            return Err(UniverseError::EmptyLabel { from: v1, to: v2 });
        }
        if !self.has_vertex(v1) {
            return Err(UniverseError::VertexNotFound { vertex: v1 });
        }
        if !self.has_vertex(v2) {
            return Err(UniverseError::VertexNotFound { vertex: v2 });
        }
        if self.has_edge_id(e1) {
            return Err(UniverseError::DuplicateEdgeId { edge: e1 });
        }
        let label = a.to_owned();
        let parent = "\u{3c1}".to_owned();
        let copy = "\u{3c3}".to_owned();
        proof {
            reveal_strlit("\u{3c1}");
            reveal_strlit("\u{3c3}");
            assert(parent@ == rho());
            assert(copy@ == sigma());
            self.lemma_wf();
        }
        let attribute = !(label == parent) && !(label == copy) && v1 != 0;
        let need_parent = attribute && !self.links_to(v2, &parent, v1);
        let need_copy = attribute && !self.links_to(v2, &copy, v1);
        let first: u64 = if (e1 as u64) < self.next_edge {
            self.next_edge
        } else {
            e1 as u64 + 1
        };
        let mut last: u64 = first;
        if need_parent {
            last = last + 1;
        }
        if need_copy {
            last = last + 1;
        }
        if last > ID_LIMIT {
            return Err(UniverseError::EdgeIdsExhausted);
        }
        self.put_edge(e1, v1, v2, label);
        if need_parent {
            let e2 = self.next_edge as u32;
            proof {
                self.lemma_wf();
            }
            self.put_edge(e2, v2, v1, parent);
        }
        if need_copy {
            let e3 = self.next_edge as u32;
            proof {
                self.lemma_wf();
            }
            self.put_edge(e3, v2, v1, copy);
        }
        Ok(())
    }

    /// Every violation of the object model found in the graph: none exactly
    /// when the graph is consistent.
    pub fn inconsistencies(&self) -> (r: Vec<Inconsistency>)
        requires
            self.wf(),
        ensures
            r@.len() == 0 <==> consistent(self.vertex_set(), self.edge_map()),
            forall|k: int|
                0 <= k < r@.len() ==> finding_holds(self.vertex_set(), self.edge_map(), #[trigger] r@[k]),
            forall|id: u32|
                #![trigger self.edge_map().contains_key(id)]
                self.edge_map().contains_key(id) && needs_inverses(
                    self.edge_map()[id].0,
                    self.edge_map()[id].2,
                ) && !links(self.edge_map(), self.edge_map()[id].1, rho(), self.edge_map()[id].0)
                    ==> r@.contains(Inconsistency::NoParent { edge: id }),
            forall|id: u32|
                #![trigger self.edge_map().contains_key(id)]
                self.edge_map().contains_key(id) && needs_inverses(
                    self.edge_map()[id].0,
                    self.edge_map()[id].2,
                ) && !links(self.edge_map(), self.edge_map()[id].1, sigma(), self.edge_map()[id].0)
                    ==> r@.contains(Inconsistency::NoCopy { edge: id }),
    {
        let ghost vs = self.vertex_set();
        let ghost m = self.edge_map();
        let ghost s = self.edges@;
        let parent = "\u{3c1}".to_owned();
        let copy = "\u{3c3}".to_owned();
        proof {
            reveal_strlit("\u{3c1}");
            reveal_strlit("\u{3c3}");
            lemma_table(s);
        }
        let mut r: Vec<Inconsistency> = Vec::new();
        let n = self.edges.len();
        let mut i: usize = 0;
        while i < n
            invariant
                self.wf(),
                vs == self.vertex_set(),
                m == self.edge_map(),
                s == self.edges@,
                n == s.len(),
                parent@ == rho(),
                copy@ == sigma(),
                i <= n,
                forall|k: int| 0 <= k < r@.len() ==> finding_holds(vs, m, #[trigger] r@[k]),
                r@.len() == 0 ==> forall|p: int| 0 <= p < i ==> entry_sound(vs, m, s, p),
                forall|p: int|
                    0 <= p < i && needs_inverses(s[p].1.from, s[p].1.a@) && !links(
                        m,
                        s[p].1.to,
                        rho(),
                        s[p].1.from,
                    ) ==> r@.contains(Inconsistency::NoParent { edge: #[trigger] s[p].0 }),
                forall|p: int|
                    0 <= p < i && needs_inverses(s[p].1.from, s[p].1.a@) && !links(
                        m,
                        s[p].1.to,
                        sigma(),
                        s[p].1.from,
                    ) ==> r@.contains(Inconsistency::NoCopy { edge: #[trigger] s[p].0 }),
            decreases n - i,
        {
            proof {
                lemma_table(s);
            }
            let id = self.edges[i].0;
            let from = self.edges[i].1.from;
            let to = self.edges[i].1.to;
            assert(m.contains_key(s[i as int].0));
            assert(m[id] == s[i as int].1@);
            if !self.has_vertex(from) {
                r.push(Inconsistency::LostVertex { edge: id, vertex: from });
            }
            if !self.has_vertex(to) {
                r.push(Inconsistency::LostVertex { edge: id, vertex: to });
            }
            let mut j: usize = i + 1;
            while j < n
                invariant
                    self.wf(),
                    vs == self.vertex_set(),
                    m == self.edge_map(),
                    s == self.edges@,
                    n == s.len(),
                    i < j <= n,
                    id == s[i as int].0,
                    from == s[i as int].1.from,
                    to == s[i as int].1.to,
                    r@.len() == 0 ==> vs.contains(from) && vs.contains(to),
                    r@.len() == 0 ==> forall|p: int| 0 <= p < i ==> entry_sound(vs, m, s, p),
                    forall|p: int|
                        0 <= p < i && needs_inverses(s[p].1.from, s[p].1.a@) && !links(
                            m,
                            s[p].1.to,
                            rho(),
                            s[p].1.from,
                        ) ==> r@.contains(Inconsistency::NoParent { edge: #[trigger] s[p].0 }),
                    forall|p: int|
                        0 <= p < i && needs_inverses(s[p].1.from, s[p].1.a@) && !links(
                            m,
                            s[p].1.to,
                            sigma(),
                            s[p].1.from,
                        ) ==> r@.contains(Inconsistency::NoCopy { edge: #[trigger] s[p].0 }),
                    forall|k: int| 0 <= k < r@.len() ==> finding_holds(vs, m, #[trigger] r@[k]),
                    r@.len() == 0 ==> forall|q: int|
                        i < q < j ==> !(s[i as int].1.from == #[trigger] s[q].1.from && s[i as int].1.a@
                            == s[q].1.a@),
                decreases n - j,
            {
                if self.edges[j].1.from == from && self.edges[j].1.a == self.edges[i].1.a {
                    proof {
                        lemma_table(s);
                        assert(m.contains_key(s[j as int].0));
                        assert(m.contains_key(s[i as int].0));
                        assert(s[i as int].0 != s[j as int].0);
                    }
                    r.push(Inconsistency::SharedLabel { first: id, second: self.edges[j].0 });
                }
                j = j + 1;
            }
            let ghost before = r@;
            if !(self.edges[i].1.a == parent) && !(self.edges[i].1.a == copy) && from != 0 {
                if !self.links_to(to, &parent, from) {
                    r.push(Inconsistency::NoParent { edge: id });
                    assert(r@[r@.len() - 1] == Inconsistency::NoParent { edge: id });
                }
                let ghost middle = r@;
                proof {
                    if !links(m, to, rho(), from) {
                        assert(middle[middle.len() - 1] == Inconsistency::NoParent { edge: id });
                        assert(middle.contains(Inconsistency::NoParent { edge: id }));
                    }
                }
                if !self.links_to(to, &copy, from) {
                    r.push(Inconsistency::NoCopy { edge: id });
                    assert(r@[r@.len() - 1] == Inconsistency::NoCopy { edge: id });
                }
                proof {
                    assert forall|x: Inconsistency| middle.contains(x) implies r@.contains(x) by {
                        let k = choose|k: int| 0 <= k < middle.len() && middle[k] == x;
                        assert(r@[k] == middle[k]);
                    }
                    if !links(m, to, rho(), from) {
                        assert(r@.contains(Inconsistency::NoParent { edge: id }));
                    }
                }
            }
            proof {
                assert forall|x: Inconsistency| before.contains(x) implies r@.contains(x) by {
                    let k = choose|k: int| 0 <= k < before.len() && before[k] == x;
                    assert(r@[k] == before[k]);
                }
            }
            i = i + 1;
        }
        proof {
            lemma_table(s);
            assert forall|id: u32|
                #![trigger m.contains_key(id)]
                m.contains_key(id) && needs_inverses(m[id].0, m[id].2) && !links(
                    m,
                    m[id].1,
                    rho(),
                    m[id].0,
                ) implies r@.contains(Inconsistency::NoParent { edge: id }) by {
                let p = choose|p: int| 0 <= p < s.len() && s[p].0 == id;
                assert(m[s[p].0] == s[p].1@);
            }
            assert forall|id: u32|
                #![trigger m.contains_key(id)]
                m.contains_key(id) && needs_inverses(m[id].0, m[id].2) && !links(
                    m,
                    m[id].1,
                    sigma(),
                    m[id].0,
                ) implies r@.contains(Inconsistency::NoCopy { edge: id }) by {
                let p = choose|p: int| 0 <= p < s.len() && s[p].0 == id;
                assert(m[s[p].0] == s[p].1@);
            }
            if r@.len() == 0 {
                assert forall|x: u32, y: u32| #[trigger] m.contains_key(x) && #[trigger] m.contains_key(y)
                    && x != y implies !(m[x].0 == m[y].0 && m[x].2 == m[y].2) by {
                    let p = choose|p: int| 0 <= p < s.len() && s[p].0 == x;
                    let q = choose|q: int| 0 <= q < s.len() && s[q].0 == y;
                    assert(entry_sound(vs, m, s, p) && entry_sound(vs, m, s, q));
                }
                assert forall|x: u32| #[trigger] m.contains_key(x) implies vs.contains(m[x].0)
                    && vs.contains(m[x].1) && (needs_inverses(m[x].0, m[x].2) ==> links(
                    m,
                    m[x].1,
                    rho(),
                    m[x].0,
                ) && links(m, m[x].1, sigma(), m[x].0)) by {
                    let p = choose|p: int| 0 <= p < s.len() && s[p].0 == x;
                    assert(entry_sound(vs, m, s, p));
                }
                assert(consistent(vs, m));
            } else {
                assert(finding_holds(vs, m, r@[0]));
            }
        }
        r
    }
}

} // verus!
