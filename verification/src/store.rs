use vstd::prelude::*;
use std::collections::HashMap;

verus! {

broadcast use vstd::std_specs::hash::group_hash_axioms;

/// Raised when a fetch round reports a `parent` or `directly_referenced`
/// value that differs from the one recorded earlier for the same id.
/// Those two attributes are immutable per node, so a disagreement means
/// the backing store is corrupt and the run must abort.
#[derive(Debug, Clone, Copy, PartialEq, Eq, Structural)]
pub struct DataConsistencyError {
    pub id: i64,
}

/// Mathematical model of one node: the child ids as a set, the single
/// optional parent edge, whether an external record references the node,
/// and the liveness mark computed by propagation.
#[verifier::ext_equal]
pub ghost struct NodeSpec {
    pub children: Set<i64>,
    pub parent: Option<i64>,
    pub directly_referenced: bool,
    pub live: bool,
}

/// One node of the state-group forest as held in memory.
pub struct Node {
    /// Ids of nodes whose parent edge points at this node.
    pub children: Vec<i64>,
    /// The single parent edge, if any.
    pub parent: Option<i64>,
    /// True if at least one external record points at this node.
    pub directly_referenced: bool,
    /// True once this node is known to be directly referenced or an
    /// ancestor of a directly referenced node.
    pub live: bool,
}

impl View for Node {
    type V = NodeSpec;

    open spec fn view(&self) -> NodeSpec {
        NodeSpec {
            children: self.children@.to_set(),
            parent: self.parent,
            directly_referenced: self.directly_referenced,
            live: self.live,
        }
    }
}

/// The node a fresh record creates when its id was unknown: no children
/// yet, and `live` starts out equal to `directly_referenced`.
pub open spec fn fresh_node(parent: Option<i64>, referenced: bool) -> NodeSpec {
    NodeSpec { children: Set::empty(), parent, directly_referenced: referenced, live: referenced }
}

/// Whether one record merges cleanly into the store: either its id is new,
/// or the stored parent and referenced flag agree with the record.
pub open spec fn merge_ok(m: Map<i64, NodeSpec>, id: i64, parent: Option<i64>, referenced: bool) -> bool {
    m.contains_key(id) ==> m[id].parent == parent && m[id].directly_referenced == referenced
}

/// The node stored for `id` after merging one record into `m`.
pub open spec fn merged_node(
    m: Map<i64, NodeSpec>,
    id: i64,
    child: Option<i64>,
    parent: Option<i64>,
    referenced: bool,
) -> NodeSpec {
    let base = if m.contains_key(id) {
        m[id]
    } else {
        fresh_node(parent, referenced)
    };
    NodeSpec {
        children: match child {
            Some(c) => base.children.insert(c),
            None => base.children,
        },
        parent: base.parent,
        directly_referenced: base.directly_referenced,
        live: base.live,
    }
}

/// The whole store after merging one record into `m`.
pub open spec fn merge1(
    m: Map<i64, NodeSpec>,
    id: i64,
    child: Option<i64>,
    parent: Option<i64>,
    referenced: bool,
) -> Map<i64, NodeSpec> {
    m.insert(id, merged_node(m, id, child, parent, referenced))
}

/// Merging the same record a second time changes nothing: `upsert` is
/// idempotent, both in whether it succeeds and in the state it produces.
pub proof fn lemma_upsert_idempotent(
    m: Map<i64, NodeSpec>,
    id: i64,
    child: Option<i64>,
    parent: Option<i64>,
    referenced: bool,
)
    requires
        merge_ok(m, id, parent, referenced),
    ensures
        merge_ok(merge1(m, id, child, parent, referenced), id, parent, referenced),
        merge1(merge1(m, id, child, parent, referenced), id, child, parent, referenced)
            == merge1(m, id, child, parent, referenced),
{
    let m1 = merge1(m, id, child, parent, referenced);
    assert(merged_node(m1, id, child, parent, referenced) =~= merged_node(m, id, child, parent, referenced));
    assert(merge1(m1, id, child, parent, referenced) =~= m1);
}

/// The authoritative in-memory map from node id to node record.
///
/// The `ids` vector remembers every key once, in insertion order; it backs
/// the deterministic iteration used by propagation and reporting.
pub struct GraphStore {
    map: HashMap<i64, Node>,
    ids: Vec<i64>,
}

impl View for GraphStore {
    type V = Map<i64, NodeSpec>;

    closed spec fn view(&self) -> Map<i64, NodeSpec> {
        Map::new(|k: i64| self.map@.contains_key(k), |k: i64| self.map@[k]@)
    }
}

impl GraphStore {
    #[verifier::type_invariant]
    spec fn wf(&self) -> bool {
        &&& self.ids@.no_duplicates()
        &&& self.ids@.to_set() == self.map@.dom()
    }

    /// An empty store.
    pub fn new() -> (s: Self)
        ensures
            s@ == Map::<i64, NodeSpec>::empty(),
    {
        let m: HashMap<i64, Node> = HashMap::new();
        let v: Vec<i64> = Vec::new();
        proof {
            assert(v@.to_set() =~= m@.dom());
        }
        let s = GraphStore { map: m, ids: v };
        proof {
            assert(s@ =~= Map::<i64, NodeSpec>::empty());
        }
        s
    }

    /// The number of nodes currently known.
    pub fn len(&self) -> (n: usize)
        ensures
            n == self@.dom().len(),
    {
        proof {
            use_type_invariant(&*self);
            self.lemma_view_dom();
            self.ids@.unique_seq_to_set();
        }
        self.ids.len()
    }

    /// Whether `id` currently has a record in the store.
    pub fn contains(&self, id: i64) -> (r: bool)
        ensures
            r == self@.contains_key(id),
    {
        proof { use_type_invariant(&*self); }
        let r = self.map.contains_key(&id);
        proof { self.lemma_view_dom(); }
        r
    }

    /// The record for `id`, if any.
    pub fn get(&self, id: i64) -> (r: Option<&Node>)
        ensures
            match r {
                Some(n) => self@.contains_key(id) && n@ == self@[id],
                None => !self@.contains_key(id),
            },
    {
        proof {
            use_type_invariant(&*self);
            self.lemma_view_dom();
        }
        self.map.get(&id)
    }

    /// Every known id, once each, in insertion order.
    pub fn all_ids(&self) -> (r: Vec<i64>)
        ensures
            r@.no_duplicates(),
            r@.to_set() == self@.dom(),
    {
        proof {
            use_type_invariant(&*self);
            self.lemma_view_dom();
        }
        let mut out: Vec<i64> = Vec::new();
        let mut i: usize = 0;
        while i < self.ids.len()
            invariant
                i <= self.ids@.len(),
                out@ == self.ids@.take(i as int),
            decreases self.ids@.len() - i,
        {
            out.push(self.ids[i]);
            proof {
                assert(out@ =~= self.ids@.take(i + 1 as int));
            }
            i += 1;
        }
        proof {
            assert(out@ =~= self.ids@);
        }
        out
    }

    /// Merge one fetched record into the store.
    ///
    /// A new id gets a fresh node whose `live` mark starts equal to
    /// `referenced`; a known id must report the same `parent` and
    /// `referenced` values as before, or the call fails without changing
    /// anything. A present `child` id is added to the node's child set.
    pub fn upsert(
        &mut self,
        id: i64,
        child: Option<i64>,
        parent: Option<i64>,
        referenced: bool,
    ) -> (r: Result<(), DataConsistencyError>)
        ensures
            match r {
                Ok(_) => merge_ok(old(self)@, id, parent, referenced)
                    && final(self)@ == merge1(old(self)@, id, child, parent, referenced),
                Err(e) => !merge_ok(old(self)@, id, parent, referenced)
                    && final(self)@ == old(self)@
                    && e == (DataConsistencyError { id }),
            },
    {
        proof {
            use_type_invariant(&*self);
            self.lemma_view_dom();
        }
        let ghost m0 = self@;
        let em: HashMap<i64, Node> = HashMap::new();
        let ev: Vec<i64> = Vec::new();
        proof {
            assert(ev@.to_set() =~= em@.dom());
        }
        let mut tmp = GraphStore { map: em, ids: ev };
        std::mem::swap(&mut tmp, self);
        let mut map = tmp.map;
        let mut ids = tmp.ids;
        let ghost em0 = map@;
        let ghost ids0 = ids@;
        let result: Result<(), DataConsistencyError>;
        match map.remove(&id) {
            None => {
                proof {
                    assert(map@ =~= em0);
                }
                let mut children: Vec<i64> = Vec::new();
                if let Some(c) = child {
                    children.push(c);
                    proof {
                        Seq::<i64>::empty().lemma_push_to_set_commute(c);
                    }
                }
                let node = Node { children, parent, directly_referenced: referenced, live: referenced };
                proof {
                    assert(node@.children =~= merged_node(m0, id, child, parent, referenced).children);
                    assert(node@ =~= merged_node(m0, id, child, parent, referenced));
                }
                map.insert(id, node);
                ids.push(id);
                proof {
                    ids0.lemma_push_to_set_commute(id);
                    assert(!ids0.to_set().contains(id));
                    assert forall|i: int, j: int| 0 <= i < j < ids@.len() implies ids@[i] != ids@[j] by {
                        if j == ids@.len() - 1 {
                            assert(ids0.contains(ids0[i]));
                        }
                    }
                }
                result = Ok(());
            }
            Some(mut n) => {
                proof {
                    assert(em0.contains_key(id));
                    assert(em0[id] == n);
                    assert(m0[id] == n@);
                }
                let same = opt_eq(n.parent, parent) && n.directly_referenced == referenced;
                if !same {
                    map.insert(id, n);
                    proof {
                        assert(map@ =~= em0);
                    }
                    result = Err(DataConsistencyError { id });
                } else {
                    let ghost ch0 = n@.children;
                    if let Some(c) = child {
                        if !vec_contains(&n.children, c) {
                            let ghost cv0 = n.children@;
                            n.children.push(c);
                            proof {
                                cv0.lemma_push_to_set_commute(c);
                            }
                        } else {
                            proof {
                                assert(ch0.contains(c));
                                assert(ch0.insert(c) =~= ch0);
                            }
                        }
                        proof {
                            assert(n@.children =~= ch0.insert(c));
                        }
                    }
                    proof {
                        assert(n@ =~= merged_node(m0, id, child, parent, referenced));
                    }
                    map.insert(id, n);
                    proof {
                        assert(map@.dom() =~= em0.dom());
                    }
                    result = Ok(());
                }
            }
        }
        let s = GraphStore { map, ids };
        proof {
            assert(s.ids@.to_set() =~= s.map@.dom());
            match result {
                Ok(_) => {
                    assert(s@ =~= merge1(m0, id, child, parent, referenced));
                }
                Err(_) => {
                    assert(s@ =~= m0);
                }
            }
        }
        *self = s;
        result
    }

    /// Mark `id` live. Internal to the propagation pass.
    pub(crate) fn set_live(&mut self, id: i64)
        requires
            old(self)@.contains_key(id),
        ensures
            final(self)@ == old(self)@.insert(id, (NodeSpec { live: true, ..old(self)@[id] })),
    {
        proof {
            use_type_invariant(&*self);
            self.lemma_view_dom();
        }
        let ghost m0 = self@;
        let em: HashMap<i64, Node> = HashMap::new();
        let ev: Vec<i64> = Vec::new();
        proof {
            assert(ev@.to_set() =~= em@.dom());
        }
        let mut tmp = GraphStore { map: em, ids: ev };
        std::mem::swap(&mut tmp, self);
        let mut map = tmp.map;
        let ids = tmp.ids;
        let ghost em0 = map@;
        let n = map.remove(&id);
        let mut n = n.unwrap();
        n.live = true;
        proof {
            assert(n@ =~= (NodeSpec { live: true, ..m0[id] }));
        }
        map.insert(id, n);
        let s = GraphStore { map, ids };
        proof {
            assert(s.map@.dom() =~= em0.dom());
            assert(s.ids@.to_set() == em0.dom());
            assert(s@ =~= m0.insert(id, (NodeSpec { live: true, ..m0[id] })));
        }
        *self = s;
    }

    /// Relates the public view to the private map: same keys.
    proof fn lemma_view_dom(&self)
        ensures
            self@.dom() =~= self.map@.dom(),
            forall|k: i64| self.map@.contains_key(k) ==> self@[k] == self.map@[k]@,
    {
    }
}

/// Whether two optional ids are the same.
fn opt_eq(a: Option<i64>, b: Option<i64>) -> (r: bool)
    ensures
        r == (a == b),
{
    match (a, b) {
        (None, None) => true,
        (Some(x), Some(y)) => x == y,
        _ => false,
    }
}

/// Pushing an element a sequence does not hold keeps it duplicate-free.
pub proof fn push_keeps_no_duplicates(s: Seq<i64>, x: i64)
    requires
        s.no_duplicates(),
        !s.contains(x),
    ensures
        s.push(x).no_duplicates(),
{
    assert forall|i: int, j: int| 0 <= i < j < s.push(x).len()
        implies s.push(x)[i] != s.push(x)[j] by {
        if j == s.len() as int {
            assert(s.contains(s[i]));
        }
    }
}

/// Whether `v` holds `x`, by linear scan.
pub(crate) fn vec_contains(v: &Vec<i64>, x: i64) -> (r: bool)
    ensures
        r == v@.contains(x),
{
    let mut i: usize = 0;
    while i < v.len()
        invariant
            i <= v@.len(),
            forall|j: int| 0 <= j < i ==> v@[j] != x,
        decreases v@.len() - i,
    {
        if v[i] == x {
            assert(v@[i as int] == x);
            return true;
        }
        i += 1;
    }
    false
}

} // verus!
