use vstd::prelude::*;
use crate::store::{DataConsistencyError, GraphStore, NodeSpec, fresh_node, merge1, merge_ok, merged_node, push_keeps_no_duplicates, vec_contains};
use crate::propagate::live_eq_referenced;

verus! {

/// One row handed back by the node source. Several records may share an
/// `id`: the store receives one per child edge, and merges them.
pub struct NodeRecord {
    /// The node the record describes.
    pub id: i64,
    /// An id whose parent edge points at `id`, if this row carries one.
    pub child: Option<i64>,
    /// The parent edge of `id`, if any.
    pub parent: Option<i64>,
    /// Whether an external record points at `id`.
    pub directly_referenced: bool,
}

/// The ids a node's record mentions: its children and its parent.
pub open spec fn refs_of(n: NodeSpec) -> Set<i64> {
    match n.parent {
        Some(p) => n.children.insert(p),
        None => n.children,
    }
}

/// Every id mentioned by a frontier node that is in the store.
pub open spec fn refs_of_set(m: Map<i64, NodeSpec>, frontier: Set<i64>) -> Set<i64> {
    Set::new(|x: i64| exists|f: i64| #[trigger] frontier.contains(f) && m.contains_key(f)
        && refs_of(m[f]).contains(x))
}

/// Every edge out of every known node leads to a known node or to a
/// recorded dangling id: the state the closure loop drives the store to.
pub open spec fn edge_closed(m: Map<i64, NodeSpec>, dangling: Set<i64>) -> bool {
    forall|x: i64| #[trigger] m.contains_key(x)
        ==> refs_of(m[x]).subset_of(m.dom().union(dangling))
}

/// The loop invariant of closure completion: nodes outside the frontier
/// are settled — their edges lead to known nodes or recorded dangling ids;
/// only frontier nodes may still mention unexamined ids.
pub open spec fn coverage(m: Map<i64, NodeSpec>, frontier: Set<i64>, dangling: Set<i64>) -> bool {
    forall|x: i64| #[trigger] m.contains_key(x) && !frontier.contains(x)
        ==> refs_of(m[x]).subset_of(m.dom().union(dangling))
}

/// The ids that a batch of records describes.
pub open spec fn ids_of(rs: Seq<NodeRecord>) -> Set<i64> {
    Set::new(|x: i64| exists|j: int| 0 <= j < rs.len() && #[trigger] rs[j].id == x)
}

/// The store after merging a batch of records, first to last.
pub open spec fn merge_seq(m: Map<i64, NodeSpec>, rs: Seq<NodeRecord>) -> Map<i64, NodeSpec>
    decreases rs.len(),
{
    if rs.len() == 0 {
        m
    } else {
        merge_seq(
            merge1(m, rs[0].id, rs[0].child, rs[0].parent, rs[0].directly_referenced),
            rs.drop_first(),
        )
    }
}

/// Whether a whole batch of records merges cleanly, each against the
/// store left by the ones before it.
pub open spec fn merge_seq_ok(m: Map<i64, NodeSpec>, rs: Seq<NodeRecord>) -> bool
    decreases rs.len(),
{
    rs.len() == 0 || (merge_ok(m, rs[0].id, rs[0].parent, rs[0].directly_referenced)
        && merge_seq_ok(
            merge1(m, rs[0].id, rs[0].child, rs[0].parent, rs[0].directly_referenced),
            rs.drop_first(),
        ))
}

/// Merging one more record after a batch is the batch extended by it.
pub proof fn lemma_merge_seq_snoc(m: Map<i64, NodeSpec>, rs: Seq<NodeRecord>, r: NodeRecord)
    ensures
        merge_seq(m, rs.push(r)) == merge1(
            merge_seq(m, rs), r.id, r.child, r.parent, r.directly_referenced),
        merge_seq_ok(m, rs.push(r)) <==> (merge_seq_ok(m, rs)
            && merge_ok(merge_seq(m, rs), r.id, r.parent, r.directly_referenced)),
    decreases rs.len(),
{
    let m1r = merge1(m, r.id, r.child, r.parent, r.directly_referenced);
    if rs.len() == 0 {
        assert(rs.push(r)[0] == r);
        assert(rs.push(r).drop_first() =~= rs);
        assert(merge_seq(m, rs.push(r)) == merge_seq(m1r, rs));
        assert(merge_seq(m1r, rs) == m1r);
        assert(merge_seq(m, rs) == m);
        assert(merge_seq_ok(m, rs));
        assert(merge_seq_ok(m1r, rs));
        assert(merge_seq_ok(m, rs.push(r)) == (merge_ok(m, r.id, r.parent, r.directly_referenced)
            && merge_seq_ok(m1r, rs.push(r).drop_first())));
    } else {
        let m1 = merge1(m, rs[0].id, rs[0].child, rs[0].parent, rs[0].directly_referenced);
        assert(rs.push(r)[0] == rs[0]);
        assert(rs.push(r).drop_first() =~= rs.drop_first().push(r));
        lemma_merge_seq_snoc(m1, rs.drop_first(), r);
        assert(merge_seq(m, rs.push(r)) == merge_seq(m1, rs.drop_first().push(r)));
        assert(merge_seq(m, rs) == merge_seq(m1, rs.drop_first()));
        assert(merge_seq_ok(m, rs.push(r)) == (merge_ok(m, rs[0].id, rs[0].parent, rs[0].directly_referenced)
            && merge_seq_ok(m1, rs.drop_first().push(r))));
        assert(merge_seq_ok(m, rs) == (merge_ok(m, rs[0].id, rs[0].parent, rs[0].directly_referenced)
            && merge_seq_ok(m1, rs.drop_first())));
    }
}

/// Find the ids that frontier nodes mention but the store does not know.
///
/// Frontier ids without a record are skipped; the result lists each
/// missing id once.
pub fn missing_ids(g: &GraphStore, frontier: &Vec<i64>) -> (missing: Vec<i64>)
    ensures
        missing@.no_duplicates(),
        missing@.to_set() == refs_of_set(g@, frontier@.to_set()).difference(g@.dom()),
{
    let mut out: Vec<i64> = Vec::new();
    let mut i: usize = 0;
    while i < frontier.len()
        invariant
            i <= frontier@.len(),
            out@.no_duplicates(),
            out@.to_set() =~= refs_of_set(g@, frontier@.take(i as int).to_set()).difference(g@.dom()),
        decreases frontier@.len() - i,
    {
        let f = frontier[i];
        proof {
            assert(frontier@.take(i as int + 1).to_set() =~= frontier@.take(i as int).to_set().insert(f)) by {
                assert(frontier@.take(i as int + 1).drop_last() =~= frontier@.take(i as int));
                frontier@.take(i as int).lemma_push_to_set_commute(f);
                assert(frontier@.take(i as int + 1) =~= frontier@.take(i as int).push(f));
            }
        }
        match g.get(f) {
            Some(node) => {
                let ghost pre = frontier@.take(i as int).to_set();
                let ghost post = frontier@.take(i as int + 1).to_set();
                let mut j: usize = 0;
                while j < node.children.len()
                    invariant
                        j <= node.children@.len(),
                        g@.contains_key(f),
                        node@ == g@[f],
                        post == pre.insert(f),
                        out@.no_duplicates(),
                        out@.to_set() =~= refs_of_set(g@, pre).difference(g@.dom()).union(
                            node.children@.take(j as int).to_set().difference(g@.dom())),
                    decreases node.children@.len() - j,
                {
                    let c = node.children[j];
                    proof {
                        assert(node.children@.take(j as int + 1) =~= node.children@.take(j as int).push(c));
                        node.children@.take(j as int).lemma_push_to_set_commute(c);
                    }
                    if !g.contains(c) && !vec_contains(&out, c) {
                        let ghost o0 = out@;
                        out.push(c);
                        proof {
                            push_keeps_no_duplicates(o0, c);
                            o0.lemma_push_to_set_commute(c);
                            assert(out@.to_set() =~= refs_of_set(g@, pre).difference(g@.dom()).union(
                                node.children@.take(j as int + 1).to_set().difference(g@.dom())));
                        }
                    } else {
                        proof {
                            if g@.dom().contains(c) {
                                assert(node.children@.take(j as int + 1).to_set().difference(g@.dom())
                                    =~= node.children@.take(j as int).to_set().difference(g@.dom()));
                            } else {
                                assert(out@.to_set().contains(c));
                            }
                            assert(out@.to_set() =~= refs_of_set(g@, pre).difference(g@.dom()).union(
                                node.children@.take(j as int + 1).to_set().difference(g@.dom())));
                        }
                    }
                    j += 1;
                }
                if let Some(p) = node.parent {
                    if !g.contains(p) && !vec_contains(&out, p) {
                        let ghost o0 = out@;
                        out.push(p);
                        proof {
                            push_keeps_no_duplicates(o0, p);
                            o0.lemma_push_to_set_commute(p);
                        }
                    }
                }
                proof {
                    assert(node.children@.take(node.children@.len() as int) =~= node.children@);
                    assert(node.children@.to_set() == g@[f].children);
                    assert(out@.to_set() =~= refs_of_set(g@, post).difference(g@.dom())) by {
                        assert forall|x: i64| refs_of_set(g@, post).contains(x)
                            implies refs_of_set(g@, pre).contains(x) || refs_of(g@[f]).contains(x) by {
                            let ff = choose|ff: i64| #[trigger] post.contains(ff) && g@.contains_key(ff)
                                && refs_of(g@[ff]).contains(x);
                            if ff != f {
                                assert(pre.contains(ff));
                            }
                        }
                        assert forall|x: i64| refs_of_set(g@, pre).contains(x)
                            implies refs_of_set(g@, post).contains(x) by {
                            let ff = choose|ff: i64| #[trigger] pre.contains(ff) && g@.contains_key(ff)
                                && refs_of(g@[ff]).contains(x);
                            assert(post.contains(ff));
                        }
                        assert forall|x: i64| refs_of(g@[f]).contains(x)
                            implies refs_of_set(g@, post).contains(x) by {
                            assert(post.contains(f) && g@.contains_key(f) && refs_of(g@[f]).contains(x));
                        }
                    }
                }
            }
            None => {
                proof {
                    assert(out@.to_set() =~= refs_of_set(g@, frontier@.take(i as int + 1).to_set()).difference(g@.dom())) by {
                        let pre = frontier@.take(i as int).to_set();
                        let post = frontier@.take(i as int + 1).to_set();
                        assert forall|x: i64| refs_of_set(g@, post).contains(x)
                            implies refs_of_set(g@, pre).contains(x) by {
                            let ff = choose|ff: i64| #[trigger] post.contains(ff) && g@.contains_key(ff)
                                && refs_of(g@[ff]).contains(x);
                            assert(ff != f);
                            assert(pre.contains(ff));
                        }
                        assert forall|x: i64| refs_of_set(g@, pre).contains(x)
                            implies refs_of_set(g@, post).contains(x) by {
                            let ff = choose|ff: i64| #[trigger] pre.contains(ff) && g@.contains_key(ff)
                                && refs_of(g@[ff]).contains(x);
                            assert(post.contains(ff));
                        }
                    }
                }
            }
        }
        i += 1;
    }
    proof {
        assert(frontier@.take(frontier@.len() as int) =~= frontier@);
    }
    out
}

/// Whether some record in the batch describes `x`.
fn records_contain_id(records: &Vec<NodeRecord>, x: i64) -> (r: bool)
    ensures
        r == ids_of(records@).contains(x),
{
    let mut j: usize = 0;
    while j < records.len()
        invariant
            j <= records@.len(),
            forall|t: int| 0 <= t < j ==> records@[t].id != x,
        decreases records@.len() - j,
    {
        if records[j].id == x {
            proof {
                assert(records@[j as int].id == x);
            }
            return true;
        }
        j += 1;
    }
    false
}

/// What one fetch round produced: the requested ids that yielded a record
/// (the next frontier) and the ones the store could not produce (new
/// dangling references), each listed once.
#[derive(Debug)]
pub struct RoundOutcome {
    pub resolved: Vec<i64>,
    pub dangling: Vec<i64>,
}

/// Merge one fetch round's records into the store and split the requested
/// ids into resolved and dangling ones.
///
/// The records are merged first to last; the first one that contradicts a
/// stored `parent` or `directly_referenced` value stops the round and is
/// reported, with the records before it already merged.
pub fn apply_round(
    g: &mut GraphStore,
    missing: &Vec<i64>,
    records: &Vec<NodeRecord>,
) -> (r: Result<RoundOutcome, DataConsistencyError>)
    ensures
        match r {
            Ok(out) => merge_seq_ok(old(g)@, records@)
                && final(g)@ == merge_seq(old(g)@, records@)
                && out.resolved@.no_duplicates()
                && out.resolved@.to_set() == missing@.to_set().intersect(ids_of(records@))
                && out.dangling@.no_duplicates()
                && out.dangling@.to_set() == missing@.to_set().difference(ids_of(records@)),
            Err(e) => !merge_seq_ok(old(g)@, records@)
                && exists|j: int| 0 <= j < records@.len()
                    && #[trigger] merge_seq_ok(old(g)@, records@.take(j))
                    && !merge_ok(merge_seq(old(g)@, records@.take(j)),
                        records@[j].id, records@[j].parent, records@[j].directly_referenced)
                    && final(g)@ == merge_seq(old(g)@, records@.take(j))
                    && e == (DataConsistencyError { id: records@[j].id }),
        },
{
    let ghost m0 = g@;
    let mut j: usize = 0;
    while j < records.len()
        invariant
            m0 == old(g)@,
            j <= records@.len(),
            g@ == merge_seq(m0, records@.take(j as int)),
            merge_seq_ok(m0, records@.take(j as int)),
        decreases records@.len() - j,
    {
        let rec = &records[j];
        let ghost pre = records@.take(j as int);
        proof {
            assert(records@.take(j as int + 1) =~= pre.push(records@[j as int]));
            lemma_merge_seq_snoc(m0, pre, records@[j as int]);
        }
        match g.upsert(rec.id, rec.child, rec.parent, rec.directly_referenced) {
            Ok(_) => {}
            Err(e) => {
                proof {
                    let jj = j as int;
                    assert(records@[jj].id == rec.id);
                    assert(merge_seq_ok(m0, records@.take(jj)));
                    assert(!merge_ok(merge_seq(m0, records@.take(jj)), records@[jj].id,
                        records@[jj].parent, records@[jj].directly_referenced));
                    assert(g@ == merge_seq(m0, records@.take(jj)));
                    assert(!merge_seq_ok(m0, records@)) by {
                        if merge_seq_ok(m0, records@) {
                            lemma_merge_seq_ok_prefix_all(m0, records@, jj);
                        }
                    }
                    assert(0 <= jj < records@.len()
                        && merge_seq_ok(old(g)@, records@.take(jj))
                        && !merge_ok(merge_seq(old(g)@, records@.take(jj)),
                            records@[jj].id, records@[jj].parent, records@[jj].directly_referenced)
                        && g@ == merge_seq(old(g)@, records@.take(jj))
                        && e == (DataConsistencyError { id: records@[jj].id }));
                }
                return Err(e);
            }
        }
        j += 1;
    }
    proof {
        assert(records@.take(records@.len() as int) =~= records@);
    }
    let mut resolved: Vec<i64> = Vec::new();
    let mut dangling: Vec<i64> = Vec::new();
    let mut t: usize = 0;
    while t < missing.len()
        invariant
            m0 == old(g)@,
            t <= missing@.len(),
            resolved@.no_duplicates(),
            dangling@.no_duplicates(),
            resolved@.to_set() =~= missing@.take(t as int).to_set().intersect(ids_of(records@)),
            dangling@.to_set() =~= missing@.take(t as int).to_set().difference(ids_of(records@)),
            g@ == merge_seq(m0, records@),
            merge_seq_ok(m0, records@),
        decreases missing@.len() - t,
    {
        let x = missing[t];
        proof {
            assert(missing@.take(t as int + 1) =~= missing@.take(t as int).push(x));
            missing@.take(t as int).lemma_push_to_set_commute(x);
        }
        let seen = vec_contains(&resolved, x) || vec_contains(&dangling, x);
        if !seen {
            if records_contain_id(records, x) {
                let ghost r0 = resolved@;
                resolved.push(x);
                proof {
                    push_keeps_no_duplicates(r0, x);
                    r0.lemma_push_to_set_commute(x);
                    assert(resolved@.to_set() =~= missing@.take(t as int + 1).to_set().intersect(ids_of(records@)));
                    assert(dangling@.to_set() =~= missing@.take(t as int + 1).to_set().difference(ids_of(records@)));
                }
            } else {
                let ghost d0 = dangling@;
                dangling.push(x);
                proof {
                    push_keeps_no_duplicates(d0, x);
                    d0.lemma_push_to_set_commute(x);
                    assert(resolved@.to_set() =~= missing@.take(t as int + 1).to_set().intersect(ids_of(records@)));
                    assert(dangling@.to_set() =~= missing@.take(t as int + 1).to_set().difference(ids_of(records@)));
                }
            }
        } else {
            proof {
                assert(resolved@.to_set().contains(x) || dangling@.to_set().contains(x));
                assert(missing@.take(t as int).to_set().contains(x));
                assert(resolved@.to_set() =~= missing@.take(t as int + 1).to_set().intersect(ids_of(records@)));
                assert(dangling@.to_set() =~= missing@.take(t as int + 1).to_set().difference(ids_of(records@)));
            }
        }
        t += 1;
    }
    proof {
        assert(missing@.take(missing@.len() as int) =~= missing@);
    }
    Ok(RoundOutcome { resolved, dangling })
}

/// A clean whole batch means every prefix ends at a record that merges
/// cleanly into the store the prefix built; contrapositively, a record
/// that contradicts the store built by the records before it spoils the
/// whole batch.
proof fn lemma_merge_seq_ok_prefix_all(m: Map<i64, NodeSpec>, rs: Seq<NodeRecord>, j: int)
    requires
        0 <= j < rs.len(),
        merge_seq_ok(m, rs),
    ensures
        merge_ok(merge_seq(m, rs.take(j)), rs[j].id, rs[j].parent, rs[j].directly_referenced),
    decreases j,
{
    let m1 = merge1(m, rs[0].id, rs[0].child, rs[0].parent, rs[0].directly_referenced);
    if j == 0 {
        assert(rs.take(0) =~= Seq::<NodeRecord>::empty());
    } else {
        lemma_merge_seq_ok_prefix_all(m1, rs.drop_first(), j - 1);
        assert(rs.drop_first().take(j - 1) =~= rs.take(j).drop_first());
        assert(rs.take(j)[0] == rs[0]);
        assert(merge_seq(m, rs.take(j)) == merge_seq(m1, rs.take(j).drop_first()));
        assert(rs.drop_first()[j - 1] == rs[j]);
    }
}

/// After the initial bulk load every known node is frontier, so the
/// coverage invariant of the closure loop holds from the start.
pub proof fn lemma_coverage_initial(m: Map<i64, NodeSpec>)
    ensures
        coverage(m, m.dom(), Set::<i64>::empty()),
{
}

/// One fetch round keeps the coverage invariant: merging records for the
/// missing ids settles the old frontier, makes the fetched ids the new
/// frontier, and records the ids the source could not produce as dangling.
pub proof fn lemma_round_preserves_coverage(
    m: Map<i64, NodeSpec>,
    frontier: Set<i64>,
    dangling: Set<i64>,
    rs: Seq<NodeRecord>,
)
    requires
        coverage(m, frontier, dangling),
        ids_of(rs).subset_of(refs_of_set(m, frontier).difference(m.dom())),
    ensures
        coverage(
            merge_seq(m, rs),
            ids_of(rs),
            dangling.union(refs_of_set(m, frontier).difference(m.dom()).difference(ids_of(rs))),
        ),
{
    let m2 = merge_seq(m, rs);
    let missing = refs_of_set(m, frontier).difference(m.dom());
    let dangling2 = dangling.union(missing.difference(ids_of(rs)));
    lemma_merge_seq_frame(m, rs);
    assert forall|x: i64| m2.contains_key(x) && !ids_of(rs).contains(x)
        implies refs_of(m2[x]).subset_of(m2.dom().union(dangling2)) by {
        assert(m.contains_key(x));
        assert(m2[x] == m[x]);
        assert forall|y: i64| refs_of(m[x]).contains(y)
            implies m2.dom().union(dangling2).contains(y) by {
            if frontier.contains(x) {
                assert(refs_of_set(m, frontier).contains(y)) by {
                    assert(frontier.contains(x) && m.contains_key(x) && refs_of(m[x]).contains(y));
                }
                if !m.dom().contains(y) {
                    assert(missing.contains(y));
                }
            } else {
                assert(refs_of(m[x]).subset_of(m.dom().union(dangling)));
                assert(m.dom().union(dangling).contains(y));
            }
        }
    }
}

/// When a round finds nothing missing, the store is edge closed: every
/// id any known node mentions is known or recorded dangling — never both
/// absent and unaccounted.
pub proof fn lemma_closure_fixpoint(m: Map<i64, NodeSpec>, frontier: Set<i64>, dangling: Set<i64>)
    requires
        coverage(m, frontier, dangling),
        refs_of_set(m, frontier).difference(m.dom()) =~= Set::<i64>::empty(),
    ensures
        edge_closed(m, dangling),
{
    assert forall|x: i64| m.contains_key(x)
        implies refs_of(m[x]).subset_of(m.dom().union(dangling)) by {
        if frontier.contains(x) {
            assert forall|y: i64| refs_of(m[x]).contains(y)
                implies m.dom().union(dangling).contains(y) by {
                assert(refs_of_set(m, frontier).contains(y)) by {
                    assert(frontier.contains(x) && m.contains_key(x) && refs_of(m[x]).contains(y));
                }
                if !m.dom().contains(y) {
                    assert(refs_of_set(m, frontier).difference(m.dom()).contains(y));
                    assert(false);
                }
            }
        }
    }
}

/// Merging records only adds or extends the nodes the records describe:
/// the key set grows by exactly the record ids, and nodes no record
/// touches keep their entry.
pub proof fn lemma_merge_seq_frame(m: Map<i64, NodeSpec>, rs: Seq<NodeRecord>)
    ensures
        merge_seq(m, rs).dom() =~= m.dom().union(ids_of(rs)),
        forall|k: i64| m.contains_key(k) && !ids_of(rs).contains(k)
            ==> merge_seq(m, rs)[k] == m[k],
    decreases rs.len(),
{
    if rs.len() == 0 {
        assert(merge_seq(m, rs) == m);
        assert(merge_seq(m, rs).dom() =~= m.dom().union(ids_of(rs))) by {
            assert(ids_of(rs) =~= Set::<i64>::empty());
        }
    } else {
        let r = rs[0];
        let m1 = merge1(m, r.id, r.child, r.parent, r.directly_referenced);
        lemma_merge_seq_frame(m1, rs.drop_first());
        assert(merge_seq(m, rs) == merge_seq(m1, rs.drop_first()));
        assert(rs[0].id == r.id);
        assert(ids_of(rs) =~= ids_of(rs.drop_first()).insert(r.id)) by {
            assert forall|x: i64| ids_of(rs).contains(x)
                implies ids_of(rs.drop_first()).insert(r.id).contains(x) by {
                let j = choose|j: int| 0 <= j < rs.len() && #[trigger] rs[j].id == x;
                if j > 0 {
                    assert(rs.drop_first()[j - 1].id == x);
                }
            }
            assert forall|x: i64| ids_of(rs.drop_first()).contains(x)
                implies ids_of(rs).contains(x) by {
                let j = choose|j: int| 0 <= j < rs.drop_first().len() && #[trigger] rs.drop_first()[j].id == x;
                assert(rs[j + 1].id == x);
            }
            assert(rs[0].id == r.id);
        }
        assert(m1.dom() =~= m.dom().insert(r.id));
        assert(merge_seq(m, rs).dom() =~= m.dom().union(ids_of(rs)));
        assert forall|k: i64| m.contains_key(k) && !ids_of(rs).contains(k)
            implies merge_seq(m, rs)[k] == m[k] by {
            assert(!ids_of(rs.drop_first()).contains(k));
            assert(k != r.id);
            assert(m1.contains_key(k) && m1[k] == m[k]);
        }
    }
}

/// Merging one record keeps every node's `live` mark equal to its
/// `directly_referenced` flag: a fresh node starts with the two equal,
/// and merging into a known node touches neither.
pub proof fn lemma_merge_keeps_live_eq_referenced(
    m: Map<i64, NodeSpec>,
    id: i64,
    child: Option<i64>,
    parent: Option<i64>,
    referenced: bool,
)
    requires
        live_eq_referenced(m),
    ensures
        live_eq_referenced(merge1(m, id, child, parent, referenced)),
{
    let m2 = merge1(m, id, child, parent, referenced);
    assert forall|x: i64| #[trigger] m2.contains_key(x)
        implies m2[x].live == m2[x].directly_referenced by {
        if x == id {
            assert(merged_node(m, id, child, parent, referenced).live
                == merged_node(m, id, child, parent, referenced).directly_referenced) by {
            if m.contains_key(id) {
            } else {
                assert(fresh_node(parent, referenced).live == referenced);
            }
            }
        }
    }
}

/// A whole batch of records keeps `live` equal to `directly_referenced`,
/// so a store built by loading and closure rounds alone hands the
/// propagation pass exactly the state its exactness clause asks for.
pub proof fn lemma_merge_seq_keeps_live_eq_referenced(m: Map<i64, NodeSpec>, rs: Seq<NodeRecord>)
    requires
        live_eq_referenced(m),
    ensures
        live_eq_referenced(merge_seq(m, rs)),
    decreases rs.len(),
{
    if rs.len() == 0 {
    } else {
        let m1 = merge1(m, rs[0].id, rs[0].child, rs[0].parent, rs[0].directly_referenced);
        lemma_merge_keeps_live_eq_referenced(m, rs[0].id, rs[0].child, rs[0].parent, rs[0].directly_referenced);
        lemma_merge_seq_keeps_live_eq_referenced(m1, rs.drop_first());
    }
}

} // verus!
