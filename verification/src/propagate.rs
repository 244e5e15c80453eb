use vstd::prelude::*;
use crate::store::{GraphStore, NodeSpec};

verus! {

/// Node `b` stands exactly `k` parent steps above node `a`, with every
/// node along the way (both ends included) present in `m`.
pub open spec fn chain(m: Map<i64, NodeSpec>, a: i64, b: i64, k: nat) -> bool
    decreases k,
{
    if k == 0 {
        a == b && m.contains_key(a)
    } else {
        m.contains_key(a) && match m[a].parent {
            Some(p) => chain(m, p, b, (k - 1) as nat),
            None => false,
        }
    }
}

/// Node `n` deserves the live mark: some node whose parent walk reaches
/// `n` is directly referenced. A walk of zero steps counts, so a directly
/// referenced node deserves the mark itself.
pub open spec fn ref_reachable(m: Map<i64, NodeSpec>, n: i64) -> bool {
    exists|d: i64, k: nat| m.contains_key(d) && m[d].directly_referenced && chain(m, d, n, k)
}

/// The two stores hold the same nodes and agree on everything except the
/// `live` marks.
pub open spec fn same_shape(a: Map<i64, NodeSpec>, b: Map<i64, NodeSpec>) -> bool {
    &&& a.dom() == b.dom()
    &&& forall|x: i64| #[trigger] a.contains_key(x) ==> b[x].children == a[x].children
        && b[x].parent == a[x].parent && b[x].directly_referenced == a[x].directly_referenced
}

/// Every node's `live` mark equals its `directly_referenced` flag — the
/// state a store is in after loading, before any propagation ran.
pub open spec fn live_eq_referenced(m: Map<i64, NodeSpec>) -> bool {
    forall|x: i64| #[trigger] m.contains_key(x) ==> m[x].live == m[x].directly_referenced
}

/// Liveness is closed upward: a live node's parent, when present, is live.
pub open spec fn up_closed(m: Map<i64, NodeSpec>) -> bool {
    forall|x: i64| #[trigger] m.contains_key(x) && m[x].live ==> match m[x].parent {
        Some(p) => !m.contains_key(p) || m[p].live,
        None => true,
    }
}

/// One node's part of the upward-closure invariant maintained during the
/// pass: its parent is missing or live, or the node is a directly
/// referenced node whose own walk has not run yet (it still stands in
/// `rest`), or the parent is exactly where the running walk stands now.
pub open spec fn parent_settled(m: Map<i64, NodeSpec>, rest: Seq<i64>, cur: Option<i64>, x: i64) -> bool {
    match m[x].parent {
        Some(p) => !m.contains_key(p) || m[p].live
            || (rest.contains(x) && m[x].directly_referenced) || cur == Some(p),
        None => true,
    }
}

/// The upward-closure invariant, with the two excuses of `parent_settled`.
pub open spec fn up_closed_except(m: Map<i64, NodeSpec>, rest: Seq<i64>, cur: Option<i64>) -> bool {
    forall|x: i64| #[trigger] m.contains_key(x) && m[x].live ==> parent_settled(m, rest, cur, x)
}

/// The ids of the nodes not yet marked live.
pub open spec fn dead_set(m: Map<i64, NodeSpec>) -> Set<i64> {
    m.dom().filter(|k: i64| !m[k].live)
}

/// A chain can be extended at its far end by one more parent step.
pub proof fn lemma_chain_snoc(m: Map<i64, NodeSpec>, a: i64, c: i64, p: i64, k: nat)
    requires
        chain(m, a, c, k),
        m[c].parent == Some(p),
        m.contains_key(p),
    ensures
        chain(m, a, p, (k + 1) as nat),
    decreases k,
{
    if k == 0 {
        assert(chain(m, p, p, 0));
    } else {
        match m[a].parent {
            Some(q) => {
                lemma_chain_snoc(m, q, c, p, (k - 1) as nat);
            }
            None => {
                assert(false);
            }
        }
    }
}

/// Chains only look at presence and parent edges, so stores of the same
/// shape have the same chains.
pub proof fn lemma_chain_same_shape(a: Map<i64, NodeSpec>, b: Map<i64, NodeSpec>, x: i64, y: i64, k: nat)
    requires
        same_shape(a, b),
        chain(a, x, y, k),
    ensures
        chain(b, x, y, k),
    decreases k,
{
    if k == 0 {
    } else {
        match a[x].parent {
            Some(p) => {
                lemma_chain_same_shape(a, b, p, y, (k - 1) as nat);
            }
            None => {
                assert(false);
            }
        }
    }
}

/// Under upward closure, liveness climbs any chain: if `a` is live and
/// `b` stands above `a`, then `b` is live.
pub proof fn lemma_live_up(m: Map<i64, NodeSpec>, a: i64, b: i64, k: nat)
    requires
        up_closed(m),
        chain(m, a, b, k),
        m.contains_key(a),
        m[a].live,
    ensures
        m[b].live,
    decreases k,
{
    if k == 0 {
    } else {
        match m[a].parent {
            Some(p) => {
                assert(chain(m, p, b, (k - 1) as nat));
                assert(m.contains_key(p));
                lemma_live_up(m, p, b, (k - 1) as nat);
            }
            None => {
                assert(false);
            }
        }
    }
}

/// Membership in `s.skip(i)` is membership at `i` or membership further on.
proof fn lemma_skip_step(s: Seq<i64>, i: int, x: i64)
    requires
        0 <= i < s.len(),
    ensures
        s.skip(i).contains(x) <==> (x == s[i] || s.skip(i + 1).contains(x)),
{
    if s.skip(i).contains(x) {
        let j = choose|j: int| 0 <= j < s.skip(i).len() && #[trigger] s.skip(i)[j] == x;
        if j == 0 {
            assert(x == s[i]);
        } else {
            assert(s.skip(i + 1)[j - 1] == x);
        }
    }
    if x == s[i] {
        assert(s.skip(i)[0] == x);
    }
    if s.skip(i + 1).contains(x) {
        let j = choose|j: int| 0 <= j < s.skip(i + 1).len() && #[trigger] s.skip(i + 1)[j] == x;
        assert(s.skip(i)[j + 1] == x);
    }
}

/// Raised when a parent id has no record even though it was never
/// recorded as a dangling reference: the closure fixpoint was not
/// actually reached, so propagation must not run.
#[derive(Debug, Clone, Copy, PartialEq, Eq, Structural)]
pub struct BrokenInvariantError {
    pub id: i64,
}

/// Every parent edge of every known node lands on a known node or on a
/// recorded dangling id.
pub open spec fn parents_accounted(m: Map<i64, NodeSpec>, dangling: Set<i64>) -> bool {
    forall|x: i64| #[trigger] m.contains_key(x) ==> match m[x].parent {
        Some(p) => m.contains_key(p) || dangling.contains(p),
        None => true,
    }
}

/// Counters describing how much work one propagation pass did.
#[derive(Debug, Clone, Copy, PartialEq, Eq, Structural)]
pub struct PropagateStats {
    /// Walk iterations in total, over all walks.
    pub steps: u128,
    /// Nodes whose `live` mark was flipped from false to true.
    pub flips: usize,
    /// Walks that stopped because a parent id had no record (a dangling
    /// reference left by closure completion).
    pub truncated: usize,
}

/// Mark every ancestor of every directly referenced node live.
///
/// For each directly referenced node the pass walks the parent chain,
/// marking nodes live, and stops early at the first node already marked —
/// everything above it was settled by an earlier walk. A walk also stops
/// at a missing parent id (a recorded dangling reference): liveness cannot
/// climb past a node the store never produced.
///
/// The contract states, in order: the pass only flips `live` marks and
/// flips them false-to-true only (liveness is monotone); every mark it
/// sets is deserved; on a store fresh from loading (`live` still equal to
/// `directly_referenced`) the final marks are exactly the deserved ones;
/// and the total work is linear — at most two walk iterations per node,
/// however deep the chains or however many walks share them.
pub fn propagate(g: &mut GraphStore) -> (stats: PropagateStats)
    ensures
        same_shape(old(g)@, final(g)@),
        forall|x: i64| #[trigger] old(g)@.contains_key(x) && old(g)@[x].live ==> final(g)@[x].live,
        forall|x: i64| #[trigger] final(g)@.contains_key(x) && final(g)@[x].live
            ==> old(g)@[x].live || ref_reachable(old(g)@, x),
        live_eq_referenced(old(g)@) ==> forall|x: i64| #[trigger] final(g)@.contains_key(x)
            ==> (final(g)@[x].live <==> ref_reachable(old(g)@, x)),
        stats.flips + dead_set(final(g)@).len() == dead_set(old(g)@).len(),
        stats.steps <= 2 * old(g)@.dom().len(),
{
    let ghost m0 = g@;
    let ids = g.all_ids();
    let n = ids.len();
    proof {
        vstd::seq_lib::seq_to_set_is_finite(ids@);
        ids@.unique_seq_to_set();
        assert(dead_set(m0) =~= m0.dom().intersect(Set::new(|k: i64| !m0[k].live)));
        assert(dead_set(m0).subset_of(m0.dom()));
        vstd::set_lib::lemma_len_subset(dead_set(m0), m0.dom());
    }
    proof {
        if live_eq_referenced(m0) {
            assert forall|x: i64| #[trigger] g@.contains_key(x) && g@[x].live
                implies parent_settled(g@, ids@.skip(0), None, x) by {
                assert(ids@.to_set().contains(x));
                assert(ids@.skip(0) =~= ids@);
            }
        }
    }
    let mut stats = PropagateStats { steps: 0, flips: 0, truncated: 0 };
    let mut i: usize = 0;
    while i < n
        invariant
            i <= n,
            n == ids@.len(),
            ids@.no_duplicates(),
            ids@.to_set() == m0.dom(),
            n == m0.dom().len(),
            m0.dom().finite(),
            dead_set(m0).len() <= n,
            same_shape(m0, g@),
            forall|x: i64| #[trigger] m0.contains_key(x) && m0[x].live ==> g@[x].live,
            forall|x: i64| #[trigger] g@.contains_key(x) && g@[x].live
                ==> m0[x].live || ref_reachable(m0, x),
            live_eq_referenced(m0) ==> up_closed_except(g@, ids@.skip(i as int), None),
            stats.flips + dead_set(g@).len() == dead_set(m0).len(),
            dead_set(g@).finite(),
            stats.steps <= i + stats.flips,
            stats.truncated <= i,
        decreases n - i,
    {
        let id = ids[i];
        proof {
            assert(ids@[i as int] == id);
            assert(ids@.contains(id));
            assert(ids@.to_set().contains(id));
        }
        let referenced: bool;
        let first: Option<i64>;
        match g.get(id) {
            Some(nd) => {
                referenced = nd.directly_referenced;
                first = nd.parent;
            }
            None => {
                proof {
                    assert(false);
                }
                referenced = false;
                first = None;
            }
        }
        if referenced {
            let ghost d = id;
            let mut cursor: Option<i64> = first;
            let ghost mut kg: nat = 1;
            proof {
                assert(m0.contains_key(d));
                assert(m0[d].directly_referenced);
                assert(m0[d].parent == first);
                if let Some(p0) = first {
                    if m0.contains_key(p0) {
                        assert(chain(m0, p0, p0, 0));
                        assert(chain(m0, d, p0, 1));
                    }
                }
                if live_eq_referenced(m0) {
                    assert forall|x: i64| #[trigger] g@.contains_key(x) && g@[x].live
                        implies parent_settled(g@, ids@.skip(i as int + 1), cursor, x) by {
                        assert(parent_settled(g@, ids@.skip(i as int), None, x));
                        if x != d {
                            lemma_skip_step(ids@, i as int, x);
                        }
                    }
                }
            }
            loop
                invariant_except_break
                    match cursor {
                        Some(c) => m0.contains_key(c) ==> chain(m0, d, c, kg),
                        None => true,
                    },
                    live_eq_referenced(m0) ==> up_closed_except(g@, ids@.skip(i as int + 1), cursor),
                    stats.steps <= i + stats.flips,
                    stats.truncated <= i,
                invariant
                    i < n,
                    n == ids@.len(),
                    n == m0.dom().len(),
                    m0.dom().finite(),
                    dead_set(m0).len() <= n,
                    m0.contains_key(d),
                    m0[d].directly_referenced,
                    same_shape(m0, g@),
                    forall|x: i64| #[trigger] m0.contains_key(x) && m0[x].live ==> g@[x].live,
                    forall|x: i64| #[trigger] g@.contains_key(x) && g@[x].live
                        ==> m0[x].live || ref_reachable(m0, x),
                    stats.flips + dead_set(g@).len() == dead_set(m0).len(),
                    dead_set(g@).finite(),
                ensures
                    live_eq_referenced(m0) ==> up_closed_except(g@, ids@.skip(i as int + 1), None),
                    stats.steps <= i + 1 + stats.flips,
                    stats.truncated <= i + 1,
                decreases dead_set(g@).len(),
            {
                stats.steps = stats.steps + 1;
                let c: i64;
                match cursor {
                    Some(cc) => {
                        c = cc;
                    }
                    None => {
                        break;
                    }
                }
                let c_present: bool;
                let c_live: bool;
                let c_parent: Option<i64>;
                match g.get(c) {
                    Some(nd) => {
                        c_present = true;
                        c_live = nd.live;
                        c_parent = nd.parent;
                    }
                    None => {
                        c_present = false;
                        c_live = false;
                        c_parent = None;
                    }
                }
                if !c_present {
                    stats.truncated = stats.truncated + 1;
                    proof {
                        if live_eq_referenced(m0) {
                            assert forall|x: i64| #[trigger] g@.contains_key(x) && g@[x].live
                                implies parent_settled(g@, ids@.skip(i as int + 1), None, x) by {
                                assert(parent_settled(g@, ids@.skip(i as int + 1), cursor, x));
                            }
                        }
                    }
                    break;
                }
                if c_live {
                    proof {
                        if live_eq_referenced(m0) {
                            assert forall|x: i64| #[trigger] g@.contains_key(x) && g@[x].live
                                implies parent_settled(g@, ids@.skip(i as int + 1), None, x) by {
                                assert(parent_settled(g@, ids@.skip(i as int + 1), cursor, x));
                            }
                        }
                    }
                    break;
                }
                // `c` is present and not yet live: flip it and climb.
                let ghost mpre = g@;
                proof {
                    assert(dead_set(mpre).contains(c));
                }
                g.set_live(c);
                stats.flips = stats.flips + 1;
                proof {
                    assert(g@.dom() =~= mpre.dom());
                    assert(same_shape(m0, g@)) by {
                        assert forall|x: i64| #[trigger] m0.contains_key(x)
                            implies g@[x].children == m0[x].children && g@[x].parent == m0[x].parent
                                && g@[x].directly_referenced == m0[x].directly_referenced by {
                            if x != c {
                                assert(g@[x] == mpre[x]);
                            }
                        }
                    }
                    assert(dead_set(g@) =~= dead_set(mpre).remove(c));
                    // the flipped node deserved its mark
                    assert(chain(m0, d, c, kg));
                    assert(ref_reachable(m0, c)) by {
                        assert(m0.contains_key(d) && m0[d].directly_referenced && chain(m0, d, c, kg));
                    }
                    // chain evidence for the next cursor
                    if let Some(p) = c_parent {
                        assert(m0[c].parent == Some(p));
                        if m0.contains_key(p) {
                            lemma_chain_snoc(m0, d, c, p, kg);
                        }
                    }
                    // upward closure, with the excuse moved to the new cursor
                    if live_eq_referenced(m0) {
                        assert forall|x: i64| #[trigger] g@.contains_key(x) && g@[x].live
                            implies parent_settled(g@, ids@.skip(i as int + 1), c_parent, x) by {
                            if x == c {
                                assert(g@[c].parent == m0[c].parent);
                            } else {
                                assert(mpre.contains_key(x) && mpre[x].live);
                                assert(parent_settled(mpre, ids@.skip(i as int + 1), cursor, x));
                            }
                        }
                    }
                    kg = kg + 1;
                }
                cursor = c_parent;
            }
        } else {
            proof {
                if live_eq_referenced(m0) {
                    assert forall|x: i64| #[trigger] g@.contains_key(x) && g@[x].live
                        implies parent_settled(g@, ids@.skip(i as int + 1), None, x) by {
                        assert(parent_settled(g@, ids@.skip(i as int), None, x));
                        if x != id {
                            lemma_skip_step(ids@, i as int, x);
                        } else {
                            assert(g@[id].directly_referenced == m0[id].directly_referenced);
                        }
                    }
                }
            }
        }
        i += 1;
    }
    proof {
        // no excuses are left once every id has been processed
        assert(ids@.skip(n as int) =~= Seq::<i64>::empty());
        if live_eq_referenced(m0) {
            assert(up_closed(g@)) by {
                assert forall|x: i64| #[trigger] g@.contains_key(x) && g@[x].live
                    implies match g@[x].parent {
                        Some(p) => !g@.contains_key(p) || g@[p].live,
                        None => true,
                    } by {
                    assert(parent_settled(g@, ids@.skip(n as int), None, x));
                    if let Some(p) = g@[x].parent {
                        assert(!ids@.skip(n as int).contains(x));
                    }
                }
            }
            assert forall|x: i64| #[trigger] g@.contains_key(x)
                implies (g@[x].live <==> ref_reachable(m0, x)) by {
                if g@[x].live {
                    if m0[x].live {
                        assert(chain(m0, x, x, 0));
                        assert(ref_reachable(m0, x)) by {
                            assert(m0.contains_key(x) && m0[x].directly_referenced && chain(m0, x, x, 0));
                        }
                    }
                }
                if ref_reachable(m0, x) {
                    let (dd, k) = choose|dd: i64, k: nat|
                        m0.contains_key(dd) && m0[dd].directly_referenced && chain(m0, dd, x, k);
                    assert(m0[dd].live);
                    assert(g@[dd].live);
                    lemma_chain_same_shape(m0, g@, dd, x, k);
                    lemma_live_up(g@, dd, x, k);
                }
            }
        }
        assert(stats.steps <= 2 * m0.dom().len());
    }
    stats
}

/// Propagation guarded by the invariant the closure phase owes it:
/// every parent edge must land on a known node or on one of the recorded
/// dangling ids. A parent id accounted for nowhere means the closure
/// fixpoint was not reached; the store is left untouched and the stray
/// id is reported. Otherwise this is exactly `propagate`.
pub fn propagate_checked(g: &mut GraphStore, dangling: &Vec<i64>) -> (r: Result<
    PropagateStats,
    BrokenInvariantError,
>)
    ensures
        match r {
            Ok(stats) => parents_accounted(old(g)@, dangling@.to_set())
                && same_shape(old(g)@, final(g)@)
                && (forall|x: i64| #[trigger] old(g)@.contains_key(x) && old(g)@[x].live
                    ==> final(g)@[x].live)
                && (forall|x: i64| #[trigger] final(g)@.contains_key(x) && final(g)@[x].live
                    ==> old(g)@[x].live || ref_reachable(old(g)@, x))
                && (live_eq_referenced(old(g)@) ==> forall|x: i64|
                    #[trigger] final(g)@.contains_key(x)
                    ==> (final(g)@[x].live <==> ref_reachable(old(g)@, x)))
                && stats.flips + dead_set(final(g)@).len() == dead_set(old(g)@).len()
                && stats.steps <= 2 * old(g)@.dom().len(),
            Err(e) => final(g)@ == old(g)@
                && !parents_accounted(old(g)@, dangling@.to_set())
                && exists|x: i64| #[trigger] old(g)@.contains_key(x)
                    && old(g)@[x].parent == Some(e.id)
                    && !old(g)@.contains_key(e.id)
                    && !dangling@.to_set().contains(e.id),
        },
{
    let ids = g.all_ids();
    let mut i: usize = 0;
    while i < ids.len()
        invariant
            i <= ids@.len(),
            ids@.to_set() == g@.dom(),
            forall|t: int| 0 <= t < i ==> match g@[#[trigger] ids@[t]].parent {
                Some(p) => g@.contains_key(p) || dangling@.to_set().contains(p),
                None => true,
            },
        decreases ids@.len() - i,
    {
        let id = ids[i];
        proof {
            assert(ids@[i as int] == id);
            assert(ids@.contains(id));
            assert(ids@.to_set().contains(id));
        }
        match g.get(id) {
            Some(nd) => {
                if let Some(p) = nd.parent {
                    if !g.contains(p) && !crate::store::vec_contains(dangling, p) {
                        proof {
                            assert(g@.contains_key(id) && g@[id].parent == Some(p)
                                && !g@.contains_key(p) && !dangling@.to_set().contains(p));
                        }
                        return Err(BrokenInvariantError { id: p });
                    }
                }
            }
            None => {
                proof {
                    assert(false);
                }
            }
        }
        i += 1;
    }
    proof {
        assert(parents_accounted(g@, dangling@.to_set())) by {
            assert forall|x: i64| #[trigger] g@.contains_key(x)
                implies match g@[x].parent {
                    Some(p) => g@.contains_key(p) || dangling@.to_set().contains(p),
                    None => true,
                } by {
                assert(ids@.to_set().contains(x));
                assert(ids@.contains(x));
                let t = choose|t: int| 0 <= t < ids@.len() && ids@[t] == x;
                assert(ids@[t] == x);
            }
        }
    }
    Ok(propagate(g))
}

} // verus!
