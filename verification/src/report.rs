use vstd::prelude::*;
use crate::store::GraphStore;
use crate::propagate::dead_set;

verus! {

/// The ids of the nodes not marked live — after propagation, the nodes
/// that no external reference can reach. Each id appears once, in the
/// store's insertion order.
pub fn unreferenced_ids(g: &GraphStore) -> (r: Vec<i64>)
    ensures
        r@.no_duplicates(),
        r@.to_set() == dead_set(g@),
{
    let ids = g.all_ids();
    let mut out: Vec<i64> = Vec::new();
    let mut i: usize = 0;
    while i < ids.len()
        invariant
            i <= ids@.len(),
            ids@.no_duplicates(),
            ids@.to_set() == g@.dom(),
            out@.no_duplicates(),
            out@.to_set() =~= ids@.take(i as int).to_set().intersect(dead_set(g@)),
        decreases ids@.len() - i,
    {
        let id = ids[i];
        proof {
            assert(ids@.take(i as int + 1) =~= ids@.take(i as int).push(id));
            ids@.take(i as int).lemma_push_to_set_commute(id);
            assert(ids@[i as int] == id);
            assert(ids@.contains(id));
            assert(!ids@.take(i as int).contains(id)) by {
                if ids@.take(i as int).contains(id) {
                    let j = choose|j: int| 0 <= j < i && #[trigger] ids@.take(i as int)[j] == id;
                    assert(ids@[j] == id);
                }
            }
        }
        match g.get(id) {
            Some(n) => {
                if !n.live {
                    let ghost o0 = out@;
                    proof {
                        assert(!ids@.take(i as int).to_set().contains(id));
                        assert(!o0.to_set().contains(id));
                        assert(!o0.contains(id));
                    }
                    out.push(id);
                    proof {
                        crate::store::push_keeps_no_duplicates(o0, id);
                        o0.lemma_push_to_set_commute(id);
                        assert(dead_set(g@).contains(id));
                        assert(out@.to_set() =~= ids@.take(i as int + 1).to_set().intersect(dead_set(g@)));
                    }
                } else {
                    proof {
                        assert(!dead_set(g@).contains(id));
                        assert(out@.to_set() =~= ids@.take(i as int + 1).to_set().intersect(dead_set(g@)));
                    }
                }
            }
            None => {
                proof {
                    assert(false);
                }
            }
        }
        i += 1;
    }
    proof {
        assert(ids@.take(ids@.len() as int) =~= ids@);
        assert(out@.to_set() =~= dead_set(g@)) by {
            assert(dead_set(g@).subset_of(g@.dom()));
        }
    }
    out
}

} // verus!
