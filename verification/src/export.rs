//! What is written into an export is what is read from it.

use crate::double::{Double, ONE_BITS, THOUSAND_BITS, ZERO_BITS};
use crate::graph::{
    complete_export, links_of, record_fits, record_links, record_start, types_of, Graph,
};
use vstd::prelude::*;

verus! {

/// A node as it is written: its id, its type and its links.
pub struct Entry {
    pub id: i32,
    pub ty: i32,
    pub links: Seq<i32>,
}

/// Some nodes, written one after the other.
pub open spec fn written(nodes: Seq<Entry>) -> Seq<i32>
    decreases nodes.len(),
{
    if nodes.len() == 0 {
        Seq::empty()
    } else {
        let e = nodes.last();
        written(nodes.drop_last()) + seq![e.id, e.ty, e.links.len() as i32] + e.links
    }
}

/// An export: the class start, the budget, the number of nodes, the nodes and a tail.
pub open spec fn exported(start: i32, budget: i32, nodes: Seq<Entry>, tail: Seq<i32>) -> Seq<i32> {
    seq![start, budget, nodes.len() as i32] + written(nodes) + tail
}

/// Whether the counts of an export of these nodes fit into 32 bits.
pub open spec fn countable(nodes: Seq<Entry>) -> bool {
    &&& nodes.len() <= i32::MAX
    &&& forall|i: int| 0 <= i < nodes.len() ==> (#[trigger] nodes[i]).links.len() <= i32::MAX
}

/// What the first nodes are written as stands before the rest.
proof fn lemma_written_begins(nodes: Seq<Entry>, i: int)
    requires
        0 <= i <= nodes.len(),
    ensures
        written(nodes.take(i)).len() <= written(nodes).len(),
        written(nodes).take(written(nodes.take(i)).len() as int) == written(nodes.take(i)),
    decreases nodes.len(),
{
    let short = written(nodes.take(i));
    if i == nodes.len() {
        assert(nodes.take(i) =~= nodes);
        assert(written(nodes).take(short.len() as int) =~= short);
    } else {
        lemma_written_begins(nodes.drop_last(), i);
        assert(nodes.drop_last().take(i) =~= nodes.take(i));
        let most = written(nodes.drop_last());
        assert(written(nodes).take(short.len() as int) =~= most.take(short.len() as int));
    }
}

/// Where node number `i` stands, and as what.
proof fn lemma_place(start: i32, budget: i32, nodes: Seq<Entry>, tail: Seq<i32>, i: nat)
    requires
        countable(nodes),
        i <= nodes.len(),
    ensures
        ({
            let flat = exported(start, budget, nodes, tail);
            let p = record_start(flat, i);
            &&& p == 3 + written(nodes.take(i as int)).len()
            &&& p <= 3 + written(nodes).len()
            &&& i < nodes.len() ==> {
                let e = nodes[i as int];
                &&& p + 3 + e.links.len() <= 3 + written(nodes).len()
                &&& flat[p] == e.id
                &&& flat[p + 1] == e.ty
                &&& flat[p + 2] == e.links.len()
                &&& record_links(flat, i) == e.links
            }
        }),
    decreases i,
{
    let flat = exported(start, budget, nodes, tail);
    let all = written(nodes);
    lemma_written_begins(nodes, i as int);
    if i == 0 {
        assert(nodes.take(0) =~= Seq::empty());
    } else {
        let before = (i - 1) as nat;
        lemma_place(start, budget, nodes, tail, before);
        assert(nodes.take(i as int).drop_last() =~= nodes.take(before as int));
    }
    if i < nodes.len() {
        let e = nodes[i as int];
        let short = written(nodes.take(i as int));
        let s: int = short.len() as int;
        let next = written(nodes.take(i as int + 1));
        let p = record_start(flat, i);
        lemma_written_begins(nodes, i as int + 1);
        assert(nodes.take(i as int + 1).drop_last() =~= nodes.take(i as int));
        assert(nodes.take(i as int + 1).last() == e);
        assert(next == short + seq![e.id, e.ty, e.links.len() as i32] + e.links);
        assert forall|k: int| 0 <= k < next.len() implies flat[3 + k] == #[trigger] next[k] by {
            assert(all.take(next.len() as int)[k] == all[k]);
        }
        assert(next[s] == e.id);
        assert(next[s + 1] == e.ty);
        assert(next[s + 2] == e.links.len() as i32);
        assert(flat[p + 2] == e.links.len());
        assert forall|k: int| 0 <= k < e.links.len() implies #[trigger] record_links(flat, i)[k]
            == e.links[k] by {
            assert(next[s + 3 + k] == e.links[k]);
        }
        assert(record_links(flat, i) =~= e.links);
    }
}

/// What the first `n` nodes give.
proof fn lemma_first_nodes(
    start: i32,
    budget: i32,
    nodes: Seq<Entry>,
    tail: Seq<i32>,
    n: nat,
    id: i32,
)
    requires
        countable(nodes),
        n <= nodes.len(),
    ensures
        ({
            let flat = exported(start, budget, nodes, tail);
            &&& types_of(flat, n).dom() == links_of(flat, n).dom()
            &&& types_of(flat, n).contains_key(id) ==> exists|i: int|
                0 <= i < n && (#[trigger] nodes[i]).id == id
            &&& forall|i: int|
                0 <= i < n && (#[trigger] nodes[i]).id == id && (forall|j: int|
                    i < j < n ==> (#[trigger] nodes[j]).id != id) ==> types_of(
                    flat,
                    n,
                ).contains_key(id) && types_of(flat, n)[id] == nodes[i].ty && links_of(flat, n)[id]
                    == nodes[i].links
        }),
    decreases n,
{
    let flat = exported(start, budget, nodes, tail);
    if n > 0 {
        let last = (n - 1) as nat;
        lemma_first_nodes(start, budget, nodes, tail, last, id);
        lemma_place(start, budget, nodes, tail, last);
        assert(types_of(flat, n).dom() =~= links_of(flat, n).dom());
        assert forall|i: int|
            0 <= i < n && (#[trigger] nodes[i]).id == id && (forall|j: int|
                i < j < n ==> (#[trigger] nodes[j]).id != id) implies types_of(
            flat,
            n,
        ).contains_key(id) && types_of(flat, n)[id] == nodes[i].ty && links_of(flat, n)[id]
            == nodes[i].links by {
            if i < last {
                assert(nodes[last as int].id != id);
            }
        }
        if types_of(flat, n).contains_key(id) && nodes[last as int].id != id {
            assert(types_of(flat, last).contains_key(id));
        }
    } else {
        assert(types_of(flat, n).dom() =~= links_of(flat, n).dom());
    }
}

/// An export of nodes is complete, and the tree that is read from it has the start and
/// the budget that were written, no budget where it was negative.
pub proof fn lemma_export_is_complete(
    g: Graph,
    start: i32,
    budget: i32,
    nodes: Seq<Entry>,
    tail: Seq<i32>,
)
    requires
        countable(nodes),
    ensures
        complete_export(exported(start, budget, nodes, tail)),
        g.read_from(exported(start, budget, nodes, tail)) ==> {
            &&& g.start == start
            &&& budget >= 0 ==> g.budget == budget
            &&& budget < 0 ==> g.budget == 0
        },
{
    let flat = exported(start, budget, nodes, tail);
    assert forall|i: nat| i < flat[2] implies #[trigger] record_fits(flat, i) by {
        lemma_place(start, budget, nodes, tail, i);
    }
}

/// The nodes of the tree are those that were written; where an id was written more than
/// once, the last time counts.
pub proof fn lemma_nodes_are_read(
    g: Graph,
    start: i32,
    budget: i32,
    nodes: Seq<Entry>,
    tail: Seq<i32>,
    id: i32,
)
    requires
        countable(nodes),
        g.read_from(exported(start, budget, nodes, tail)),
    ensures
        g.ty@.contains_key(id) <==> exists|i: int|
            0 <= i < nodes.len() && (#[trigger] nodes[i]).id == id,
        g.links@.contains_key(id) <==> g.ty@.contains_key(id),
        forall|i: int|
            0 <= i < nodes.len() && (#[trigger] nodes[i]).id == id && (forall|j: int|
                i < j < nodes.len() ==> (#[trigger] nodes[j]).id != id) ==> g.ty@[id] == nodes[i].ty
                && g.links@[id]@ == nodes[i].links,
{
    let flat = exported(start, budget, nodes, tail);
    let n = nodes.len();
    lemma_first_nodes(start, budget, nodes, tail, n, id);
    assert(g.adjacency() == links_of(flat, n));
    assert(g.links@.dom() =~= g.adjacency().dom());
    if exists|i: int| 0 <= i < nodes.len() && (#[trigger] nodes[i]).id == id {
        let i = choose|i: int| 0 <= i < nodes.len() && (#[trigger] nodes[i]).id == id;
        let k = last_of(nodes, id, i);
        lemma_last_of(nodes, id, i);
        assert(nodes[k].id == id);
    }
    assert forall|i: int|
        0 <= i < nodes.len() && (#[trigger] nodes[i]).id == id && (forall|j: int|
            i < j < nodes.len() ==> (#[trigger] nodes[j]).id != id) implies g.ty@[id]
        == nodes[i].ty && g.links@[id]@ == nodes[i].links by {
        assert(g.adjacency()[id] == g.links@[id]@);
    }
}

/// The last place of an id, from one of its places on.
spec fn last_of(nodes: Seq<Entry>, id: i32, i: int) -> int
    decreases nodes.len() - i,
{
    if exists|j: int| i < j < nodes.len() && (#[trigger] nodes[j]).id == id {
        last_of(
            nodes,
            id,
            choose|j: int| i < j < nodes.len() && (#[trigger] nodes[j]).id == id,
        )
    } else {
        i
    }
}

proof fn lemma_last_of(nodes: Seq<Entry>, id: i32, i: int)
    requires
        0 <= i < nodes.len(),
        nodes[i].id == id,
    ensures
        0 <= last_of(nodes, id, i) < nodes.len(),
        nodes[last_of(nodes, id, i)].id == id,
        forall|j: int|
            last_of(nodes, id, i) < j < nodes.len() ==> (#[trigger] nodes[j]).id != id,
    decreases nodes.len() - i,
{
    if exists|j: int| i < j < nodes.len() && (#[trigger] nodes[j]).id == id {
        lemma_last_of(
            nodes,
            id,
            choose|j: int| i < j < nodes.len() && (#[trigger] nodes[j]).id == id,
        );
    }
}

/// The constants behind the nodes are counts of thousandths: damage and hit points of
/// the original build, 1 at least, the weight of each and the penalty. Where fewer than
/// five numbers are left there are no constants.
pub proof fn lemma_constants_are_read(
    g: Graph,
    start: i32,
    budget: i32,
    nodes: Seq<Entry>,
    tail: Seq<i32>,
)
    requires
        countable(nodes),
        g.read_from(exported(start, budget, nodes, tail)),
    ensures
        tail.len() >= 5 ==> {
            let one = Double { bits: ONE_BITS };
            let thousand = Double { bits: THOUSAND_BITS };
            let dps = Double::of_int(tail[0] as int).quotient(thousand);
            let ehp = Double::of_int(tail[1] as int).quotient(thousand);
            &&& g.ref_dps == (if dps.below(one) {
                one
            } else {
                dps
            })
            &&& g.ref_ehp == (if ehp.below(one) {
                one
            } else {
                ehp
            })
            &&& g.w_dps == Double::of_int(tail[2] as int).quotient(thousand)
            &&& g.w_ehp == Double::of_int(tail[3] as int).quotient(thousand)
            &&& g.penalty_k == Double::of_int(tail[4] as int).quotient(thousand)
        },
        tail.len() < 5 ==> {
            &&& g.ref_dps == (Double { bits: ONE_BITS })
            &&& g.ref_ehp == (Double { bits: ONE_BITS })
            &&& g.w_dps == (Double { bits: ONE_BITS })
            &&& g.w_ehp == (Double { bits: ONE_BITS })
            &&& g.penalty_k == (Double { bits: ZERO_BITS })
        },
{
    let flat = exported(start, budget, nodes, tail);
    let n = nodes.len();
    lemma_place(start, budget, nodes, tail, n);
    assert(nodes.take(n as int) =~= nodes);
    let p = record_start(flat, n);
    assert(p == 3 + written(nodes).len());
    assert(flat.len() == p + tail.len());
    assert(forall|k: int| 0 <= k < tail.len() ==> flat[p + k] == tail[k]);
}

} // verus!
