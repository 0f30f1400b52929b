//! The priority queue of the tree builder: a sequence of trees kept in
//! ascending order of frequency. Among trees of one frequency the one that
//! came first leaves first.
use crate::format::joined;
use crate::node::Node;
use vstd::prelude::*;

verus! {

/// The queue is in ascending order of frequency.
pub open spec fn ordered(q: Seq<Node>) -> bool {
    forall|i: int, j: int| 0 <= i <= j < q.len() ==> q[i].freq <= q[j].freq
}

/// Where a newcomer of frequency `f` goes: before the first tree from the
/// front that is more frequent, and so behind every tree of its own
/// frequency in an ordered queue.
pub open spec fn slot(q: Seq<Node>, f: u32) -> int
    decreases q.len(),
{
    if q.len() == 0 || q[0].freq > f {
        0
    } else {
        1 + slot(q.drop_first(), f)
    }
}

/// The queue after `node` has joined it.
pub open spec fn inserted(q: Seq<Node>, node: Node) -> Seq<Node> {
    q.insert(slot(q, node.freq), node)
}

/// The queue after each of `nodes` has joined it, first node first.
pub open spec fn filled(q: Seq<Node>, nodes: Seq<Node>) -> Seq<Node>
    decreases nodes.len(),
{
    if nodes.len() == 0 {
        q
    } else {
        filled(inserted(q, nodes[0]), nodes.drop_first())
    }
}

/// The queue after merging for as long as it holds two trees: the two at
/// the front leave, the first as right and the second as left child of a new
/// node, which joins the queue.
pub open spec fn merged(q: Seq<Node>) -> Seq<Node>
    decreases q.len(),
    via merged_shrinks
{
    if q.len() <= 1 {
        q
    } else {
        merged(inserted(q.skip(2), joined(q[0], q[1])))
    }
}

#[via_fn]
proof fn merged_shrinks(q: Seq<Node>) {
    if q.len() > 1 {
        lemma_slot(q.skip(2), joined(q[0], q[1]).freq);
    }
}

/// The sum of the frequencies at the roots of the trees in the queue.
pub open spec fn total_freq(q: Seq<Node>) -> nat
    decreases q.len(),
{
    if q.len() == 0 {
        0
    } else {
        q[0].freq as nat + total_freq(q.drop_first())
    }
}

/// The symbols on the leaves of the trees in the queue.
pub open spec fn symbol_set(q: Seq<Node>) -> Set<char> {
    Set::new(|c: char| exists|i: int| 0 <= i < q.len() && #[trigger] q[i].symbols().contains(c))
}

/// Every tree in the queue is strictly binary.
pub open spec fn all_wf(q: Seq<Node>) -> bool {
    forall|i: int| 0 <= i < q.len() ==> (#[trigger] q[i]).wf()
}

/// The slot lies in the queue, no tree before it is more frequent than `f`,
/// and the tree at it, if there is one, is.
pub proof fn lemma_slot(q: Seq<Node>, f: u32)
    ensures
        0 <= slot(q, f) <= q.len(),
        forall|i: int| 0 <= i < slot(q, f) ==> (#[trigger] q[i]).freq <= f,
        slot(q, f) < q.len() ==> q[slot(q, f)].freq > f,
    decreases q.len(),
{
    if q.len() == 0 || q[0].freq > f {
    } else {
        let rest = q.drop_first();
        lemma_slot(rest, f);
        assert forall|i: int| 0 <= i < slot(q, f) implies (#[trigger] q[i]).freq <= f by {
            if i > 0 {
                assert(q[i] == rest[i - 1]);
            }
        }
        if slot(q, f) < q.len() {
            assert(q[slot(q, f)] == rest[slot(rest, f)]);
        }
    }
}

/// Joining keeps the queue in order.
pub proof fn lemma_inserted_ordered(q: Seq<Node>, node: Node)
    requires
        ordered(q),
    ensures
        ordered(inserted(q, node)),
        inserted(q, node).len() == q.len() + 1,
{
    lemma_slot(q, node.freq);
    let k = slot(q, node.freq);
    let r = inserted(q, node);
    assert forall|i: int, j: int| 0 <= i <= j < r.len() implies r[i].freq <= r[j].freq by {
        if j < k {
            assert(r[i] == q[i] && r[j] == q[j]);
        } else if j == k {
            if i < k {
                assert(r[i] == q[i]);
            }
        } else {
            assert(r[j] == q[j - 1]);
            if i < k {
                assert(r[i] == q[i]);
            } else if i == k {
                assert(q[k].freq <= q[j - 1].freq);
            } else {
                assert(r[i] == q[i - 1]);
            }
        }
    }
}

/// A queue in order stays in order while nodes join it.
pub proof fn lemma_filled_ordered(q: Seq<Node>, nodes: Seq<Node>)
    requires
        ordered(q),
    ensures
        ordered(filled(q, nodes)),
        filled(q, nodes).len() == q.len() + nodes.len(),
    decreases nodes.len(),
{
    if nodes.len() > 0 {
        lemma_inserted_ordered(q, nodes[0]);
        lemma_filled_ordered(inserted(q, nodes[0]), nodes.drop_first());
    }
}

/// The two trees at the front of a queue in order are the two least
/// frequent, and the queue is in order again after they were joined.
pub proof fn lemma_front_is_least(q: Seq<Node>)
    requires
        ordered(q),
        q.len() >= 2,
    ensures
        forall|i: int| 1 <= i < q.len() ==> q[0].freq <= (#[trigger] q[i]).freq,
        forall|i: int| 2 <= i < q.len() ==> q[1].freq <= (#[trigger] q[i]).freq,
        ordered(inserted(q.skip(2), joined(q[0], q[1]))),
{
    let rest = q.skip(2);
    assert forall|i: int, j: int| 0 <= i <= j < rest.len() implies rest[i].freq <= rest[j].freq by {
        assert(rest[i] == q[i + 2] && rest[j] == q[j + 2]);
    }
    lemma_inserted_ordered(rest, joined(q[0], q[1]));
}

/// The sum over a queue with one more tree, wherever it was put.
pub proof fn lemma_total_freq_insert(q: Seq<Node>, k: int, node: Node)
    requires
        0 <= k <= q.len(),
    ensures
        total_freq(q.insert(k, node)) == total_freq(q) + node.freq,
    decreases q.len(),
{
    let r = q.insert(k, node);
    if k == 0 {
        assert(r.drop_first() =~= q);
    } else {
        assert(r.drop_first() =~= q.drop_first().insert(k - 1, node));
        lemma_total_freq_insert(q.drop_first(), k - 1, node);
    }
}

/// The sum over a queue bounds the frequency of each tree in it, and of the
/// two at its front together.
pub proof fn lemma_total_freq_bounds(q: Seq<Node>)
    ensures
        forall|i: int| 0 <= i < q.len() ==> (#[trigger] q[i]).freq <= total_freq(q),
        q.len() >= 2 ==> total_freq(q) == q[0].freq + q[1].freq + total_freq(q.skip(2)),
    decreases q.len(),
{
    if q.len() > 0 {
        let rest = q.drop_first();
        lemma_total_freq_bounds(rest);
        assert forall|i: int| 0 <= i < q.len() implies (#[trigger] q[i]).freq <= total_freq(q) by {
            if i > 0 {
                assert(q[i] == rest[i - 1]);
            }
        }
        if q.len() >= 2 {
            assert(rest.drop_first() =~= q.skip(2));
        }
    }
}

/// The symbols of a queue with one more tree, wherever it was put.
pub proof fn lemma_symbol_set_insert(q: Seq<Node>, k: int, node: Node)
    requires
        0 <= k <= q.len(),
    ensures
        symbol_set(q.insert(k, node)) == symbol_set(q).union(node.symbols().to_set()),
{
    let r = q.insert(k, node);
    assert forall|c: char| symbol_set(r).contains(c) <==> symbol_set(q).union(
        node.symbols().to_set(),
    ).contains(c) by {
        if symbol_set(r).contains(c) {
            let i = choose|i: int| 0 <= i < r.len() && #[trigger] r[i].symbols().contains(c);
            if i < k {
                assert(q[i].symbols().contains(c));
            } else if i > k {
                assert(q[i - 1].symbols().contains(c));
            }
        }
        if symbol_set(q).contains(c) {
            let i = choose|i: int| 0 <= i < q.len() && #[trigger] q[i].symbols().contains(c);
            if i < k {
                assert(r[i].symbols().contains(c));
            } else {
                assert(r[i + 1].symbols().contains(c));
            }
        }
        if node.symbols().to_set().contains(c) {
            assert(r[k].symbols().contains(c));
        }
    }
    assert(symbol_set(r) =~= symbol_set(q).union(node.symbols().to_set()));
}

/// The symbols of a queue from which the two trees at the front were taken
/// and joined into one that was put back.
pub proof fn lemma_symbol_set_merge(q: Seq<Node>, k: int)
    requires
        q.len() >= 2,
        0 <= k <= q.len() - 2,
    ensures
        symbol_set(q.skip(2).insert(k, joined(q[0], q[1]))) == symbol_set(q),
{
    let node = joined(q[0], q[1]);
    let rest = q.skip(2);
    lemma_symbol_set_insert(rest, k, node);
    assert(node.symbols() =~= q[0].symbols() + q[1].symbols());
    assert forall|c: char| symbol_set(rest).union(node.symbols().to_set()).contains(c)
        <==> symbol_set(q).contains(c) by {
        if symbol_set(rest).contains(c) {
            let i = choose|i: int| 0 <= i < rest.len() && #[trigger] rest[i].symbols().contains(c);
            assert(q[i + 2].symbols().contains(c));
        }
        if node.symbols().contains(c) {
            let i = choose|i: int| 0 <= i < node.symbols().len() && node.symbols()[i] == c;
            if i < q[0].symbols().len() {
                assert(q[0].symbols()[i] == c);
                assert(q[0].symbols().contains(c));
            } else {
                assert(q[1].symbols()[i - q[0].symbols().len()] == c);
                assert(q[1].symbols().contains(c));
            }
        }
        if symbol_set(q).contains(c) {
            let i = choose|i: int| 0 <= i < q.len() && #[trigger] q[i].symbols().contains(c);
            if i == 0 {
                let j = choose|j: int| 0 <= j < q[0].symbols().len() && q[0].symbols()[j] == c;
                assert(node.symbols()[j] == c);
            } else if i == 1 {
                let j = choose|j: int| 0 <= j < q[1].symbols().len() && q[1].symbols()[j] == c;
                assert(node.symbols()[q[0].symbols().len() + j] == c);
            } else {
                assert(rest[i - 2].symbols().contains(c));
            }
        }
    }
    assert(symbol_set(rest).union(node.symbols().to_set()) =~= symbol_set(q));
}

/// Puts `node` into the queue at its slot.
pub fn queue_push(queue: &mut Vec<Node>, node: Node)
    ensures
        final(queue)@ == inserted(old(queue)@, node),
{
    let mut i: usize = 0;
    assert(queue@.skip(0) =~= queue@);
    while i < queue.len() && queue[i].freq <= node.freq
        invariant
            i <= queue.len(),
            queue@ == old(queue)@,
            slot(queue@, node.freq) == i + slot(queue@.skip(i as int), node.freq),
        decreases queue.len() - i,
    {
        assert(queue@.skip(i as int).drop_first() =~= queue@.skip(i as int + 1));
        i += 1;
    }
    queue.insert(i, node);
}

} // verus!
