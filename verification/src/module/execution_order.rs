//! Calculate in which order to execute the nodes.
//!
//! When node A needs the output of node B, node B must always execute before
//! node A is executed.

use vstd::prelude::*;
use crate::module::Module;
use crate::nodes::common::{resolve, Inlet, Ports};
use crate::table::{distinct, lemma_position_is, lemma_position_of, position_of, Table};

verus! {

/// Why no execution order could be planned.
#[derive(Debug, PartialEq, Eq, Structural)]
pub enum PlanError {
    /// Some nodes need each other's output, directly or through others.
    Cycle,
}

/// The inlet is connected to an outlet that node `p` has declared.
pub open spec fn reads(slot: Option<Inlet>, ports: Table<Ports>, p: int) -> bool {
    slot matches Some(inlet) && ports.names@[p]@ == inlet.node_id@ && ports.values@[p].outlets.has(
        inlet.outlet@,
    )
}

/// Node `c` needs the output of node `p`: one of its inlets is connected to
/// an outlet of `p`. Connections to nodes or outlets that do not exist make
/// no such need.
pub open spec fn depends(ports: Table<Ports>, c: int, p: int) -> bool {
    exists|j: int|
        0 <= j < ports.values@[c].inlets.values@.len() && reads(
            #[trigger] ports.values@[c].inlets.values@[j],
            ports,
            p,
        )
}

/// `order` names every node once, and each node behind all the nodes whose
/// output it needs.
pub open spec fn is_execution_order(ports: Table<Ports>, order: Seq<String>) -> bool {
    &&& order.len() == ports.names@.len()
    &&& distinct(order)
    &&& forall|k: int|
        0 <= k < ports.names@.len() ==> position_of(order, (#[trigger] ports.names@[k])@)
            < order.len()
    &&& forall|c: int, p: int|
        0 <= c < ports.names@.len() && 0 <= p < ports.names@.len() && #[trigger] depends(
            ports,
            c,
            p,
        ) ==> position_of(order, ports.names@[p]@) < position_of(order, ports.names@[c]@)
}

/// Some node is marked, and every marked node needs the output of a marked
/// node: following the needs from a marked node never ends.
pub open spec fn stuck(ports: Table<Ports>, waiting: Seq<bool>) -> bool {
    &&& waiting.len() == ports.names@.len()
    &&& exists|c: int| 0 <= c < waiting.len() && #[trigger] waiting[c]
    &&& forall|c: int|
        0 <= c < waiting.len() && #[trigger] waiting[c] ==> exists|p: int|
            0 <= p < waiting.len() && waiting[p] && #[trigger] depends(ports, c, p)
}

/// The needs of the nodes run in a circle somewhere.
pub open spec fn has_cycle(ports: Table<Ports>) -> bool {
    exists|waiting: Seq<bool>| stuck(ports, waiting)
}

/// Number of entries that are `false`.
pub open spec fn unplaced(placed: Seq<bool>) -> nat
    decreases placed.len(),
{
    if placed.len() == 0 {
        0
    } else if placed.last() {
        unplaced(placed.drop_last())
    } else {
        unplaced(placed.drop_last()) + 1
    }
}

proof fn lemma_unplaced_bounds(placed: Seq<bool>)
    ensures
        unplaced(placed) <= placed.len(),
        unplaced(placed) == 0 ==> forall|c: int| 0 <= c < placed.len() ==> placed[c],
        unplaced(placed) > 0 ==> exists|c: int| 0 <= c < placed.len() && !placed[c],
    decreases placed.len(),
{
    if placed.len() > 0 {
        let front = placed.drop_last();
        lemma_unplaced_bounds(front);
        if unplaced(placed) == 0 {
            assert forall|c: int| 0 <= c < placed.len() implies placed[c] by {
                if c < front.len() {
                    assert(front[c] == placed[c]);
                }
            }
        } else {
            if placed.last() {
                let c = choose|c: int| 0 <= c < front.len() && !front[c];
                assert(!placed[c]);
            } else {
                assert(!placed[placed.len() - 1]);
            }
        }
    }
}

proof fn lemma_unplaced_update(placed: Seq<bool>, c: int)
    requires
        0 <= c < placed.len(),
        !placed[c],
    ensures
        unplaced(placed.update(c, true)) + 1 == unplaced(placed),
    decreases placed.len(),
{
    let after = placed.update(c, true);
    if c == placed.len() - 1 {
        assert(after.drop_last() == placed.drop_last());
    } else {
        lemma_unplaced_update(placed.drop_last(), c);
        assert(after.drop_last() == placed.drop_last().update(c, true));
    }
}

proof fn lemma_unplaced_fresh(placed: Seq<bool>)
    requires
        forall|c: int| 0 <= c < placed.len() ==> !placed[c],
    ensures
        unplaced(placed) == placed.len(),
    decreases placed.len(),
{
    if placed.len() > 0 {
        lemma_unplaced_fresh(placed.drop_last());
    }
}

/// In an execution order, no marked node of a stuck marking stands in front
/// of place `r`.
proof fn lemma_waiting_ranks(ports: Table<Ports>, waiting: Seq<bool>, order: Seq<String>, r: nat)
    requires
        stuck(ports, waiting),
        is_execution_order(ports, order),
    ensures
        forall|c: int|
            0 <= c < waiting.len() && #[trigger] waiting[c] ==> position_of(
                order,
                ports.names@[c]@,
            ) >= r,
    decreases r,
{
    if r > 0 {
        lemma_waiting_ranks(ports, waiting, order, (r - 1) as nat);
        assert forall|c: int| 0 <= c < waiting.len() && #[trigger] waiting[c] implies position_of(
            order,
            ports.names@[c]@,
        ) >= r by {
            let p = choose|p: int|
                0 <= p < waiting.len() && waiting[p] && #[trigger] depends(ports, c, p);
            assert(waiting[p]);
            assert(position_of(order, ports.names@[p]@) >= r - 1);
        }
    } else {
        assert forall|c: int| 0 <= c < waiting.len() && #[trigger] waiting[c] implies position_of(
            order,
            ports.names@[c]@,
        ) >= r by {
            lemma_position_of(order, ports.names@[c]@);
        }
    }
}

/// Where the needs run in a circle there is no execution order, and where
/// there is an execution order no needs run in a circle.
pub proof fn lemma_cycle_excludes_order(ports: Table<Ports>, order: Seq<String>)
    requires
        is_execution_order(ports, order),
    ensures
        !has_cycle(ports),
{
    if has_cycle(ports) {
        let waiting = choose|waiting: Seq<bool>| stuck(ports, waiting);
        lemma_waiting_ranks(ports, waiting, order, order.len());
        let c = choose|c: int| 0 <= c < waiting.len() && #[trigger] waiting[c];
        assert(waiting[c]);
        assert(position_of(order, ports.names@[c]@) < order.len());
    }
}

/// Every entry of an execution order is the id of a node.
pub proof fn lemma_order_covers(ports: Table<Ports>, order: Seq<String>, i: int)
    requires
        ports.wf(),
        is_execution_order(ports, order),
        0 <= i < order.len(),
    ensures
        exists|k: int| 0 <= k < ports.names@.len() && ports.names@[k]@ == order[i]@,
{
    // The places of the node ids in the order are all different and all
    // below the length of the order, so that they fill it.
    let n = ports.names@.len();
    let place = |k: int| position_of(order, ports.names@[k]@);
    assert forall|k: int| 0 <= k < n implies 0 <= #[trigger] place(k) < n by {
        lemma_position_of(order, ports.names@[k]@);
    }
    assert forall|a: int, b: int| 0 <= a < b < n implies #[trigger] place(a) != #[trigger] place(
        b,
    ) by {
        lemma_position_of(order, ports.names@[a]@);
        lemma_position_of(order, ports.names@[b]@);
        assert(ports.names@[a]@ != ports.names@[b]@);
    }
    lemma_places_fill(n as nat, place, i);
    let k = choose|k: int| 0 <= k < n && #[trigger] place(k) == i;
    lemma_position_of(order, ports.names@[k]@);
}

/// `n` different places below `n` leave no place below `n` out.
proof fn lemma_places_fill(n: nat, place: spec_fn(int) -> int, target: int)
    requires
        forall|k: int| 0 <= k < n ==> 0 <= #[trigger] place(k) < n,
        forall|a: int, b: int| 0 <= a < b < n ==> #[trigger] place(a) != #[trigger] place(b),
        0 <= target < n,
    ensures
        exists|k: int| 0 <= k < n && #[trigger] place(k) == target,
    decreases n,
{
    if !exists|k: int| 0 <= k < n && #[trigger] place(k) == target {
        // Leave out the last index and close the gap that its place leaves.
        let last = place(n - 1);
        let shifted = |k: int|
            if place(k) > last {
                place(k) - 1
            } else {
                place(k)
            };
        let goal = if target > last {
            target - 1
        } else {
            target
        };
        assert forall|k: int| 0 <= k < n - 1 implies 0 <= #[trigger] shifted(k) < n - 1 by {
            assert(place(k) != place(n - 1));
        }
        assert forall|a: int, b: int| 0 <= a < b < n - 1 implies #[trigger] shifted(a)
            != #[trigger] shifted(b) by {
            assert(place(a) != place(b));
            assert(place(a) != place(n - 1));
            assert(place(b) != place(n - 1));
        }
        assert(target != last);
        if n >= 2 {
            lemma_places_fill((n - 1) as nat, shifted, goal);
            let k = choose|k: int| 0 <= k < n - 1 && #[trigger] shifted(k) == goal;
            assert(place(k) != last);
            assert(place(k) == target);
        } else {
            assert(place(0) == 0);
        }
    }
}

/// Two nodes that need each other's output make a circle.
pub proof fn lemma_mutual_need_is_cycle(ports: Table<Ports>, a: int, b: int)
    requires
        0 <= a < ports.names@.len(),
        0 <= b < ports.names@.len(),
        depends(ports, a, b),
        depends(ports, b, a),
    ensures
        has_cycle(ports),
{
    let waiting = Seq::new(ports.names@.len(), |c: int| c == a || c == b);
    assert(waiting[a]);
    assert forall|c: int| 0 <= c < waiting.len() && #[trigger] waiting[c] implies exists|p: int|
        0 <= p < waiting.len() && waiting[p] && #[trigger] depends(ports, c, p) by {
        if c == a {
            assert(waiting[b] && depends(ports, c, b));
        } else {
            assert(waiting[a] && depends(ports, c, a));
        }
    }
    assert(stuck(ports, waiting));
}

/// `list` holds the index `p`.
spec fn lists(list: Seq<usize>, p: int) -> bool {
    exists|i: int| 0 <= i < list.len() && #[trigger] list[i] == p
}

/// The needs of every node, as indices into the port table.
#[verifier::opaque]
spec fn needs_listed(ports: Table<Ports>, needs: Seq<Vec<usize>>) -> bool {
    &&& needs.len() == ports.names@.len()
    &&& forall|c: int, i: int|
        0 <= c < needs.len() && 0 <= i < needs[c]@.len() ==> (#[trigger] needs[c]@[i])
            < ports.names@.len() && depends(ports, c, needs[c]@[i] as int)
    &&& forall|c: int, p: int|
        0 <= c < needs.len() && 0 <= p < ports.names@.len() && #[trigger] depends(ports, c, p)
            ==> lists(needs[c]@, p)
}

/// Lists for node `c` the nodes whose output it needs.
fn needs_of(ports: &Table<Ports>, c: usize) -> (list: Vec<usize>)
    requires
        ports.wf(),
        c < ports.names@.len(),
    ensures
        forall|i: int|
            0 <= i < list@.len() ==> (#[trigger] list@[i]) < ports.names@.len() && depends(
                *ports,
                c as int,
                list@[i] as int,
            ),
        forall|p: int|
            0 <= p < ports.names@.len() && #[trigger] depends(*ports, c as int, p) ==> lists(
                list@,
                p,
            ),
{
    let mut list: Vec<usize> = Vec::new();
    let inlets = &ports.values[c].inlets;
    let mut j: usize = 0;
    while j < inlets.values.len()
        invariant
            j <= inlets.values@.len(),
            ports.wf(),
            c < ports.names@.len(),
            *inlets == ports.values@[c as int].inlets,
            forall|i: int|
                0 <= i < list@.len() ==> (#[trigger] list@[i]) < ports.names@.len() && depends(
                    *ports,
                    c as int,
                    list@[i] as int,
                ),
            forall|p: int, i: int|
                0 <= p < ports.names@.len() && 0 <= i < j && #[trigger] reads(
                    inlets.values@[i],
                    *ports,
                    p,
                ) ==> lists(list@, p),
        decreases inlets.values@.len() - j,
    {
        let ghost before = list@;
        match &inlets.values[j] {
            Some(inlet) => {
                match resolve(ports, inlet.node_id.as_str(), inlet.outlet.as_str()) {
                    Some((p, _)) => {
                        proof {
                            lemma_position_of(ports.names@, inlet.node_id@);
                            assert(reads(inlets.values@[j as int], *ports, p as int));
                        }
                        list.push(p);
                        proof {
                            assert(list@[list@.len() - 1] == p);
                        }
                    },
                    None => {
                        proof {
                            assert forall|p: int| 0 <= p < ports.names@.len() implies !reads(
                                inlets.values@[j as int],
                                *ports,
                                p,
                            ) by {
                                if ports.names@[p]@ == inlet.node_id@ {
                                    lemma_position_is(ports.names@, inlet.node_id@, p);
                                }
                            }
                        }
                    },
                }
            },
            None => {},
        }
        proof {
            assert forall|p: int, i: int|
                0 <= p < ports.names@.len() && 0 <= i < j + 1 && #[trigger] reads(
                    inlets.values@[i],
                    *ports,
                    p,
                ) implies lists(list@, p) by {
                if i < j {
                    assert(lists(before, p));
                    let at = choose|at: int| 0 <= at < before.len() && #[trigger] before[at] == p;
                    assert(list@[at] == p);
                } else {
                    let inlet = inlets.values@[j as int]->0;
                    lemma_position_is(ports.names@, inlet.node_id@, p);
                    assert(list@[list@.len() - 1] == p);
                }
            }
        }
        j += 1;
    }
    proof {
        assert forall|p: int|
            0 <= p < ports.names@.len() && #[trigger] depends(*ports, c as int, p) implies lists(
            list@,
            p,
        ) by {
            let i = choose|i: int|
                0 <= i < ports.values@[c as int].inlets.values@.len() && reads(
                    #[trigger] ports.values@[c as int].inlets.values@[i],
                    *ports,
                    p,
                );
            assert(reads(inlets.values@[i], *ports, p));
        }
    }
    list
}

/// Whether every node in `list` has been placed.
fn all_placed(list: &Vec<usize>, placed: &Vec<bool>) -> (r: bool)
    requires
        forall|i: int| 0 <= i < list@.len() ==> (#[trigger] list@[i]) < placed@.len(),
    ensures
        r == forall|i: int| 0 <= i < list@.len() ==> placed@[(#[trigger] list@[i]) as int],
{
    let mut i: usize = 0;
    while i < list.len()
        invariant
            i <= list@.len(),
            forall|k: int| 0 <= k < list@.len() ==> (#[trigger] list@[k]) < placed@.len(),
            forall|k: int| 0 <= k < i ==> placed@[(#[trigger] list@[k]) as int],
        decreases list@.len() - i,
    {
        if !placed[list[i]] {
            return false;
        }
        i += 1;
    }
    true
}

/// What holds of the nodes placed so far: each is placed once, behind all
/// the nodes whose output it needs.
#[verifier::opaque]
spec fn placing(ports: Table<Ports>, placed: Seq<bool>, order: Seq<usize>, remaining: nat) -> bool {
    &&& placed.len() == ports.names@.len()
    &&& order.len() + remaining == placed.len()
    &&& remaining == unplaced(placed)
    &&& forall|i: int| 0 <= i < order.len() ==> (#[trigger] order[i]) < placed.len() && placed[order[i] as int]
    &&& forall|i: int, j: int| 0 <= i < j < order.len() ==> (#[trigger] order[i]) != (#[trigger] order[j])
    &&& forall|c: int| 0 <= c < placed.len() && #[trigger] placed[c] ==> lists(order, c)
    &&& forall|i: int, p: int|
        0 <= i < order.len() && 0 <= p < placed.len() && #[trigger] depends(
            ports,
            order[i] as int,
            p,
        ) ==> exists|j: int| 0 <= j < i && #[trigger] order[j] == p
}

/// Places node `c` behind the nodes placed so far.
fn place_node(
    ports: &Table<Ports>,
    needs: &Vec<Vec<usize>>,
    placed: &mut Vec<bool>,
    order: &mut Vec<usize>,
    remaining: &mut usize,
    c: usize,
)
    requires
        needs_listed(*ports, needs@),
        placing(*ports, old(placed)@, old(order)@, *old(remaining) as nat),
        c < old(placed)@.len(),
        !old(placed)@[c as int],
        forall|i: int|
            0 <= i < needs@[c as int]@.len() ==> old(placed)@[(#[trigger] needs@[c as int]@[i]) as int],
    ensures
        placing(*ports, final(placed)@, final(order)@, *final(remaining) as nat),
        *final(remaining) + 1 == *old(remaining),
        final(placed)@ == old(placed)@.update(c as int, true),
        final(order)@ == old(order)@.push(c),
{
    let ghost before = placed@;
    let ghost order_before = order@;
    proof {
        reveal(placing);
        reveal(needs_listed);
        lemma_unplaced_update(placed@, c as int);
        lemma_unplaced_bounds(placed@);
    }
    placed.set(c, true);
    order.push(c);
    *remaining = *remaining - 1;
    proof {
        assert forall|i: int| 0 <= i < order@.len() implies (#[trigger] order@[i]) < placed@.len()
            && placed@[order@[i] as int] by {
            if i < order_before.len() {
                assert(order_before[i] == order@[i]);
            }
        }
        assert forall|i: int, j: int| 0 <= i < j < order@.len() implies (#[trigger] order@[i]) != (
        #[trigger] order@[j]) by {
            if j < order_before.len() {
                assert(order_before[i] != order_before[j]);
            } else {
                assert(order_before[i] == order@[i]);
                assert(before[order_before[i] as int]);
            }
        }
        assert forall|k: int| 0 <= k < placed@.len() && #[trigger] placed@[k] implies lists(
            order@,
            k,
        ) by {
            if k == c {
                assert(order@[order@.len() - 1] == c);
            } else {
                assert(before[k]);
                assert(lists(order_before, k));
                let at = choose|at: int|
                    0 <= at < order_before.len() && #[trigger] order_before[at] == k;
                assert(order@[at] == k);
            }
        }
        assert forall|i: int, p: int|
            0 <= i < order@.len() && 0 <= p < placed@.len() && #[trigger] depends(
                *ports,
                order@[i] as int,
                p,
            ) implies exists|j: int| 0 <= j < i && #[trigger] order@[j] == p by {
            if i < order_before.len() {
                assert(order_before[i] == order@[i]);
                let j = choose|j: int| 0 <= j < i && #[trigger] order_before[j] == p;
                assert(order@[j] == p);
            } else {
                assert(order@[i] == c);
                assert(lists(needs@[c as int]@, p));
                let at = choose|at: int|
                    0 <= at < needs@[c as int]@.len() && #[trigger] needs@[c as int]@[at] == p;
                assert(before[needs@[c as int]@[at] as int]);
                assert(before[p]);
                assert(lists(order_before, p));
                let j = choose|j: int|
                    0 <= j < order_before.len() && #[trigger] order_before[j] == p;
                assert(order@[j] == p);
            }
        }
    }
}

/// Goes once through the nodes and places each that has not been placed
/// and whose needs have all been placed. Tells whether it placed any.
fn scan(
    ports: &Table<Ports>,
    needs: &Vec<Vec<usize>>,
    placed: &mut Vec<bool>,
    order: &mut Vec<usize>,
    remaining: &mut usize,
) -> (progress: bool)
    requires
        needs_listed(*ports, needs@),
        placing(*ports, old(placed)@, old(order)@, *old(remaining) as nat),
    ensures
        placing(*ports, final(placed)@, final(order)@, *final(remaining) as nat),
        progress ==> *final(remaining) < *old(remaining),
        !progress ==> final(placed)@ == old(placed)@ && final(order)@ == old(order)@ && *final(remaining) == *old(remaining),
        !progress ==> forall|k: int|
            0 <= k < final(placed)@.len() && !(#[trigger] final(placed)@[k]) ==> exists|p: int|
                0 <= p < final(placed)@.len() && !final(placed)@[p] && #[trigger] depends(
                    *ports,
                    k,
                    p,
                ),
{
    let n = placed.len();
    let ghost at_start = placed@;
    let mut progress = false;
    let mut c: usize = 0;
    proof {
        reveal(placing);
        reveal(needs_listed);
    }
    while c < n
        invariant
            c <= n,
            n == placed@.len(),
            n == ports.names@.len(),
            needs@.len() == n,
            needs_listed(*ports, needs@),
            placing(*ports, placed@, order@, *remaining as nat),
            *remaining <= *old(remaining),
            at_start == old(placed)@,
            progress ==> *remaining < *old(remaining),
            !progress ==> placed@ == at_start && order@ == old(order)@ && *remaining == *old(remaining),
            !progress ==> forall|k: int|
                0 <= k < c && !(#[trigger] at_start[k]) ==> exists|p: int|
                    0 <= p < n && !at_start[p] && #[trigger] depends(*ports, k, p),
        decreases n - c,
    {
        proof {
            reveal(placing);
            reveal(needs_listed);
        }
        if !placed[c] {
            if all_placed(&needs[c], placed) {
                place_node(ports, needs, placed, order, remaining, c);
                progress = true;
            } else {
                proof {
                    if !progress {
                        let i = choose|i: int|
                            0 <= i < needs@[c as int]@.len() && !placed@[(
                            #[trigger] needs@[c as int]@[i]) as int];
                        let p = needs@[c as int]@[i] as int;
                        assert(depends(*ports, c as int, p));
                    }
                }
            }
        }
        c += 1;
    }
    progress
}

/// Once every node is placed, the ids in the order of placing are an
/// execution order.
proof fn lemma_placed_order(ports: Table<Ports>, placed: Seq<bool>, order: Seq<usize>, listed: Seq<String>)
    requires
        ports.wf(),
        placing(ports, placed, order, 0),
        listed.len() == order.len(),
        forall|k: int| 0 <= k < order.len() ==> (#[trigger] listed[k])@ == ports.names@[order[k] as int]@,
    ensures
        is_execution_order(ports, listed),
{
    let n = ports.names@.len();
    reveal(placing);
    lemma_unplaced_bounds(placed);
    assert forall|a: int, b: int| 0 <= a < b < listed.len() implies (#[trigger] listed[a])@ != (
    #[trigger] listed[b])@ by {
        assert(order[a] != order[b]);
    }
    assert forall|c: int| 0 <= c < n implies position_of(listed, (#[trigger] ports.names@[c])@)
        < listed.len() by {
        lemma_place_of(ports, placed, order, listed, c);
    }
    assert forall|c: int, p: int|
        0 <= c < n && 0 <= p < n && #[trigger] depends(ports, c, p) implies position_of(
        listed,
        ports.names@[p]@,
    ) < position_of(listed, ports.names@[c]@) by {
        lemma_place_of(ports, placed, order, listed, c);
        lemma_place_of(ports, placed, order, listed, p);
        let at = position_of(listed, ports.names@[c]@);
        let q = position_of(listed, ports.names@[p]@);
        assert(depends(ports, order[at] as int, p));
        let j = choose|j: int| 0 <= j < at && #[trigger] order[j] == p;
        if q != j {
            if q < j {
                assert(order[q] != order[j]);
            } else {
                assert(order[j] != order[q]);
            }
        }
    }
}

/// The place of node `c` in the list of ids is where its index stands in the
/// order of placing.
proof fn lemma_place_of(ports: Table<Ports>, placed: Seq<bool>, order: Seq<usize>, listed: Seq<String>, c: int)
    requires
        ports.wf(),
        placing(ports, placed, order, 0),
        listed.len() == order.len(),
        forall|k: int| 0 <= k < order.len() ==> (#[trigger] listed[k])@ == ports.names@[order[k] as int]@,
        0 <= c < ports.names@.len(),
    ensures
        0 <= position_of(listed, ports.names@[c]@) < order.len(),
        order[position_of(listed, ports.names@[c]@)] == c,
{
    reveal(placing);
    lemma_unplaced_bounds(placed);
    assert(placed[c]);
    assert(lists(order, c));
    let at = choose|at: int| 0 <= at < order.len() && #[trigger] order[at] == c;
    assert forall|j: int| 0 <= j < at implies (#[trigger] listed[j])@ != ports.names@[c]@ by {
        assert(order[j] != order[at]);
        assert(listed[j]@ == ports.names@[order[j] as int]@);
    }
    assert(listed[at]@ == ports.names@[order[at] as int]@);
    lemma_position_is(listed, ports.names@[c]@, at);
}

/// Where nodes are left and none of them can be placed, the needs run in a
/// circle among them.
proof fn lemma_no_progress(ports: Table<Ports>, placed: Seq<bool>, order: Seq<usize>, remaining: nat)
    requires
        placing(ports, placed, order, remaining),
        remaining > 0,
        forall|k: int|
            0 <= k < placed.len() && !(#[trigger] placed[k]) ==> exists|p: int|
                0 <= p < placed.len() && !placed[p] && #[trigger] depends(ports, k, p),
    ensures
        has_cycle(ports),
{
    reveal(placing);
    lemma_unplaced_bounds(placed);
    let waiting = Seq::new(placed.len(), |k: int| !placed[k]);
    let first = choose|k: int| 0 <= k < placed.len() && !placed[k];
    assert(waiting[first]);
    assert forall|k: int| 0 <= k < waiting.len() && #[trigger] waiting[k] implies exists|p: int|
        0 <= p < waiting.len() && waiting[p] && #[trigger] depends(ports, k, p) by {
        assert(!placed[k]);
        let p = choose|p: int|
            0 <= p < placed.len() && !placed[p] && #[trigger] depends(ports, k, p);
        assert(waiting[p]);
    }
    assert(stuck(ports, waiting));
}

/// Plans in which order the nodes of a module should be executed, and
/// writes it into the module as a list of node ids. Fails when nodes need
/// each other's output in a circle; the module's order is then left empty.
pub fn plan_execution_order(module: &mut Module) -> (r: Result<(), PlanError>)
    requires
        old(module).wf(),
    ensures
        final(module).nodes == old(module).nodes,
        final(module).ports == old(module).ports,
        final(module).errors == old(module).errors,
        match r {
            Ok(()) => is_execution_order(final(module).ports, final(module).execution_order@)
                && !has_cycle(final(module).ports),
            Err(PlanError::Cycle) => has_cycle(final(module).ports) && final(module).execution_order@.len() == 0,
        },
{
    let n = module.ports.names.len();
    let ghost ports = module.ports;
    module.execution_order = Vec::new();
    let mut needs: Vec<Vec<usize>> = Vec::new();
    let mut c: usize = 0;
    while c < n
        invariant
            c <= n,
            n == ports.names@.len(),
            ports == module.ports,
            ports.wf(),
            needs@.len() == c,
            forall|k: int, i: int|
                0 <= k < c && 0 <= i < needs@[k]@.len() ==> (#[trigger] needs@[k]@[i]) < n
                    && depends(ports, k, needs@[k]@[i] as int),
            forall|k: int, p: int|
                0 <= k < c && 0 <= p < n && #[trigger] depends(ports, k, p) ==> lists(
                    needs@[k]@,
                    p,
                ),
        decreases n - c,
    {
        let list = needs_of(&module.ports, c);
        needs.push(list);
        c += 1;
    }
    let mut placed: Vec<bool> = Vec::new();
    let mut k: usize = 0;
    while k < n
        invariant
            k <= n,
            placed@.len() == k,
            forall|i: int| 0 <= i < k ==> !placed@[i],
        decreases n - k,
    {
        placed.push(false);
        k += 1;
    }
    let mut order: Vec<usize> = Vec::new();
    let mut remaining: usize = n;
    proof {
        lemma_unplaced_fresh(placed@);
        reveal(placing);
        reveal(needs_listed);
    }
    while remaining > 0
        invariant
            n == ports.names@.len(),
            ports == module.ports,
            module.nodes == old(module).nodes,
            module.ports == old(module).ports,
            module.errors == old(module).errors,
            module.execution_order@.len() == 0,
            needs_listed(ports, needs@),
            placing(ports, placed@, order@, remaining as nat),
        decreases remaining,
    {
        let progress = scan(&module.ports, &needs, &mut placed, &mut order, &mut remaining);
        if !progress {
            proof {
                lemma_no_progress(ports, placed@, order@, remaining as nat);
            }
            return Err(PlanError::Cycle);
        }
    }
    let mut names: Vec<String> = Vec::new();
    let mut i: usize = 0;
    proof {
        reveal(placing);
    }
    while i < order.len()
        invariant
            i <= order@.len(),
            n == ports.names@.len(),
            ports == module.ports,
            placing(ports, placed@, order@, 0),
            forall|k: int| 0 <= k < order@.len() ==> (#[trigger] order@[k]) < n,
            names@.len() == i,
            forall|k: int| 0 <= k < i ==> (#[trigger] names@[k])@ == ports.names@[order@[k] as int]@,
        decreases order@.len() - i,
    {
        names.push(module.ports.names[order[i]].clone());
        i += 1;
    }
    proof {
        lemma_placed_order(ports, placed@, order@, names@);
        lemma_cycle_excludes_order(ports, names@);
    }
    module.execution_order = names;
    Ok(())
}

} // verus!
