//! Laws of the engine, proved over its model: propagation timing, the
//! oscillator and ring behaviours, and that a tick is independent of the
//! order in which queued ids are visited.
use vstd::prelude::*;
use crate::model::{
    bump_all, covers, default_wire, delta_at, empty_runner, grow, lemma_covered_len,
    lemma_ids_finite, lemma_queue_insert, lemma_step_wire, steps, RunnerModel, WireModel,
};

verus! {

/// Wire 0 inverting itself, `k` ticks after the relation was placed.
pub open spec fn oscillator(k: nat) -> RunnerModel {
    RunnerModel {
        wires: seq![WireModel { count: (k % 2) as int, direct: Set::empty(), inverted: set![0usize] }],
        pending: map![0usize => if k % 2 == 0 { 1int } else { -1int }],
    }
}

proof fn lemma_oscillator_step(k: nat)
    ensures
        oscillator(k).step() == oscillator(k + 1),
{
    let m = oscillator(k);
    let ids = m.pending.dom();
    assert(ids =~= set![0usize]);
    assert(covers(1, 1, ids));
    lemma_covered_len(1, 1, ids);
    let n = m.step();
    let o = oscillator(k + 1);
    assert(m.flips(0));
    if k % 2 == 0 {
        assert(m.raisers(ids, 0) =~= Set::<usize>::empty());
        assert(m.lowerers(ids, 0) =~= set![0usize]);
    } else {
        assert(m.raisers(ids, 0) =~= set![0usize]);
        assert(m.lowerers(ids, 0) =~= Set::<usize>::empty());
    }
    assert(n.pending =~= o.pending) by {
        assert forall|f: usize| n.pending.contains_key(f) implies f == 0 by {
            let s = choose|s: usize| ids.contains(s) && (m.raises(s, f) || m.lowers(s, f));
        }
        assert(m.raises(0, 0) || m.lowers(0, 0));
    }
    assert(n.wires =~= o.wires);
}

/// An inverted relation from wire 0 to itself makes it alternate: after `n`
/// ticks wire 0 is on exactly when `n` is odd, and it is the only wire.
pub proof fn lemma_oscillator(n: nat)
    ensures
        steps(empty_runner().place_inverted(0, 0), n) == oscillator(n),
        steps(empty_runner().place_inverted(0, 0), n).on(0) == (n % 2 == 1),
        steps(empty_runner().place_inverted(0, 0), n).snapshot() == seq![n % 2 == 1],
    decreases n,
{
    if n == 0 {
        let m = empty_runner().place_inverted(0, 0);
        assert(m.wires =~= oscillator(0).wires);
        assert(m.pending =~= oscillator(0).pending);
    } else {
        lemma_oscillator((n - 1) as nat);
        lemma_oscillator_step((n - 1) as nat);
    }
    assert(oscillator(n).snapshot() =~= seq![n % 2 == 1]);
}

/// Two wires each following the other directly, with one pulse in flight:
/// `k` even has wire 1 on, `k` odd has wire 0 on.
pub open spec fn direct_ring(k: nat) -> RunnerModel {
    let even = k % 2 == 0;
    RunnerModel {
        wires: seq![
            WireModel { count: if even { 0 } else { 1 }, direct: set![1usize], inverted: Set::empty() },
            WireModel { count: if even { 1 } else { 0 }, direct: set![0usize], inverted: Set::empty() },
        ],
        pending: map![0usize => if even { 1int } else { -1int }, 1usize => if even { -1int } else { 1int }],
    }
}

/// The commands that start the pulse: the two relations, wire 0 forced on
/// for one tick, then released.
pub open spec fn direct_ring_start() -> RunnerModel {
    empty_runner().place_direct(0, 1).place_direct(1, 0).force(0, 1).step().force(0, -1)
}

proof fn lemma_direct_ring_step(k: nat)
    ensures
        direct_ring(k).step() == direct_ring(k + 1),
{
    let m = direct_ring(k);
    let ids = m.pending.dom();
    assert(ids =~= set![0usize, 1usize]);
    assert(covers(2, 2, ids));
    lemma_covered_len(2, 2, ids);
    let n = m.step();
    let o = direct_ring(k + 1);
    assert(m.flips(0) && m.flips(1));
    if k % 2 == 0 {
        assert(m.raisers(ids, 0) =~= Set::<usize>::empty());
        assert(m.lowerers(ids, 0) =~= set![1usize]);
        assert(m.raisers(ids, 1) =~= set![0usize]);
        assert(m.lowerers(ids, 1) =~= Set::<usize>::empty());
        assert(m.lowers(1, 0) && m.raises(0, 1));
    } else {
        assert(m.raisers(ids, 0) =~= set![1usize]);
        assert(m.lowerers(ids, 0) =~= Set::<usize>::empty());
        assert(m.raisers(ids, 1) =~= Set::<usize>::empty());
        assert(m.lowerers(ids, 1) =~= set![0usize]);
        assert(m.raises(1, 0) && m.lowers(0, 1));
    }
    assert(n.pending =~= o.pending) by {
        assert forall|f: usize| n.pending.contains_key(f) implies f == 0 || f == 1 by {
            let s = choose|s: usize| ids.contains(s) && (m.raises(s, f) || m.lowers(s, f));
        }
    }
    assert(n.wires =~= o.wires);
}

proof fn lemma_direct_ring_start()
    ensures
        direct_ring_start() == direct_ring(1),
{
    let a = empty_runner().place_direct(0, 1).place_direct(1, 0);
    assert(a.wires =~= seq![
        WireModel { count: 0, direct: set![1usize], inverted: Set::empty() },
        WireModel { count: 0, direct: set![0usize], inverted: Set::empty() },
    ]);
    assert(a.pending =~= Map::<usize, int>::empty());
    let b = a.force(0, 1);
    let ids = b.pending.dom();
    assert(ids =~= set![0usize]);
    assert(covers(2, 2, ids));
    lemma_covered_len(2, 2, ids);
    let c = b.step();
    assert(b.flips(0) && b.raises(0, 1));
    assert(b.raisers(ids, 1) =~= set![0usize]);
    assert(b.lowerers(ids, 1) =~= Set::<usize>::empty());
    assert(c.pending =~= map![1usize => 1int]) by {
        assert forall|f: usize| c.pending.contains_key(f) implies f == 1 by {
            let s = choose|s: usize| ids.contains(s) && (b.raises(s, f) || b.lowers(s, f));
        }
    }
    let d = c.force(0, -1);
    assert(d.pending =~= direct_ring(1).pending);
    assert(d.wires =~= direct_ring(1).wires);
}

proof fn lemma_direct_ring_state(n: nat)
    ensures
        steps(direct_ring_start(), n) == direct_ring(n + 1),
    decreases n,
{
    if n == 0 {
        lemma_direct_ring_start();
    } else {
        lemma_direct_ring_state((n - 1) as nat);
        lemma_direct_ring_step(n);
    }
}

/// A ring of two direct relations with one pulse in flight: from then on
/// every tick flips both wires, and they are never on or off together.
pub proof fn lemma_direct_ring(n: nat)
    ensures
        steps(direct_ring_start(), n).on(0) != steps(direct_ring_start(), n).on(1),
        steps(direct_ring_start(), n + 1).on(0) != steps(direct_ring_start(), n).on(0),
        steps(direct_ring_start(), n + 1).on(1) != steps(direct_ring_start(), n).on(1),
{
    lemma_direct_ring_state(n);
    lemma_direct_ring_state(n + 1);
    let x = direct_ring(n + 1);
    let y = direct_ring(n + 2);
    assert(x.on(0) != x.on(1));
    assert(y.on(0) != x.on(0));
    assert(y.on(1) != x.on(1));
}

/// Wire `s` has `f` among its followers, directly or inverted.
pub open spec fn feeds(m: RunnerModel, s: usize, f: usize) -> bool {
    m.wire(s as int).direct.contains(f) || m.wire(s as int).inverted.contains(f)
}

/// Placing a direct relation from a wire that is on queues +1 for the
/// follower: with nothing else acting on the follower, it stays off until
/// the next tick and is on right after it.
pub proof fn lemma_new_relation_counts(m: RunnerModel, src: usize, f: usize)
    requires
        m.on(src as int),
        !m.wire(src as int).direct.contains(f),
        m.wire(f as int).count == 0,
        delta_at(m.pending, f) == 0,
    ensures
        !m.place_direct(src, f).on(f as int),
        m.place_direct(src, f).step().on(f as int),
{
    let p = m.place_direct(src, f);
    assert(src != f);
    assert(p.wire(f as int) == m.wire(f as int));
    assert(delta_at(p.pending, f) == 1);
    lemma_step_wire(p, f);
}

/// One layer per tick: when wire `a` turns on in a tick, its direct follower
/// `b` is on only after the following tick, and `b`'s direct follower `c`
/// is still off then, so nothing cascades within a tick.
pub proof fn lemma_single_layer(m: RunnerModel, a: usize, b: usize, c: usize)
    requires
        a != b && b != c && a != c,
        !m.on(a as int),
        m.on_after(a),
        m.wire(a as int).direct.contains(b),
        !m.wire(a as int).inverted.contains(b),
        m.wire(b as int).direct.contains(c),
        m.wire(b as int).count == 0,
        !m.pending.contains_key(b),
        m.wire(c as int).count == 0,
        !m.pending.contains_key(c),
        forall|s: usize| s != a ==> !#[trigger] feeds(m, s, b),
        forall|s: usize| s != b ==> !#[trigger] feeds(m, s, c),
    ensures
        m.step().on(a as int),
        !m.step().on(b as int),
        !m.step().on(c as int),
        m.step().step().on(b as int),
        !m.step().step().on(c as int),
{
    let ids = m.pending.dom();
    let n = m.step();
    lemma_step_wire(m, a);
    lemma_step_wire(m, b);
    lemma_step_wire(m, c);
    assert(m.pending.contains_key(a));
    assert(m.flips(a) && m.raises(a, b));
    assert(m.raisers(ids, b) =~= set![a]) by {
        assert forall|s: usize| m.raisers(ids, b).contains(s) implies s == a by {
            if s != a {
                assert(!feeds(m, s, b));
            }
        }
    }
    assert(m.lowerers(ids, b) =~= Set::<usize>::empty()) by {
        assert forall|s: usize| !m.lowerers(ids, b).contains(s) by {
            if s != a {
                assert(!feeds(m, s, b));
            }
        }
    }
    assert(n.pending.contains_key(b));
    assert(delta_at(n.pending, b) == 1);
    assert(!n.pending.contains_key(c)) by {
        if n.pending.contains_key(c) {
            let s = choose|s: usize| ids.contains(s) && (m.raises(s, c) || m.lowers(s, c));
            assert(feeds(m, s, c));
        }
    }
    lemma_step_wire(n, b);
    lemma_step_wire(n, c);
}

/// The tick algorithm run one queued id at a time in the given order: the
/// wires so far and the deltas queued so far for the following tick.
pub open spec fn visit(m: RunnerModel, order: Seq<usize>) -> RunnerModel
    decreases order.len(),
{
    if order.len() == 0 {
        RunnerModel { wires: m.wires, pending: Map::empty() }
    } else {
        let prev = visit(m, order.drop_last());
        let s = order.last();
        let g = grow(prev.wires, s as nat + 1);
        let w = g[s as int];
        RunnerModel {
            wires: g.update(s as int, WireModel { count: w.count + delta_at(m.pending, s), ..w }),
            pending: if m.flips(s) {
                bump_all(bump_all(prev.pending, m.up(s), 1), m.down(s), -1)
            } else {
                prev.pending
            },
        }
    }
}

proof fn lemma_visit(m: RunnerModel, order: Seq<usize>)
    requires
        m.wires.len() <= usize::MAX,
        order.no_duplicates(),
        order.to_set().subset_of(m.pending.dom()),
    ensures
        covers(visit(m, order).wires.len(), m.wires.len(), order.to_set()),
        visit(m, order).wires.len() <= usize::MAX + 1,
        forall|i: int|
            0 <= i < visit(m, order).wires.len() ==> #[trigger] visit(m, order).wires[i] == m.applied_wire(
                order.to_set(),
                i,
            ),
        visit(m, order).pending == m.queued_by(order.to_set()),
    decreases order.len(),
{
    let done = order.to_set();
    if order.len() == 0 {
        assert(done =~= Set::<usize>::empty());
        assert(m.queued_by(done) =~= Map::<usize, int>::empty());
    } else {
        let rest = order.drop_last();
        let s = order.last();
        assert(rest.to_set().subset_of(m.pending.dom())) by {
            assert forall|k: usize| rest.to_set().contains(k) implies order.to_set().contains(k) by {
                let i = choose|i: int| 0 <= i < rest.len() && rest[i] == k;
                assert(order[i] == k);
            }
        }
        lemma_visit(m, rest);
        let old_done = rest.to_set();
        assert(done =~= old_done.insert(s)) by {
            assert forall|k: usize| done.contains(k) implies old_done.insert(s).contains(k) by {
                let i = choose|i: int| 0 <= i < order.len() && order[i] == k;
                if i < order.len() - 1 {
                    assert(rest[i] == k);
                }
            }
            assert forall|k: usize| old_done.contains(k) implies done.contains(k) by {
                let i = choose|i: int| 0 <= i < rest.len() && rest[i] == k;
                assert(order[i] == k);
            }
            assert(order[order.len() - 1] == s);
        }
        assert(!old_done.contains(s)) by {
            if old_done.contains(s) {
                let i = choose|i: int| 0 <= i < rest.len() && rest[i] == s;
                assert(order[i] == order[order.len() - 1]);
            }
        }
        lemma_ids_finite(old_done);
        lemma_queue_insert(m, old_done, s);
        let prev = visit(m, rest);
        let cur = visit(m, order);
        assert forall|i: int| 0 <= i < cur.wires.len() implies #[trigger] cur.wires[i] == m.applied_wire(done, i) by {
            if i == s as int {
            } else if i < prev.wires.len() {
                assert(prev.wires[i] == m.applied_wire(old_done, i));
                assert(done.contains(i as usize) == old_done.contains(i as usize));
            } else {
                assert(!old_done.contains(i as usize));
                assert(!done.contains(i as usize));
                assert(m.wire(i) == default_wire());
            }
        }
    }
}

/// The outcome of a tick does not depend on the order in which the queued
/// ids are visited: any order that visits each exactly once ends in `step`.
pub proof fn lemma_order_free(m: RunnerModel, order: Seq<usize>)
    requires
        m.wires.len() <= usize::MAX,
        order.no_duplicates(),
        order.to_set() == m.pending.dom(),
    ensures
        visit(m, order) == m.step(),
{
    lemma_visit(m, order);
    lemma_covered_len(visit(m, order).wires.len(), m.wires.len(), m.pending.dom());
    assert(visit(m, order).wires =~= m.step().wires);
}

/// Two wires each inverting the other, in step: both off with +1 queued
/// for each (`k` even), or both on with -1 queued for each (`k` odd).
pub open spec fn inverted_ring(k: nat) -> RunnerModel {
    let even = k % 2 == 0;
    let w = |f: usize| WireModel { count: if even { 0 } else { 1 }, direct: Set::empty(), inverted: set![f] };
    RunnerModel {
        wires: seq![w(1), w(0)],
        pending: map![0usize => if even { 1int } else { -1int }, 1usize => if even { 1int } else { -1int }],
    }
}

/// The inverted ring set up and pulsed: the two relations, wire 0 forced on
/// for one tick, then released.
pub open spec fn inverted_ring_start() -> RunnerModel {
    empty_runner().place_inverted(0, 1).place_inverted(1, 0).force(0, 1).step().force(0, -1)
}

proof fn lemma_inverted_ring_step(k: nat)
    ensures
        inverted_ring(k).step() == inverted_ring(k + 1),
{
    let m = inverted_ring(k);
    let ids = m.pending.dom();
    assert(ids =~= set![0usize, 1usize]);
    assert(covers(2, 2, ids));
    lemma_covered_len(2, 2, ids);
    let n = m.step();
    let o = inverted_ring(k + 1);
    assert(m.flips(0) && m.flips(1));
    if k % 2 == 0 {
        assert(m.raisers(ids, 0) =~= Set::<usize>::empty());
        assert(m.lowerers(ids, 0) =~= set![1usize]);
        assert(m.raisers(ids, 1) =~= Set::<usize>::empty());
        assert(m.lowerers(ids, 1) =~= set![0usize]);
        assert(m.lowers(1, 0) && m.lowers(0, 1));
    } else {
        assert(m.raisers(ids, 0) =~= set![1usize]);
        assert(m.lowerers(ids, 0) =~= Set::<usize>::empty());
        assert(m.raisers(ids, 1) =~= set![0usize]);
        assert(m.lowerers(ids, 1) =~= Set::<usize>::empty());
        assert(m.raises(1, 0) && m.raises(0, 1));
    }
    assert(n.pending =~= o.pending) by {
        assert forall|f: usize| n.pending.contains_key(f) implies f == 0 || f == 1 by {
            let s = choose|s: usize| ids.contains(s) && (m.raises(s, f) || m.lowers(s, f));
        }
    }
    assert(n.wires =~= o.wires);
}

/// The inverted ring right after the pulse was released.
spec fn inverted_ring_pulsed() -> RunnerModel {
    RunnerModel {
        wires: seq![
            WireModel { count: 2, direct: Set::empty(), inverted: set![1usize] },
            WireModel { count: 1, direct: Set::empty(), inverted: set![0usize] },
        ],
        pending: map![0usize => -2int, 1usize => -1int],
    }
}

proof fn lemma_inverted_ring_start()
    ensures
        inverted_ring_start() == inverted_ring_pulsed(),
{
    let a = empty_runner().place_inverted(0, 1).place_inverted(1, 0);
    assert(a.wires =~= seq![
        WireModel { count: 0, direct: Set::empty(), inverted: set![1usize] },
        WireModel { count: 0, direct: Set::empty(), inverted: set![0usize] },
    ]);
    assert(a.pending =~= map![0usize => 1int, 1usize => 1int]);
    let b = a.force(0, 1);
    let ids = b.pending.dom();
    assert(ids =~= set![0usize, 1usize]);
    assert(covers(2, 2, ids));
    lemma_covered_len(2, 2, ids);
    let c = b.step();
    assert(b.flips(0) && b.flips(1) && b.lowers(0, 1) && b.lowers(1, 0));
    assert(b.raisers(ids, 0) =~= Set::<usize>::empty());
    assert(b.lowerers(ids, 0) =~= set![1usize]);
    assert(b.raisers(ids, 1) =~= Set::<usize>::empty());
    assert(b.lowerers(ids, 1) =~= set![0usize]);
    assert(c.pending =~= map![0usize => -1int, 1usize => -1int]) by {
        assert forall|f: usize| c.pending.contains_key(f) implies f == 0 || f == 1 by {
            let s = choose|s: usize| ids.contains(s) && (b.raises(s, f) || b.lowers(s, f));
        }
    }
    let d = c.force(0, -1);
    assert(d.wires =~= inverted_ring_pulsed().wires);
    assert(d.pending =~= inverted_ring_pulsed().pending);
}

proof fn lemma_inverted_ring_pulsed()
    ensures
        inverted_ring_pulsed().step() == inverted_ring(0),
{
    let d = inverted_ring_pulsed();
    let ids = d.pending.dom();
    assert(ids =~= set![0usize, 1usize]);
    assert(covers(2, 2, ids));
    lemma_covered_len(2, 2, ids);
    let e = d.step();
    assert(d.flips(0) && d.flips(1) && d.raises(0, 1) && d.raises(1, 0));
    assert(d.raisers(ids, 0) =~= set![1usize]);
    assert(d.lowerers(ids, 0) =~= Set::<usize>::empty());
    assert(d.raisers(ids, 1) =~= set![0usize]);
    assert(d.lowerers(ids, 1) =~= Set::<usize>::empty());
    assert(e.pending =~= inverted_ring(0).pending) by {
        assert forall|f: usize| e.pending.contains_key(f) implies f == 0 || f == 1 by {
            let s = choose|s: usize| ids.contains(s) && (d.raises(s, f) || d.lowers(s, f));
        }
    }
    assert(e.wires =~= inverted_ring(0).wires);
}

proof fn lemma_inverted_ring_state(n: nat)
    ensures
        steps(inverted_ring_start(), n + 1) == inverted_ring(n),
    decreases n,
{
    assert(steps(inverted_ring_start(), n + 1) == steps(inverted_ring_start(), n).step());
    if n == 0 {
        lemma_inverted_ring_start();
        lemma_inverted_ring_pulsed();
        assert(steps(inverted_ring_start(), 0) == inverted_ring_start());
    } else {
        lemma_inverted_ring_state((n - 1) as nat);
        lemma_inverted_ring_step((n - 1) as nat);
    }
}

/// A ring of two inverted relations, pulsed the same way: from the first
/// tick on, every tick flips both wires, and the two are always equal.
pub proof fn lemma_inverted_ring(n: nat)
    ensures
        steps(inverted_ring_start(), n + 1).on(0) == steps(inverted_ring_start(), n + 1).on(1),
        steps(inverted_ring_start(), n + 2).on(0) != steps(inverted_ring_start(), n + 1).on(0),
        steps(inverted_ring_start(), n + 2).on(1) != steps(inverted_ring_start(), n + 1).on(1),
{
    lemma_inverted_ring_state(n);
    lemma_inverted_ring_state(n + 1);
    let x = inverted_ring(n);
    let y = inverted_ring(n + 1);
    assert(x.on(0) == x.on(1));
    assert(y.on(0) != x.on(0));
    assert(y.on(1) != x.on(1));
}

} // verus!
