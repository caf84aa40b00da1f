use vstd::prelude::*;
use std::collections::{HashMap, HashSet};
use vstd::std_specs::iter::IteratorSpec;
use crate::model::{
    add_deltas, bump, bump_all, covers, default_wire, delta_at, grow, is_on,
    lemma_add_deltas_bump_all, lemma_covered_len, lemma_follower_fits, lemma_force_ids_fit,
    lemma_queue_bound, lemma_queue_insert, lemma_relation_edit, lemma_step_ids_fit, wire_at,
    RunnerModel, WireModel,
};

verus! {

broadcast use vstd::std_specs::hash::group_hash_axioms;

/// A binary signal node: its activation count and the wires it drives.
pub struct Wire {
    input_count: isize,
    blotted: HashSet<usize>,
    inverted: HashSet<usize>,
}

impl View for Wire {
    type V = WireModel;

    closed spec fn view(&self) -> WireModel {
        WireModel { count: self.input_count as int, direct: self.blotted@, inverted: self.inverted@ }
    }
}

impl Default for Wire {
    fn default() -> (w: Wire)
        ensures
            w@ == default_wire(),
    {
        Wire { input_count: 0, blotted: HashSet::new(), inverted: HashSet::new() }
    }
}

impl Wire {
    pub fn is_on(&self) -> (r: bool)
        ensures
            r == is_on(self@),
    {
        self.input_count > 0
    }
}

/// The deltas queued for one tick, keyed by wire id.
pub struct UpdateBuffer {
    updates: HashMap<usize, isize>,
}

impl View for UpdateBuffer {
    type V = Map<usize, int>;

    closed spec fn view(&self) -> Map<usize, int> {
        self.updates@.map_values(|d: isize| d as int)
    }
}

impl UpdateBuffer {
    fn new() -> (b: UpdateBuffer)
        ensures
            b@ == Map::<usize, int>::empty(),
    {
        let b = UpdateBuffer { updates: HashMap::new() };
        assert(b@ =~= Map::<usize, int>::empty());
        b
    }

    fn clear(&mut self)
        ensures
            final(self)@ == Map::<usize, int>::empty(),
    {
        self.updates.clear();
        assert(self@ =~= Map::<usize, int>::empty());
    }

    fn add(&mut self, id: usize, d: isize)
        requires
            isize::MIN <= delta_at(old(self)@, id) + d <= isize::MAX,
        ensures
            final(self)@ == bump(old(self)@, id, d as int),
    {
        let cur: isize = match self.updates.get(&id) {
            Some(v) => *v,
            None => 0,
        };
        self.updates.insert(id, cur + d);
        assert(self@ =~= bump(old(self)@, id, d as int));
    }

    fn set(&mut self, id: usize)
        requires
            delta_at(old(self)@, id) < isize::MAX,
        ensures
            final(self)@ == bump(old(self)@, id, 1),
    {
        self.add(id, 1);
    }

    fn reset(&mut self, id: usize)
        requires
            delta_at(old(self)@, id) > isize::MIN,
        ensures
            final(self)@ == bump(old(self)@, id, -1),
    {
        self.add(id, -1);
    }
}

/// All wires, indexed by id; the collection grows on first reference.
pub struct State {
    wires: Vec<Wire>,
}

impl View for State {
    type V = Seq<WireModel>;

    closed spec fn view(&self) -> Seq<WireModel> {
        self.wires@.map_values(|w: Wire| w@)
    }
}

impl State {
    fn new() -> (s: State)
        ensures
            s@ == Seq::<WireModel>::empty(),
    {
        let s = State { wires: Vec::new() };
        assert(s@ =~= Seq::<WireModel>::empty());
        s
    }

    /// The wire with the given id, growing the collection with default wires
    /// up to it first.
    pub fn wire(&mut self, id: usize) -> (w: &mut Wire)
        requires
            id < usize::MAX,
        ensures
            w@ == wire_at(old(self)@, id as int),
            final(self)@ == grow(old(self)@, id as nat + 1).update(id as int, final(w)@),
    {
        let ghost start = self@;
        while self.wires.len() <= id
            invariant
                id < usize::MAX,
                self@ =~= grow(start, self@.len()),
                start.len() <= self@.len(),
                self@.len() <= start.len() || self@.len() <= id as nat + 1,
            decreases id + 1 - self.wires.len(),
        {
            let ghost prev = self@;
            let w = Wire::default();
            self.wires.push(w);
            proof {
                assert forall|i: int| 0 <= i < self@.len() implies self@[i] == grow(start, self@.len())[i] by {
                    if i < prev.len() {
                        assert(prev[i] == grow(start, prev.len())[i]);
                    }
                }
                assert(self@ =~= grow(start, self@.len()));
            }
        }
        proof {
            assert(grow(start, self@.len()) =~= grow(start, id as nat + 1));
            assert(self@[id as int] == self.wires@[id as int]@);
        }
        &mut self.wires[id]
    }

    /// Queues `d` for every id in `ids` into `next`.
    fn queue_all(next: &mut UpdateBuffer, ids: &HashSet<usize>, d: isize)
        requires
            forall|f: usize|
                ids@.contains(f) ==> isize::MIN <= #[trigger] delta_at(old(next)@, f) + d <= isize::MAX,
        ensures
            final(next)@ == bump_all(old(next)@, ids@, d as int),
    {
        let ghost base = next@;
        let ghost mut done: Set<usize> = Set::empty();
        let ghost seq = vstd::std_specs::hash::spec_hash_keys_iter(ids).remaining();
        let ghost mut cnt: int = 0;
        for x in it: ids.iter()
            invariant
                it.seq() == seq,
                cnt == it.index(),
                forall|f: usize|
                    ids@.contains(f) ==> isize::MIN <= #[trigger] delta_at(base, f) + d <= isize::MAX,
                it.seq().no_duplicates(),
                seq.unref().to_set() == ids@,
                forall|f: usize| done.contains(f) <==> exists|i: int| 0 <= i < cnt && *seq[i] == f,
                next@ == bump_all(base, done, d as int),
        {
            let f = *x;
            proof {
                if done.contains(f) {
                    let i = choose|i: int| 0 <= i < cnt && *seq[i] == f;
                    assert(it.seq()[i] == it.seq()[it.index()]);
                }
                assert(seq.unref()[cnt] == f);
                assert(seq.unref().to_set().contains(f));
            }
            next.add(f, d);
            proof {
                done = done.insert(f);
                assert forall|g: usize| done.contains(g) <==> exists|i: int| 0 <= i < cnt + 1 && *seq[i] == g by {
                    if done.contains(g) && g != f {
                        let i = choose|i: int| 0 <= i < cnt && *seq[i] == g;
                        assert(0 <= i < it.index() + 1);
                    }
                    if g == f {
                        assert(*it.seq()[it.index()] == g);
                    }
                }
                assert(next@ =~= bump_all(base, done, d as int));
                cnt = cnt + 1;
            }
        }
        proof {
            assert(done =~= ids@) by {
                assert forall|f: usize| ids@.contains(f) implies done.contains(f) by {
                    assert(seq.unref().to_set().contains(f));
                    let i = choose|i: int| 0 <= i < seq.unref().len() && seq.unref()[i] == f;
                    assert(*seq[i] == f);
                }
                assert forall|f: usize| done.contains(f) implies ids@.contains(f) by {
                    let i = choose|i: int| 0 <= i < cnt && *seq[i] == f;
                    assert(seq.unref()[i] == *seq[i]);
                    assert(seq.unref().to_set().contains(f));
                }
            }
        }
    }

    /// One tick over the wires: applies every delta of `current` and adds
    /// to `next` the deltas that the flipping wires cause. What `next`
    /// already holds is kept, and has no effect on the wires.
    fn apply(&mut self, current: &UpdateBuffer, next: &mut UpdateBuffer)
        requires
            forall|f: usize|
                -isize::MAX + current@.dom().len() <= #[trigger] delta_at(old(next)@, f) <= isize::MAX
                    - current@.dom().len(),
            (RunnerModel { wires: old(self)@, pending: current@ }).ids_fit(),
            (RunnerModel { wires: old(self)@, pending: current@ }).counts_fit(),
        ensures
            final(self)@ == (RunnerModel { wires: old(self)@, pending: current@ }).step().wires,
            final(next)@ == add_deltas(
                old(next)@,
                (RunnerModel { wires: old(self)@, pending: current@ }).step().pending,
            ),
    {
        let ghost m = RunnerModel { wires: self@, pending: current@ };
        let ghost ids = current@.dom();
        let ghost init = next@;
        let ghost mut done: Set<usize> = Set::empty();
        proof {
            assert(m.queued_by(done) =~= Map::<usize, int>::empty());
            lemma_add_deltas_bump_all(init, Map::empty(), Set::empty(), 0);
            assert(self@ =~= Seq::new(self@.len(), |i: int| m.applied_wire(done, i)));
        }
        let ghost seq = vstd::std_specs::hash::spec_hash_map_iter(&current.updates).remaining();
        let ghost mut cnt: int = 0;
        let start_len = self.wires.len();
        proof {
            assert(ids =~= current.updates@.dom());
            assert(ids.finite());
        }
        for pair in it: current.updates.iter()
            invariant
                it.seq() == seq,
                cnt == it.index(),
                m.ids_fit(),
                m.counts_fit(),
                ids.finite(),
                m.pending == current@,
                ids == current@.dom(),
                it.seq().no_duplicates(),
                it.seq().len() == ids.len(),
                forall|i: int|
                    0 <= i < seq.len() ==> current.updates@.contains_key(*#[trigger] seq[i].0)
                        && current.updates@[*seq[i].0] == *seq[i].1,
                forall|k: usize|
                    #[trigger] current.updates@.contains_key(k) ==> seq.contains((&k, &current.updates@[k])),
                forall|k: usize| done.contains(k) <==> exists|i: int| 0 <= i < cnt && *seq[i].0 == k,
                done.subset_of(ids),
                done.finite(),
                covers(self@.len(), m.wires.len(), done),
                m.wires.len() == start_len,
                self@.len() <= usize::MAX,
                forall|i: int| 0 <= i < self@.len() ==> #[trigger] self@[i] == m.applied_wire(done, i),
                forall|f: usize|
                    -isize::MAX + ids.len() <= #[trigger] delta_at(init, f) <= isize::MAX - ids.len(),
                next@ == add_deltas(init, m.queued_by(done)),
        {
            let (wire_id, delta) = pair;
            let wire_id: usize = *wire_id;
            let delta: isize = *delta;
            proof {
                if done.contains(wire_id) {
                    let i = choose|i: int| 0 <= i < cnt && *seq[i].0 == wire_id;
                    assert(it.seq()[i] == it.seq()[it.index()]);
                }
                assert(current@.contains_key(wire_id));
                assert(delta as int == current@[wire_id]);
                vstd::set_lib::lemma_len_subset(done.insert(wire_id), ids);
                lemma_queue_bound(m, done, wire_id);
            }
            let ghost before = self@;
            let wire = self.wire(wire_id);
            proof {
                assert(wire@ == m.wire(wire_id as int));
            }
            let old_state = wire.is_on();
            wire.input_count = wire.input_count + delta;
            let new_state = wire.is_on();
            let ghost after_wire = wire@;
            proof {
                assert(after_wire == m.applied_wire(done.insert(wire_id), wire_id as int));
            }
            if new_state != old_state {
                let ghost q = m.queued_by(done);
                proof {
                    assert forall|f: usize| -isize::MAX - 1 <= #[trigger] delta_at(next@, f) - 1
                        && delta_at(next@, f) + 1 <= isize::MAX by {
                        lemma_queue_bound(m, done, f);
                    }
                }
                if new_state {
                    State::queue_all(next, &wire.blotted, 1);
                    proof {
                        lemma_add_deltas_bump_all(init, q, m.up(wire_id), 1);
                        assert forall|f: usize| -isize::MAX - 1 <= #[trigger] delta_at(next@, f) - 1 by {
                            lemma_queue_bound(m, done, f);
                        }
                    }
                    State::queue_all(next, &wire.inverted, -1);
                } else {
                    State::queue_all(next, &wire.inverted, 1);
                    proof {
                        lemma_add_deltas_bump_all(init, q, m.up(wire_id), 1);
                        assert forall|f: usize| -isize::MAX - 1 <= #[trigger] delta_at(next@, f) - 1 by {
                            lemma_queue_bound(m, done, f);
                        }
                    }
                    State::queue_all(next, &wire.blotted, -1);
                }
                proof {
                    lemma_add_deltas_bump_all(init, bump_all(q, m.up(wire_id), 1), m.down(wire_id), -1);
                }
            }
            proof {
                assert(self@ == grow(before, wire_id as nat + 1).update(wire_id as int, after_wire));
                lemma_queue_insert(m, done, wire_id);
                let old_done = done;
                done = done.insert(wire_id);
                assert forall|k: usize| done.contains(k) <==> exists|i: int| 0 <= i < cnt + 1 && *seq[i].0 == k by {
                    if done.contains(k) && k != wire_id {
                        let i = choose|i: int| 0 <= i < cnt && *seq[i].0 == k;
                        assert(0 <= i < it.index() + 1);
                    }
                    if k == wire_id {
                        assert(*it.seq()[it.index()].0 == k);
                    }
                }
                assert forall|i: int| 0 <= i < self@.len() implies #[trigger] self@[i] == m.applied_wire(done, i) by {
                    if i == wire_id as int {
                        assert(self@[i] == after_wire);
                    } else if i < before.len() {
                        assert(before[i] == m.applied_wire(old_done, i));
                        assert(self@[i] == before[i]);
                        assert(done.contains(i as usize) == old_done.contains(i as usize));
                    } else {
                        assert(!old_done.contains(i as usize));
                        assert(!done.contains(i as usize));
                        assert(self@[i] == default_wire());
                        assert(m.wire(i) == default_wire());
                    }
                }
                assert(next@ == add_deltas(init, m.queued_by(done)));
                cnt = cnt + 1;
            }
        }
        proof {
            assert(done =~= ids) by {
                assert forall|k: usize| ids.contains(k) implies done.contains(k) by {
                    assert(current.updates@.contains_key(k));
                    assert(seq.contains((&k, &current.updates@[k])));
                    let i = choose|i: int| 0 <= i < seq.len() && seq[i] == (&k, &current.updates@[k]);
                    assert(*seq[i].0 == k);
                }
            }
            lemma_covered_len(self@.len(), m.wires.len(), ids);
            assert(self@ =~= m.step().wires);
        }
    }
}


/// The propagation engine: the wires and the two delta buffers.
pub struct Runner {
    pub state: State,
    current: UpdateBuffer,
    next: UpdateBuffer,
}

impl View for Runner {
    type V = RunnerModel;

    closed spec fn view(&self) -> RunnerModel {
        RunnerModel { wires: self.state@, pending: self.current@ }
    }
}

impl Runner {
    /// Between ticks the second buffer is empty and every id fits.
    pub closed spec fn wf(&self) -> bool {
        &&& self.next@ == Map::<usize, int>::empty()
        &&& self@.ids_fit()
    }

    pub fn new() -> (r: Runner)
        ensures
            r.wf(),
            r@ == (RunnerModel { wires: Seq::empty(), pending: Map::empty() }),
    {
        Runner { state: State::new(), current: UpdateBuffer::new(), next: UpdateBuffer::new() }
    }

    /// Forces wire `id` one step further on: +1 for the next tick.
    pub fn set(&mut self, id: usize)
        requires
            old(self).wf(),
            id < usize::MAX,
            delta_at(old(self)@.pending, id) < isize::MAX,
        ensures
            final(self).wf(),
            final(self)@ == old(self)@.force(id, 1),
    {
        proof {
            lemma_force_ids_fit(self@, id, 1);
        }
        self.current.set(id);
    }

    /// Forces wire `id` one step further off: -1 for the next tick.
    pub fn reset(&mut self, id: usize)
        requires
            old(self).wf(),
            id < usize::MAX,
            delta_at(old(self)@.pending, id) > isize::MIN,
        ensures
            final(self).wf(),
            final(self)@ == old(self)@.force(id, -1),
    {
        proof {
            lemma_force_ids_fit(self@, id, -1);
        }
        self.current.reset(id);
    }

    pub fn place_blotter(&mut self, in_id: usize, out_id: usize)
        requires
            old(self).wf(),
            in_id < usize::MAX,
            out_id < usize::MAX,
            delta_at(old(self)@.pending, out_id) < isize::MAX,
        ensures
            final(self).wf(),
            final(self)@ == old(self)@.place_direct(in_id, out_id),
    {
        let ghost m = self@;
        let input = self.state.wire(in_id);
        if input.blotted.insert(out_id) && input.is_on() {
            self.current.set(out_id);
        }
        proof {
            lemma_relation_edit(m, self.state@, in_id, m.wire(in_id as int).direct.insert(out_id), m.wire(in_id as int).inverted, out_id);
        }
    }

    pub fn remove_blotter(&mut self, in_id: usize, out_id: usize)
        requires
            old(self).wf(),
            in_id < usize::MAX,
            old(self)@.wire(in_id as int).direct.contains(out_id) ==> delta_at(old(self)@.pending, out_id)
                > isize::MIN,
        ensures
            final(self).wf(),
            final(self)@ == old(self)@.remove_direct(in_id, out_id),
    {
        let ghost m = self@;
        proof {
            if m.wire(in_id as int).direct.contains(out_id) {
                lemma_follower_fits(m, in_id, out_id);
            }
        }
        let input = self.state.wire(in_id);
        if input.blotted.remove(&out_id) && input.is_on() {
            self.current.reset(out_id);
        }
        proof {
            lemma_relation_edit(m, self.state@, in_id, m.wire(in_id as int).direct.remove(out_id), m.wire(in_id as int).inverted, out_id);
        }
    }

    pub fn place_inverter(&mut self, in_id: usize, out_id: usize)
        requires
            old(self).wf(),
            in_id < usize::MAX,
            out_id < usize::MAX,
            delta_at(old(self)@.pending, out_id) < isize::MAX,
        ensures
            final(self).wf(),
            final(self)@ == old(self)@.place_inverted(in_id, out_id),
    {
        let ghost m = self@;
        let input = self.state.wire(in_id);
        if input.inverted.insert(out_id) && !input.is_on() {
            self.current.set(out_id);
        }
        proof {
            lemma_relation_edit(m, self.state@, in_id, m.wire(in_id as int).direct, m.wire(in_id as int).inverted.insert(out_id), out_id);
        }
    }

    pub fn remove_inverter(&mut self, in_id: usize, out_id: usize)
        requires
            old(self).wf(),
            in_id < usize::MAX,
            old(self)@.wire(in_id as int).inverted.contains(out_id) ==> delta_at(old(self)@.pending, out_id)
                > isize::MIN,
        ensures
            final(self).wf(),
            final(self)@ == old(self)@.remove_inverted(in_id, out_id),
    {
        let ghost m = self@;
        proof {
            if m.wire(in_id as int).inverted.contains(out_id) {
                lemma_follower_fits(m, in_id, out_id);
            }
        }
        let input = self.state.wire(in_id);
        if input.inverted.remove(&out_id) && !input.is_on() {
            self.current.reset(out_id);
        }
        proof {
            lemma_relation_edit(m, self.state@, in_id, m.wire(in_id as int).direct, m.wire(in_id as int).inverted.remove(out_id), out_id);
        }
    }

    /// Advances one tick. The result is the order-free `step` of the model,
    /// whatever order the buffer and the relation sets are visited in.
    pub fn step(&mut self)
        requires
            old(self).wf(),
            old(self)@.counts_fit(),
        ensures
            final(self).wf(),
            final(self)@ == old(self)@.step(),
    {
        let ghost m = self@;
        proof {
            lemma_add_deltas_bump_all(self.next@, Map::empty(), Set::empty(), 0);
            assert(self.next@ =~= Map::<usize, int>::empty());
        }
        self.state.apply(&self.current, &mut self.next);
        proof {
            lemma_add_deltas_bump_all(m.step().pending, Map::empty(), Set::empty(), 0);
            assert(add_deltas(Map::empty(), m.step().pending) =~= m.step().pending);
        }
        self.current.clear();
        std::mem::swap(&mut self.current, &mut self.next);
        proof {
            lemma_step_ids_fit(m);
        }
    }

    /// Whether `in_id` drives `out_id` through a direct relation.
    pub fn has_blotter(&self, in_id: usize, out_id: usize) -> (r: bool)
        ensures
            r == self@.wire(in_id as int).direct.contains(out_id),
    {
        if in_id < self.state.wires.len() {
            proof {
                assert(self.state@[in_id as int] == self.state.wires@[in_id as int]@);
            }
            self.state.wires[in_id].blotted.contains(&out_id)
        } else {
            false
        }
    }

    /// Whether `in_id` drives `out_id` through an inverted relation.
    pub fn has_inverter(&self, in_id: usize, out_id: usize) -> (r: bool)
        ensures
            r == self@.wire(in_id as int).inverted.contains(out_id),
    {
        if in_id < self.state.wires.len() {
            proof {
                assert(self.state@[in_id as int] == self.state.wires@[in_id as int]@);
            }
            self.state.wires[in_id].inverted.contains(&out_id)
        } else {
            false
        }
    }

    /// Whether wire `id` is on; a wire never referenced is off.
    pub fn is_on(&self, id: usize) -> (r: bool)
        ensures
            r == self@.on(id as int),
    {
        if id < self.state.wires.len() {
            proof {
                assert(self.state@[id as int] == self.state.wires@[id as int]@);
            }
            self.state.wires[id].is_on()
        } else {
            false
        }
    }

    /// The delta queued for wire `id`.
    pub fn pending(&self, id: usize) -> (r: isize)
        ensures
            r as int == delta_at(self@.pending, id),
    {
        match self.current.updates.get(&id) {
            Some(d) => *d,
            None => 0,
        }
    }

    /// Whether the next tick stays within the machine integers.
    pub fn can_step(&self) -> (r: bool)
        ensures
            r == self@.counts_fit(),
    {
        let m = &self.current.updates;
        if m.len() >= isize::MAX as usize {
            proof {
                assert(self@.pending.dom() =~= m@.dom());
            }
            return false;
        }
        let ghost seq = vstd::std_specs::hash::spec_hash_map_iter(m).remaining();
        let ghost mut cnt: int = 0;
        let mut ok = true;
        for pair in it: m.iter()
            invariant
                it.seq() == seq,
                cnt == it.index(),
                forall|i: int|
                    0 <= i < seq.len() ==> m@.contains_key(*#[trigger] seq[i].0) && m@[*seq[i].0] == *seq[i].1,
                forall|k: usize| #[trigger] m@.contains_key(k) ==> seq.contains((&k, &m@[k])),
                ok == forall|i: int| 0 <= i < cnt ==> isize::MIN <= #[trigger] self@.wire(*seq[i].0 as int).count
                    + m@[*seq[i].0] <= isize::MAX,
        {
            let (id, d) = pair;
            let id: usize = *id;
            let d: isize = *d;
            let count: isize = if id < self.state.wires.len() {
                self.state.wires[id].input_count
            } else {
                0
            };
            proof {
                if id < self.state.wires@.len() {
                    assert(self.state@[id as int] == self.state.wires@[id as int]@);
                }
                assert(count as int == self@.wire(id as int).count);
            }
            let sum: i128 = count as i128 + d as i128;
            if sum < isize::MIN as i128 || sum > isize::MAX as i128 {
                ok = false;
            }
            proof {
                cnt = cnt + 1;
            }
        }
        proof {
            assert(self@.pending.dom() =~= m@.dom());
            if ok {
                assert forall|k: usize| self@.pending.contains_key(k) implies isize::MIN <= #[trigger] self@.wire(k as int).count
                    + self@.pending[k] <= isize::MAX by {
                    assert(seq.contains((&k, &m@[k])));
                    let i = choose|i: int| 0 <= i < seq.len() && seq[i] == (&k, &m@[k]);
                    assert(*seq[i].0 == k);
                }
            } else {
                let i = choose|i: int| 0 <= i < cnt && !(isize::MIN <= #[trigger] self@.wire(*seq[i].0 as int).count
                    + m@[*seq[i].0] <= isize::MAX);
                assert(self@.pending.contains_key(*seq[i].0));
            }
        }
        ok
    }

    /// The published picture: one boolean per wire, in id order.
    pub fn snapshot(&self) -> (r: Vec<bool>)
        ensures
            r@ == self@.snapshot(),
    {
        let mut r: Vec<bool> = Vec::new();
        let n = self.state.wires.len();
        for i in 0..n
            invariant
                n == self.state.wires@.len(),
                r@ == self@.snapshot().take(i as int),
        {
            r.push(self.state.wires[i].is_on());
            proof {
                assert(self.state@[i as int] == self.state.wires@[i as int]@);
                assert(r@ =~= self@.snapshot().take(i + 1));
            }
        }
        proof {
            assert(r@ =~= self@.snapshot());
        }
        r
    }
}

} // verus!
