use vstd::prelude::*;

verus! {

/// The mathematical picture of one wire: its activation count and the two
/// sets of followers it drives.
pub ghost struct WireModel {
    pub count: int,
    pub direct: Set<usize>,
    pub inverted: Set<usize>,
}

/// The whole propagation engine as seen between ticks: the wires, indexed by
/// id, and the deltas queued for the next tick (absent means zero).
pub ghost struct RunnerModel {
    pub wires: Seq<WireModel>,
    pub pending: Map<usize, int>,
}

pub open spec fn default_wire() -> WireModel {
    WireModel { count: 0, direct: Set::empty(), inverted: Set::empty() }
}

pub open spec fn is_on(w: WireModel) -> bool {
    w.count > 0
}

/// The wire with the given id; a wire that was never referenced reads as the
/// default one.
pub open spec fn wire_at(ws: Seq<WireModel>, id: int) -> WireModel {
    if 0 <= id < ws.len() {
        ws[id]
    } else {
        default_wire()
    }
}

/// The wires after growing the collection to hold at least `n` of them.
pub open spec fn grow(ws: Seq<WireModel>, n: nat) -> Seq<WireModel> {
    Seq::new(if ws.len() < n { n } else { ws.len() }, |i: int| wire_at(ws, i))
}

/// The wires after a relation edit on `src`: grown to cover `src`, with the
/// relation sets of `src` replaced.
pub open spec fn with_relations(
    ws: Seq<WireModel>,
    src: usize,
    direct: Set<usize>,
    inverted: Set<usize>,
) -> Seq<WireModel> {
    let g = grow(ws, src as nat + 1);
    g.update(src as int, WireModel { count: g[src as int].count, direct, inverted })
}

/// The queued delta of a wire.
pub open spec fn delta_at(p: Map<usize, int>, id: usize) -> int {
    if p.contains_key(id) {
        p[id]
    } else {
        0
    }
}

/// Queueing `d` for `id`: deltas for one id are summed.
pub open spec fn bump(p: Map<usize, int>, id: usize, d: int) -> Map<usize, int> {
    p.insert(id, delta_at(p, id) + d)
}

/// Queueing `d` once for each id in `t`.
pub open spec fn bump_all(p: Map<usize, int>, t: Set<usize>, d: int) -> Map<usize, int> {
    Map::new(
        |f: usize| p.contains_key(f) || t.contains(f),
        |f: usize| delta_at(p, f) + if t.contains(f) { d } else { 0 },
    )
}

/// Two queues of deltas summed id by id.
pub open spec fn add_deltas(p: Map<usize, int>, q: Map<usize, int>) -> Map<usize, int> {
    Map::new(
        |f: usize| p.contains_key(f) || q.contains_key(f),
        |f: usize| delta_at(p, f) + delta_at(q, f),
    )
}

/// Queueing into a sum of queues is queueing into its second part.
pub proof fn lemma_add_deltas_bump_all(p: Map<usize, int>, q: Map<usize, int>, t: Set<usize>, d: int)
    ensures
        bump_all(add_deltas(p, q), t, d) == add_deltas(p, bump_all(q, t, d)),
        add_deltas(p, Map::empty()) == p,
{
    assert(bump_all(add_deltas(p, q), t, d) =~= add_deltas(p, bump_all(q, t, d)));
    assert(add_deltas(p, Map::empty()) =~= p);
}

/// Whether a length `n` is the one the wire collection has after growing from
/// `len` to cover every id in `ids`: large enough, and no larger than needed.
pub open spec fn covers(n: nat, len: nat, ids: Set<usize>) -> bool {
    &&& n >= len
    &&& forall|k: usize| ids.contains(k) ==> k < n
    &&& n == len || (n - 1 <= usize::MAX && ids.contains((n - 1) as usize))
}

pub open spec fn covered_len(len: nat, ids: Set<usize>) -> nat {
    choose|n: nat| covers(n, len, ids)
}

impl RunnerModel {
    pub open spec fn wire(self, id: int) -> WireModel {
        wire_at(self.wires, id)
    }

    pub open spec fn on(self, id: int) -> bool {
        is_on(self.wire(id))
    }

    /// The state of wire `s` once its queued delta has been applied.
    pub open spec fn on_after(self, s: usize) -> bool {
        self.wire(s as int).count + delta_at(self.pending, s) > 0
    }

    /// Wire `s` has a queued delta that changes its on/off state.
    pub open spec fn flips(self, s: usize) -> bool {
        self.pending.contains_key(s) && self.on(s as int) != self.on_after(s)
    }

    /// Wire `s` flips and thereby queues +1 for `f`: a direct follower when
    /// `s` turns on, an inverted one when it turns off.
    pub open spec fn raises(self, s: usize, f: usize) -> bool {
        &&& self.flips(s)
        &&& if self.on_after(s) {
            self.wire(s as int).direct.contains(f)
        } else {
            self.wire(s as int).inverted.contains(f)
        }
    }

    /// Wire `s` flips and thereby queues -1 for `f`.
    pub open spec fn lowers(self, s: usize, f: usize) -> bool {
        &&& self.flips(s)
        &&& if self.on_after(s) {
            self.wire(s as int).inverted.contains(f)
        } else {
            self.wire(s as int).direct.contains(f)
        }
    }

    pub open spec fn raisers(self, srcs: Set<usize>, f: usize) -> Set<usize> {
        srcs.filter(|s: usize| self.raises(s, f))
    }

    pub open spec fn lowerers(self, srcs: Set<usize>, f: usize) -> Set<usize> {
        srcs.filter(|s: usize| self.lowers(s, f))
    }

    /// The deltas queued for the following tick by the wires of `srcs`: every
    /// follower of a flipping wire gets an entry, holding the number of
    /// flipping wires that raise it minus the number that lower it.
    pub open spec fn queued_by(self, srcs: Set<usize>) -> Map<usize, int> {
        Map::new(
            |f: usize| exists|s: usize| srcs.contains(s) && (self.raises(s, f) || self.lowers(s, f)),
            |f: usize| self.raisers(srcs, f).len() - self.lowerers(srcs, f).len(),
        )
    }

    /// Wire `i` after the queued deltas of the wires in `srcs` were applied.
    pub open spec fn applied_wire(self, srcs: Set<usize>, i: int) -> WireModel {
        let w = self.wire(i);
        WireModel {
            count: w.count + if srcs.contains(i as usize) { delta_at(self.pending, i as usize) } else { 0 },
            ..w
        }
    }

    /// One tick: every queued delta is applied, the collection grows to cover
    /// every id that had one, and the deltas caused by the wires that flipped
    /// make up the new queue. Nothing here depends on an order of visiting.
    pub open spec fn step(self) -> RunnerModel {
        let ids = self.pending.dom();
        RunnerModel {
            wires: Seq::new(covered_len(self.wires.len(), ids), |i: int| self.applied_wire(ids, i)),
            pending: self.queued_by(ids),
        }
    }

    pub open spec fn force(self, id: usize, d: int) -> RunnerModel {
        RunnerModel { pending: bump(self.pending, id, d), ..self }
    }

    /// Adding a direct relation; when it is new and its source is on, the
    /// follower gets +1 so that the next tick counts it.
    pub open spec fn place_direct(self, src: usize, f: usize) -> RunnerModel {
        let w = self.wire(src as int);
        let fresh = !w.direct.contains(f);
        RunnerModel {
            wires: with_relations(self.wires, src, w.direct.insert(f), w.inverted),
            pending: if fresh && is_on(w) { bump(self.pending, f, 1) } else { self.pending },
        }
    }

    pub open spec fn remove_direct(self, src: usize, f: usize) -> RunnerModel {
        let w = self.wire(src as int);
        let present = w.direct.contains(f);
        RunnerModel {
            wires: with_relations(self.wires, src, w.direct.remove(f), w.inverted),
            pending: if present && is_on(w) { bump(self.pending, f, -1) } else { self.pending },
        }
    }

    /// Adding an inverted relation; when it is new and its source is off, the
    /// follower gets +1.
    pub open spec fn place_inverted(self, src: usize, f: usize) -> RunnerModel {
        let w = self.wire(src as int);
        let fresh = !w.inverted.contains(f);
        RunnerModel {
            wires: with_relations(self.wires, src, w.direct, w.inverted.insert(f)),
            pending: if fresh && !is_on(w) { bump(self.pending, f, 1) } else { self.pending },
        }
    }

    pub open spec fn remove_inverted(self, src: usize, f: usize) -> RunnerModel {
        let w = self.wire(src as int);
        let present = w.inverted.contains(f);
        RunnerModel {
            wires: with_relations(self.wires, src, w.direct, w.inverted.remove(f)),
            pending: if present && !is_on(w) { bump(self.pending, f, -1) } else { self.pending },
        }
    }

    /// Every id the engine may still have to grow the collection to is
    /// below `usize::MAX`, so that the grown length fits in a `usize`.
    pub open spec fn ids_fit(self) -> bool {
        &&& forall|k: usize| self.pending.contains_key(k) ==> k < usize::MAX
        &&& forall|i: int, f: usize|
            0 <= i < self.wires.len() && #[trigger] self.wires[i].direct.contains(f) ==> f < usize::MAX
        &&& forall|i: int, f: usize|
            0 <= i < self.wires.len() && #[trigger] self.wires[i].inverted.contains(f) ==> f < usize::MAX
    }

    /// The next tick stays within the machine integers: every new count fits,
    /// and so does every delta it can queue.
    pub open spec fn counts_fit(self) -> bool {
        &&& forall|k: usize|
            self.pending.contains_key(k) ==> isize::MIN <= #[trigger] self.wire(k as int).count
                + self.pending[k] <= isize::MAX
        &&& self.pending.dom().len() < isize::MAX
    }

    /// The followers that wire `s` raises when it flips.
    pub open spec fn up(self, s: usize) -> Set<usize> {
        if self.on_after(s) {
            self.wire(s as int).direct
        } else {
            self.wire(s as int).inverted
        }
    }

    /// The followers that wire `s` lowers when it flips.
    pub open spec fn down(self, s: usize) -> Set<usize> {
        if self.on_after(s) {
            self.wire(s as int).inverted
        } else {
            self.wire(s as int).direct
        }
    }

    /// The published picture: one boolean per wire, in id order.
    pub open spec fn snapshot(self) -> Seq<bool> {
        Seq::new(self.wires.len(), |i: int| is_on(self.wires[i]))
    }
}

/// The model a fresh engine starts from: no wires, nothing queued.
pub open spec fn empty_runner() -> RunnerModel {
    RunnerModel { wires: Seq::empty(), pending: Map::empty() }
}

/// The model after `n` ticks.
pub open spec fn steps(m: RunnerModel, n: nat) -> RunnerModel
    decreases n,
{
    if n == 0 {
        m
    } else {
        steps(m, (n - 1) as nat).step()
    }
}

/// Every set of wire ids is finite.
pub proof fn lemma_ids_finite(ids: Set<usize>)
    ensures
        ids.finite(),
{
    broadcast use vstd::set_lib::full_set_properties;
    assert(Set::<usize>::full().finite());
    vstd::set_lib::lemma_set_subset_finite(Set::<usize>::full(), ids);
}

/// Some length covers any set of ids.
pub proof fn lemma_covers_exists(len: nat, ids: Set<usize>)
    ensures
        covers(covered_len(len, ids), len, ids),
    decreases ids.len(),
{
    lemma_ids_finite(ids);
    if ids.len() == 0 {
        assert(ids =~= Set::<usize>::empty());
        assert(covers(len, len, ids));
    } else {
        let x = ids.choose();
        assert(ids.contains(x));
        let rest = ids.remove(x);
        lemma_covers_exists(len, rest);
        let n = covered_len(len, rest);
        if n < x as nat + 1 {
            assert(covers(x as nat + 1, len, ids));
        } else {
            assert(covers(n, len, ids));
        }
    }
}

/// After a tick every wire reads as its old self with its delta applied.
pub proof fn lemma_step_wire(m: RunnerModel, i: usize)
    ensures
        m.step().wire(i as int) == m.applied_wire(m.pending.dom(), i as int),
{
    let ids = m.pending.dom();
    lemma_covers_exists(m.wires.len(), ids);
    if i >= covered_len(m.wires.len(), ids) {
        assert(!ids.contains(i));
        assert(m.wire(i as int) == default_wire());
    }
}

/// Two lengths that both cover the same ids from the same start are equal.
pub proof fn lemma_covers_unique(n1: nat, n2: nat, len: nat, ids: Set<usize>)
    requires
        covers(n1, len, ids),
        covers(n2, len, ids),
    ensures
        n1 == n2,
{
    if n1 < n2 {
        assert(ids.contains((n2 - 1) as usize));
    } else if n2 < n1 {
        assert(ids.contains((n1 - 1) as usize));
    }
}

/// Once some length covers the ids, `covered_len` is that length.
pub proof fn lemma_covered_len(n: nat, len: nat, ids: Set<usize>)
    requires
        covers(n, len, ids),
    ensures
        covered_len(len, ids) == n,
{
    lemma_covers_unique(covered_len(len, ids), n, len, ids);
}

/// Taking one more source into account adds its raises and its lowers to
/// the queue.
pub proof fn lemma_queue_insert(m: RunnerModel, srcs: Set<usize>, s: usize)
    requires
        srcs.finite(),
        !srcs.contains(s),
    ensures
        m.queued_by(srcs.insert(s)) == if m.flips(s) {
            bump_all(bump_all(m.queued_by(srcs), m.up(s), 1), m.down(s), -1)
        } else {
            m.queued_by(srcs)
        },
{
    let q = m.queued_by(srcs);
    let q2 = m.queued_by(srcs.insert(s));
    assert forall|f: usize| #![auto] true implies {
        &&& m.raisers(srcs.insert(s), f) == if m.raises(s, f) {
            m.raisers(srcs, f).insert(s)
        } else {
            m.raisers(srcs, f)
        }
        &&& m.lowerers(srcs.insert(s), f) == if m.lowers(s, f) {
            m.lowerers(srcs, f).insert(s)
        } else {
            m.lowerers(srcs, f)
        }
        &&& !q.contains_key(f) ==> m.raisers(srcs, f) == Set::<usize>::empty()
            && m.lowerers(srcs, f) == Set::<usize>::empty()
    } by {
        assert(m.raisers(srcs.insert(s), f) =~= if m.raises(s, f) {
            m.raisers(srcs, f).insert(s)
        } else {
            m.raisers(srcs, f)
        });
        assert(m.lowerers(srcs.insert(s), f) =~= if m.lowers(s, f) {
            m.lowerers(srcs, f).insert(s)
        } else {
            m.lowerers(srcs, f)
        });
        if !q.contains_key(f) {
            assert(m.raisers(srcs, f) =~= Set::<usize>::empty());
            assert(m.lowerers(srcs, f) =~= Set::<usize>::empty());
        }
    }
    if m.flips(s) {
        let r = bump_all(bump_all(q, m.up(s), 1), m.down(s), -1);
        assert forall|f: usize| #[trigger] q2.contains_key(f) == r.contains_key(f) by {
            lemma_queue_domain(m, srcs, s, f);
            if r.contains_key(f) && !q.contains_key(f) {
                assert(m.raises(s, f) || m.lowers(s, f));
            }
        }
        assert forall|f: usize| q2.contains_key(f) implies #[trigger] q2[f] == r[f] by {
            assert(m.raisers(srcs, f).finite());
            assert(m.lowerers(srcs, f).finite());
        }
        assert(q2 =~= r);
    } else {
        assert forall|f: usize| #[trigger] q2.contains_key(f) == q.contains_key(f) by {
            lemma_queue_domain(m, srcs, s, f);
        }
        assert(q2 =~= q);
    }
}

/// A follower has an entry once one more source is taken into account
/// exactly when it had one before or that source raises or lowers it.
proof fn lemma_queue_domain(m: RunnerModel, srcs: Set<usize>, s: usize, f: usize)
    ensures
        m.queued_by(srcs.insert(s)).contains_key(f) <==> (m.queued_by(srcs).contains_key(f)
            || m.raises(s, f) || m.lowers(s, f)),
{
    if m.queued_by(srcs.insert(s)).contains_key(f) {
        let w = choose|w: usize| srcs.insert(s).contains(w) && (m.raises(w, f) || m.lowers(w, f));
        if w != s {
            assert(srcs.contains(w));
        }
    }
    if m.queued_by(srcs).contains_key(f) {
        let w = choose|w: usize| srcs.contains(w) && (m.raises(w, f) || m.lowers(w, f));
        assert(srcs.insert(s).contains(w));
    }
    if m.raises(s, f) || m.lowers(s, f) {
        assert(srcs.insert(s).contains(s));
    }
}

/// Every queued delta is bounded by the number of sources taken into
/// account.
pub proof fn lemma_queue_bound(m: RunnerModel, srcs: Set<usize>, f: usize)
    requires
        srcs.finite(),
    ensures
        -(srcs.len() as int) <= delta_at(m.queued_by(srcs), f) <= srcs.len(),
{
    vstd::set_lib::lemma_len_subset(m.raisers(srcs, f), srcs);
    vstd::set_lib::lemma_len_subset(m.lowerers(srcs, f), srcs);
}

/// Queueing a delta for an id below `usize::MAX` keeps every id within
/// bounds.
pub proof fn lemma_force_ids_fit(m: RunnerModel, id: usize, d: int)
    requires
        m.ids_fit(),
        id < usize::MAX,
    ensures
        m.force(id, d).ids_fit(),
{
    assert forall|k: usize| m.force(id, d).pending.contains_key(k) implies k < usize::MAX by {
        if k != id {
            assert(m.pending.contains_key(k));
        }
    }
}

/// A relation edit on `src` that adds at most `f` to its sets keeps every id
/// within bounds; so does queueing a delta for `f` when `f` is below
/// `usize::MAX`.
pub proof fn lemma_relation_edit(
    m: RunnerModel,
    ws: Seq<WireModel>,
    src: usize,
    direct: Set<usize>,
    inverted: Set<usize>,
    f: usize,
)
    requires
        m.ids_fit(),
        ws == with_relations(m.wires, src, direct, inverted),
        direct.subset_of(m.wire(src as int).direct.insert(f)),
        inverted.subset_of(m.wire(src as int).inverted.insert(f)),
        f < usize::MAX || (direct.subset_of(m.wire(src as int).direct) && inverted.subset_of(
            m.wire(src as int).inverted,
        )),
    ensures
        (RunnerModel { wires: ws, pending: m.pending }).ids_fit(),
        f < usize::MAX ==> (RunnerModel { wires: ws, pending: bump(m.pending, f, 1) }).ids_fit(),
        f < usize::MAX ==> (RunnerModel { wires: ws, pending: bump(m.pending, f, -1) }).ids_fit(),
{
    assert forall|i: int, g: usize|
        0 <= i < ws.len() && (ws[i].direct.contains(g) || ws[i].inverted.contains(g)) implies g < usize::MAX by {
        if i == src as int {
            assert(ws[i].direct == direct && ws[i].inverted == inverted);
            if src < m.wires.len() {
                assert(m.wire(i) == m.wires[i]);
                if !(m.wires[i].direct.contains(g) || m.wires[i].inverted.contains(g)) {
                    assert(g == f);
                }
            } else {
                assert(m.wire(i) == default_wire());
                assert(g == f);
            }
        } else if i < m.wires.len() {
            assert(ws[i] == m.wires[i]);
        } else {
            assert(ws[i] == default_wire());
        }
    }
    if f < usize::MAX {
        lemma_force_ids_fit(RunnerModel { wires: ws, pending: m.pending }, f, 1);
        lemma_force_ids_fit(RunnerModel { wires: ws, pending: m.pending }, f, -1);
    }
}

/// A follower of a relation always has an id below `usize::MAX`.
pub proof fn lemma_follower_fits(m: RunnerModel, src: usize, f: usize)
    requires
        m.ids_fit(),
        m.wire(src as int).direct.contains(f) || m.wire(src as int).inverted.contains(f),
    ensures
        f < usize::MAX,
{
    assert(m.wires[src as int].direct.contains(f) || m.wires[src as int].inverted.contains(f));
}

/// A tick keeps every id within bounds.
pub proof fn lemma_step_ids_fit(m: RunnerModel)
    requires
        m.ids_fit(),
    ensures
        m.step().ids_fit(),
{
    let n = m.step();
    let ids = m.pending.dom();
    assert forall|f: usize| n.pending.contains_key(f) implies f < usize::MAX by {
        let s = choose|s: usize| ids.contains(s) && (m.raises(s, f) || m.lowers(s, f));
        lemma_follower_fits(m, s, f);
    }
    assert forall|i: int, g: usize|
        0 <= i < n.wires.len() && (n.wires[i].direct.contains(g) || n.wires[i].inverted.contains(g)) implies g < usize::MAX by {
        assert(n.wires[i] == m.applied_wire(ids, i));
    }
}

} // verus!
