use vstd::prelude::*;
use crate::engine::Runner;
use crate::model::{delta_at, RunnerModel};

verus! {

broadcast use vstd::std_specs::vec::group_vec_axioms;

/// What a client asks of the engine. A tick rate is carried as its period in
/// nanoseconds; zero means ticking as fast as the loop can spin.
pub enum Command {
    TickRate { tick_period: u64 },
    SetWire { id: usize },
    Reset { id: usize },
    PlaceBlotter { in_id: usize, out_id: usize },
    RemoveBlotter { in_id: usize, out_id: usize },
    PlaceInverter { in_id: usize, out_id: usize },
    RemoveInverter { in_id: usize, out_id: usize },
    Step,
    Start,
    Stop,
    Atomic(Vec<Command>),
}

/// The execution loop's state: the engine, the tick period in nanoseconds,
/// and the next deadline while running.
pub ghost struct EngineModel {
    pub runner: RunnerModel,
    pub tick_period: nat,
    pub next_tick: Option<nat>,
}

/// The outcome of handling a command: the new state and the snapshots
/// published by its steps, in order; `None` when a count or a deadline would
/// leave the machine integers, which ends the engine.
pub open spec fn handle_model(e: EngineModel, c: Command, now: nat) -> Option<(EngineModel, Seq<Seq<bool>>)>
    decreases c,
{
    let r = e.runner;
    let keep = |r2: RunnerModel| Some((EngineModel { runner: r2, ..e }, Seq::<Seq<bool>>::empty()));
    match c {
        Command::TickRate { tick_period } => Some(
            (EngineModel { tick_period: tick_period as nat, ..e }, Seq::empty()),
        ),
        Command::SetWire { id } => if id < usize::MAX && delta_at(r.pending, id) < isize::MAX {
            keep(r.force(id, 1))
        } else {
            None
        },
        Command::Reset { id } => if id < usize::MAX && delta_at(r.pending, id) > isize::MIN {
            keep(r.force(id, -1))
        } else {
            None
        },
        Command::PlaceBlotter { in_id, out_id } => if in_id < usize::MAX && out_id < usize::MAX
            && delta_at(r.pending, out_id) < isize::MAX {
            keep(r.place_direct(in_id, out_id))
        } else {
            None
        },
        Command::RemoveBlotter { in_id, out_id } => if in_id < usize::MAX && (r.wire(
            in_id as int,
        ).direct.contains(out_id) ==> delta_at(r.pending, out_id) > isize::MIN) {
            keep(r.remove_direct(in_id, out_id))
        } else {
            None
        },
        Command::PlaceInverter { in_id, out_id } => if in_id < usize::MAX && out_id < usize::MAX
            && delta_at(r.pending, out_id) < isize::MAX {
            keep(r.place_inverted(in_id, out_id))
        } else {
            None
        },
        Command::RemoveInverter { in_id, out_id } => if in_id < usize::MAX && (r.wire(
            in_id as int,
        ).inverted.contains(out_id) ==> delta_at(r.pending, out_id) > isize::MIN) {
            keep(r.remove_inverted(in_id, out_id))
        } else {
            None
        },
        Command::Step => if r.counts_fit() {
            Some((EngineModel { runner: r.step(), ..e }, seq![r.step().snapshot()]))
        } else {
            None
        },
        Command::Start => Some((EngineModel { next_tick: Some(now), ..e }, Seq::empty())),
        Command::Stop => Some((EngineModel { next_tick: None, ..e }, Seq::empty())),
        Command::Atomic(cs) => handle_all(e, cs@, now),
    }
}

/// Handling a batch: each command in turn, with nothing in between.
pub open spec fn handle_all(e: EngineModel, cs: Seq<Command>, now: nat) -> Option<(EngineModel, Seq<Seq<bool>>)>
    decreases cs,
{
    if cs.len() == 0 {
        Some((e, Seq::empty()))
    } else {
        match handle_all(e, cs.drop_last(), now) {
            None => None,
            Some((e1, out1)) => match handle_model(e1, cs.last(), now) {
                None => None,
                Some((e2, out2)) => Some((e2, out1 + out2)),
            },
        }
    }
}

/// The timer-driven tick while running: one step, then the deadline moves
/// on by exactly one period. While stopped nothing happens.
pub open spec fn tick_model(e: EngineModel) -> Option<(EngineModel, Seq<Seq<bool>>)> {
    match e.next_tick {
        None => Some((e, Seq::empty())),
        Some(t) => if e.runner.counts_fit() && t + e.tick_period <= u64::MAX {
            Some(
                (
                    EngineModel { runner: e.runner.step(), next_tick: Some(t + e.tick_period), ..e },
                    seq![e.runner.step().snapshot()],
                ),
            )
        } else {
            None
        },
    }
}

/// A batch is handled as its commands in order, within one handling and so
/// with no other command in between; its outcome is that of the sequence.
pub proof fn lemma_atomic_in_order(e: EngineModel, v: Vec<Command>, now: nat)
    ensures
        handle_model(e, Command::Atomic(v), now) == handle_all(e, v@, now),
        v@.len() == 0 ==> handle_model(e, Command::Atomic(v), now) == Some((e, Seq::<Seq<bool>>::empty())),
{
}

/// A batch whose first commands already fail fails as a whole.
proof fn lemma_prefix_fails(e: EngineModel, cs: Seq<Command>, j: int, now: nat)
    requires
        0 <= j <= cs.len(),
        handle_all(e, cs.take(j), now) is None,
    ensures
        handle_all(e, cs, now) is None,
    decreases cs.len() - j,
{
    if j < cs.len() {
        assert(cs.take(j + 1).drop_last() =~= cs.take(j));
        lemma_prefix_fails(e, cs, j + 1, now);
    } else {
        assert(cs.take(j) =~= cs);
    }
}

/// The tick period an engine starts with: ten milliseconds.
pub const DEFAULT_TICK_PERIOD: u64 = 10_000_000;

/// The execution loop's decisions. The loop itself (the channel, the clock,
/// the sleeping) drives it from outside, handing in each command and the
/// current instant in nanoseconds.
pub struct Engine {
    runner: Runner,
    tick_period: u64,
    next_tick: Option<u64>,
}

impl View for Engine {
    type V = EngineModel;

    closed spec fn view(&self) -> EngineModel {
        EngineModel {
            runner: self.runner@,
            tick_period: self.tick_period as nat,
            next_tick: match self.next_tick {
                Some(t) => Some(t as nat),
                None => None,
            },
        }
    }
}

impl Engine {
    pub closed spec fn wf(&self) -> bool {
        self.runner.wf()
    }

    /// A stopped engine with no wires and the default tick period.
    pub fn new() -> (e: Engine)
        ensures
            e.wf(),
            e@ == (EngineModel {
                runner: RunnerModel { wires: Seq::empty(), pending: Map::empty() },
                tick_period: DEFAULT_TICK_PERIOD as nat,
                next_tick: None,
            }),
    {
        Engine { runner: Runner::new(), tick_period: DEFAULT_TICK_PERIOD, next_tick: None }
    }

    pub fn is_running(&self) -> (r: bool)
        ensures
            r == self@.next_tick is Some,
    {
        self.next_tick.is_some()
    }

    /// The deadline of the next timer-driven tick, while running.
    pub fn next_tick(&self) -> (r: Option<u64>)
        ensures
            r is Some <==> self@.next_tick is Some,
            r matches Some(t) ==> self@.next_tick == Some(t as nat),
    {
        self.next_tick
    }

    /// One step of the engine, its snapshot appended to `out`.
    fn step(&mut self, out: &mut Vec<Vec<bool>>) -> (ok: bool)
        requires
            old(self).wf(),
        ensures
            ok == old(self)@.runner.counts_fit(),
            final(self).wf(),
            ok ==> final(self)@ == (EngineModel { runner: old(self)@.runner.step(), ..old(self)@ }),
            ok ==> final(out).deep_view() == old(out).deep_view().push(old(self)@.runner.step().snapshot()),
            !ok ==> final(self)@ == old(self)@ && final(out).deep_view() == old(out).deep_view(),
    {
        if !self.runner.can_step() {
            return false;
        }
        self.runner.step();
        let snap = self.runner.snapshot();
        let ghost prev = out.deep_view();
        proof {
            assert(snap.deep_view() =~= snap@);
        }
        out.push(snap);
        proof {
            assert forall|i: int| 0 <= i < prev.len() implies out.deep_view()[i] == prev[i] by {
                assert(out@[i] == old(out)@[i]);
            }
            assert(out.deep_view() =~= prev.push(self@.runner.snapshot()));
        }
        true
    }

    /// Handles one command from the channel, appending to `out` the
    /// snapshot of every step it performs. Returns false, with the engine to
    /// be ended, where a count or a deadline would leave the machine
    /// integers.
    pub fn handle(&mut self, command: &Command, now: u64, out: &mut Vec<Vec<bool>>) -> (ok: bool)
        requires
            old(self).wf(),
        ensures
            ok == handle_model(old(self)@, *command, now as nat) is Some,
            old(out).deep_view().len() <= final(out).deep_view().len(),
            final(out).deep_view().take(old(out).deep_view().len() as int) == old(out).deep_view(),
            ok ==> final(self).wf(),
            !ok ==> final(out).deep_view() == old(out).deep_view(),
            ok ==> handle_model(old(self)@, *command, now as nat) == Some(
                (final(self)@, final(out).deep_view().skip(old(out).deep_view().len() as int)),
            ),
        decreases command,
    {
        let ghost prev = out.deep_view();
        let ghost e = self@;
        let ok = match command {
            Command::TickRate { tick_period } => {
                self.tick_period = *tick_period;
                true
            },
            Command::SetWire { id } => {
                if *id < usize::MAX && self.runner.pending(*id) < isize::MAX {
                    self.runner.set(*id);
                    true
                } else {
                    false
                }
            },
            Command::Reset { id } => {
                if *id < usize::MAX && self.runner.pending(*id) > isize::MIN {
                    self.runner.reset(*id);
                    true
                } else {
                    false
                }
            },
            Command::PlaceBlotter { in_id, out_id } => {
                if *in_id < usize::MAX && *out_id < usize::MAX && self.runner.pending(*out_id) < isize::MAX {
                    self.runner.place_blotter(*in_id, *out_id);
                    true
                } else {
                    false
                }
            },
            Command::RemoveBlotter { in_id, out_id } => {
                if *in_id < usize::MAX && (!self.runner.has_blotter(*in_id, *out_id) || self.runner.pending(
                    *out_id,
                ) > isize::MIN) {
                    self.runner.remove_blotter(*in_id, *out_id);
                    true
                } else {
                    false
                }
            },
            Command::PlaceInverter { in_id, out_id } => {
                if *in_id < usize::MAX && *out_id < usize::MAX && self.runner.pending(*out_id) < isize::MAX {
                    self.runner.place_inverter(*in_id, *out_id);
                    true
                } else {
                    false
                }
            },
            Command::RemoveInverter { in_id, out_id } => {
                if *in_id < usize::MAX && (!self.runner.has_inverter(*in_id, *out_id) || self.runner.pending(
                    *out_id,
                ) > isize::MIN) {
                    self.runner.remove_inverter(*in_id, *out_id);
                    true
                } else {
                    false
                }
            },
            Command::Step => self.step(out),
            Command::Start => {
                self.next_tick = Some(now);
                true
            },
            Command::Stop => {
                self.next_tick = None;
                true
            },
            Command::Atomic(commands) => {
                let out_len = out.len();
                let mut ok = true;
                let n = commands.len();
                let mut i: usize = 0;
                while i < n && ok
                    invariant
                        *command == Command::Atomic(*commands),
                        n == commands@.len(),
                        i <= n,
                        old(self).wf(),
                        e == old(self)@,
                        prev == old(out).deep_view(),
                        out_len == prev.len(),
                        ok == handle_all(e, commands@.take(i as int), now as nat) is Some,
                        ok ==> self.wf(),
                        prev.len() <= out.deep_view().len(),
                        out.deep_view().take(prev.len() as int) == prev,
                        ok ==> handle_all(e, commands@.take(i as int), now as nat) == Some(
                            (self@, out.deep_view().skip(prev.len() as int)),
                        ),
                    decreases n - i,
                {
                    let ghost before = out.deep_view();
                    proof {
                        assert(commands@.take(i + 1).drop_last() =~= commands@.take(i as int));
                        assert(commands@.take(i + 1).last() == commands@[i as int]);
                        assert(*command == Command::Atomic(*commands));
                        assert(decreases_to!(*command => (*command)->Atomic_0));
                        assert(decreases_to!(*commands => commands[i as int]));
                        assert(decreases_to!(*command => commands@[i as int]));
                    }
                    ok = self.handle(&commands[i], now, out);
                    proof {
                        assert(out.deep_view().take(prev.len() as int) =~= out.deep_view().take(
                            before.len() as int,
                        ).take(prev.len() as int));
                        if ok {
                            assert(out.deep_view().skip(prev.len() as int) =~= before.skip(prev.len() as int)
                                + out.deep_view().skip(before.len() as int));
                        }
                    }
                    i = i + 1;
                }
                proof {
                    if ok {
                        assert(commands@.take(n as int) =~= commands@);
                    } else {
                        lemma_prefix_fails(e, commands@, i as int, now as nat);
                    }
                }
                if !ok {
                    let ghost full = out.deep_view();
                    let ghost full_vec = out@;
                    out.truncate(out_len);
                    proof {
                        assert forall|j: int| 0 <= j < prev.len() implies out.deep_view()[j] == prev[j] by {
                            assert(out@[j] == full_vec[j]);
                            assert(full[j] == full.take(prev.len() as int)[j]);
                        }
                        assert(out.deep_view() =~= prev);
                    }
                }
                ok
            },
        };
        proof {
            assert(prev.take(prev.len() as int) =~= prev);
            assert(out.deep_view().take(prev.len() as int) =~= prev);
            if ok {
                match command {
                    Command::Atomic(_) => {},
                    Command::Step => {
                        assert(out.deep_view().skip(prev.len() as int) =~= seq![e.runner.step().snapshot()]);
                    },
                    _ => {
                        assert(out.deep_view().skip(prev.len() as int) =~= Seq::<Seq<bool>>::empty());
                    },
                }
            }
        }
        ok
    }

    /// The timer-driven tick, once the deadline has come: one step, and the
    /// deadline moves on by one period. Returns false, with the engine to be
    /// ended, where a count or the deadline would leave the machine integers.
    pub fn tick(&mut self, out: &mut Vec<Vec<bool>>) -> (ok: bool)
        requires
            old(self).wf(),
        ensures
            ok == tick_model(old(self)@) is Some,
            ok ==> final(self).wf(),
            old(out).deep_view().len() <= final(out).deep_view().len(),
            final(out).deep_view().take(old(out).deep_view().len() as int) == old(out).deep_view(),
            !ok ==> final(out).deep_view() == old(out).deep_view(),
            ok ==> tick_model(old(self)@) == Some(
                (final(self)@, final(out).deep_view().skip(old(out).deep_view().len() as int)),
            ),
    {
        let ghost prev = out.deep_view();
        match self.next_tick {
            None => {
                proof {
                    assert(out.deep_view().skip(prev.len() as int) =~= Seq::<Seq<bool>>::empty());
                    assert(prev.take(prev.len() as int) =~= prev);
                }
                true
            },
            Some(t) => {
                if t > u64::MAX - self.tick_period {
                    proof {
                        assert(prev.take(prev.len() as int) =~= prev);
                    }
                    return false;
                }
                if !self.step(out) {
                    proof {
                        assert(prev.take(prev.len() as int) =~= prev);
                    }
                    return false;
                }
                self.next_tick = Some(t + self.tick_period);
                proof {
                    assert(out.deep_view().skip(prev.len() as int) =~= seq![old(self)@.runner.step().snapshot()]);
                    assert(out.deep_view().take(prev.len() as int) =~= prev);
                }
                true
            },
        }
    }
}

} // verus!
