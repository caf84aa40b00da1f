use vstd::prelude::*;
use crate::command::Command;

verus! {

/// The client's batching state: the open batch, if any, and how many
/// nested batches were opened inside it.
pub ghost struct BatchModel {
    pub buffer: Option<Seq<Command>>,
    pub depth: nat,
}

/// Sending: into the open batch, or out to the engine.
pub open spec fn batch_send(b: BatchModel, c: Command) -> (BatchModel, Option<Command>) {
    match b.buffer {
        Some(s) => (BatchModel { buffer: Some(s.push(c)), ..b }, None),
        None => (b, Some(c)),
    }
}

/// Opening a batch; inside an open one only the nesting depth grows.
pub open spec fn batch_start(b: BatchModel) -> BatchModel {
    match b.buffer {
        Some(_) => BatchModel { depth: b.depth + 1, ..b },
        None => BatchModel { buffer: Some(Seq::empty()), ..b },
    }
}

/// Closing a batch: a nested one only lowers the depth; the outermost one
/// hands out its commands, when there are any, to be sent as one.
pub open spec fn batch_finish(b: BatchModel) -> (BatchModel, Option<Seq<Command>>) {
    if b.depth > 0 {
        (BatchModel { depth: (b.depth - 1) as nat, ..b }, None)
    } else {
        match b.buffer {
            Some(s) => (BatchModel { buffer: None, ..b }, if s.len() > 0 { Some(s) } else { None }),
            None => (b, None),
        }
    }
}

/// Sending several commands in turn: the final state and the commands
/// that went out to the engine, in order.
pub open spec fn send_all(b: BatchModel, cs: Seq<Command>) -> (BatchModel, Seq<Command>)
    decreases cs.len(),
{
    if cs.len() == 0 {
        (b, Seq::empty())
    } else {
        let (b1, out) = send_all(b, cs.drop_last());
        let (b2, sent) = batch_send(b1, cs.last());
        (b2, match sent {
            Some(c) => out.push(c),
            None => out,
        })
    }
}

/// The batching state of a client with no batch open.
pub open spec fn idle() -> BatchModel {
    BatchModel { buffer: None, depth: 0 }
}

/// Commands sent between opening and closing the outermost batch go out as
/// one batch, in the order sent, and none of them goes out on its own.
pub proof fn lemma_batch_isolation(cs: Seq<Command>)
    ensures
        send_all(batch_start(idle()), cs) == (BatchModel { buffer: Some(cs), depth: 0 }, Seq::<Command>::empty()),
        batch_finish(send_all(batch_start(idle()), cs).0) == (idle(), if cs.len() > 0 {
            Some(cs)
        } else {
            None
        }),
    decreases cs.len(),
{
    if cs.len() > 0 {
        lemma_batch_isolation(cs.drop_last());
        assert(cs.drop_last().push(cs.last()) =~= cs);
    } else {
        assert(cs =~= Seq::<Command>::empty());
    }
}

/// Taking from the mailbox: what it held, and an empty slot.
pub open spec fn take_model(slot: Option<Seq<bool>>) -> (Option<Seq<bool>>, Option<Seq<bool>>) {
    (None, slot)
}

/// Taking twice with no publish in between yields the snapshot, if there
/// was one, then nothing.
pub proof fn lemma_mailbox(slot: Option<Seq<bool>>, snapshot: Seq<bool>)
    ensures
        take_model(Some(snapshot)).1 == Some(snapshot),
        take_model(take_model(slot).0).1 is None,
        take_model(take_model(Some(snapshot)).0).1 is None,
{
}

/// Groups the commands sent between `start_atomic` and `finish_atomic` into
/// one `Atomic` command.
pub struct AtomicBatch {
    atomic_buffer: Option<Vec<Command>>,
    atomic_depth: usize,
}

impl View for AtomicBatch {
    type V = BatchModel;

    closed spec fn view(&self) -> BatchModel {
        BatchModel {
            buffer: match self.atomic_buffer {
                Some(v) => Some(v@),
                None => None,
            },
            depth: self.atomic_depth as nat,
        }
    }
}

impl AtomicBatch {
    pub fn new() -> (b: AtomicBatch)
        ensures
            b@ == (BatchModel { buffer: None, depth: 0 }),
    {
        AtomicBatch { atomic_buffer: None, atomic_depth: 0 }
    }

    /// Whether a batch is open.
    pub fn is_open(&self) -> (r: bool)
        ensures
            r == self@.buffer is Some,
    {
        self.atomic_buffer.is_some()
    }

    /// How many nested batches are open inside the outermost one.
    pub fn depth(&self) -> (r: usize)
        ensures
            r as nat == self@.depth,
    {
        self.atomic_depth
    }

    /// Takes `command` into the open batch, or hands it back to be sent.
    pub fn send(&mut self, command: Command) -> (r: Option<Command>)
        ensures
            (final(self)@, r) == batch_send(old(self)@, command),
    {
        match self.atomic_buffer.as_mut() {
            Some(buffer) => {
                buffer.push(command);
                None
            },
            None => Some(command),
        }
    }

    pub fn start_atomic(&mut self)
        requires
            old(self)@.buffer is None || old(self)@.depth < usize::MAX,
        ensures
            final(self)@ == batch_start(old(self)@),
    {
        if self.atomic_buffer.is_none() {
            self.atomic_buffer = Some(Vec::new());
        } else {
            self.atomic_depth = self.atomic_depth + 1;
        }
    }

    /// Closes a batch; the outermost one comes back as one `Atomic` command
    /// when it holds any.
    pub fn finish_atomic(&mut self) -> (r: Option<Command>)
        ensures
            final(self)@ == batch_finish(old(self)@).0,
            batch_finish(old(self)@).1 matches Some(s) ==> r matches Some(Command::Atomic(v)) && v@ == s,
            batch_finish(old(self)@).1 is None ==> r is None,
    {
        if self.atomic_depth > 0 {
            self.atomic_depth = self.atomic_depth - 1;
            None
        } else {
            match self.atomic_buffer.take() {
                Some(buffer) => {
                    if buffer.len() > 0 {
                        Some(Command::Atomic(buffer))
                    } else {
                        None
                    }
                },
                None => None,
            }
        }
    }
}

/// The single-slot output: the latest published snapshot, if unread.
pub struct Mailbox {
    slot: Option<Vec<bool>>,
}

impl View for Mailbox {
    type V = Option<Seq<bool>>;

    closed spec fn view(&self) -> Option<Seq<bool>> {
        match self.slot {
            Some(v) => Some(v@),
            None => None,
        }
    }
}

impl Mailbox {
    pub fn new() -> (m: Mailbox)
        ensures
            m@ is None,
    {
        Mailbox { slot: None }
    }

    /// Publishes a snapshot, replacing any unread one.
    pub fn publish(&mut self, snapshot: Vec<bool>)
        ensures
            final(self)@ == Some(snapshot@),
    {
        self.slot = Some(snapshot);
    }

    /// Takes the latest snapshot, leaving the slot empty.
    pub fn take(&mut self) -> (r: Option<Vec<bool>>)
        ensures
            final(self)@ == take_model(old(self)@).0,
            r is Some <==> take_model(old(self)@).1 is Some,
            r matches Some(v) ==> take_model(old(self)@).1 == Some(v@),
    {
        self.slot.take()
    }
}

} // verus!
