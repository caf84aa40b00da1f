use simulation::{AtomicBatch, Command, Engine, Mailbox};

#[test]
fn step_command_publishes_snapshot() {
    let mut engine = Engine::new();
    let mut out = Vec::new();
    assert!(engine.handle(&Command::SetWire { id: 1 }, 0, &mut out));
    assert!(out.is_empty());
    assert!(engine.handle(&Command::Step, 0, &mut out));
    assert_eq!(out, vec![vec![false, true]]);
}

#[test]
fn atomic_applies_in_order() {
    let mut engine = Engine::new();
    let mut out = Vec::new();
    let batch = Command::Atomic(vec![
        Command::PlaceInverter { in_id: 0, out_id: 0 },
        Command::Step,
        Command::Step,
        Command::Step,
    ]);
    assert!(engine.handle(&batch, 0, &mut out));
    assert_eq!(out, vec![vec![true], vec![false], vec![true]]);
}

#[test]
fn start_stop_and_tick() {
    let mut engine = Engine::new();
    let mut out = Vec::new();
    assert!(!engine.is_running());
    assert!(engine.tick(&mut out));
    assert!(out.is_empty());
    assert!(engine.handle(&Command::TickRate { tick_period: 5 }, 0, &mut out));
    assert!(engine.handle(&Command::Start, 100, &mut out));
    assert_eq!(engine.next_tick(), Some(100));
    assert!(engine.tick(&mut out));
    assert_eq!(engine.next_tick(), Some(105));
    assert!(engine.tick(&mut out));
    assert_eq!(engine.next_tick(), Some(110));
    assert_eq!(out.len(), 2);
    assert!(engine.handle(&Command::Stop, 200, &mut out));
    assert_eq!(engine.next_tick(), None);
}

#[test]
fn default_period_is_ten_milliseconds() {
    let mut engine = Engine::new();
    let mut out = Vec::new();
    assert!(engine.handle(&Command::Start, 0, &mut out));
    assert!(engine.tick(&mut out));
    assert_eq!(engine.next_tick(), Some(10_000_000));
}

#[test]
fn deadline_overflow_ends_engine() {
    let mut engine = Engine::new();
    let mut out = Vec::new();
    assert!(engine.handle(&Command::Start, u64::MAX, &mut out));
    assert!(!engine.tick(&mut out));
}

#[test]
fn id_at_limit_ends_engine() {
    let mut engine = Engine::new();
    let mut out = Vec::new();
    assert!(!engine.handle(&Command::SetWire { id: usize::MAX }, 0, &mut out));
}

#[test]
fn batch_collects_commands() {
    let mut batch = AtomicBatch::new();
    batch.start_atomic();
    assert!(batch.send(Command::SetWire { id: 0 }).is_none());
    assert!(batch.send(Command::Step).is_none());
    match batch.finish_atomic() {
        Some(Command::Atomic(v)) => {
            assert_eq!(v.len(), 2);
            assert!(matches!(v[0], Command::SetWire { id: 0 }));
            assert!(matches!(v[1], Command::Step));
        }
        _ => panic!("expected one batch"),
    }
    assert!(!batch.is_open());
}

#[test]
fn nested_batches_flatten() {
    let mut batch = AtomicBatch::new();
    batch.start_atomic();
    batch.start_atomic();
    assert_eq!(batch.depth(), 1);
    assert!(batch.send(Command::Step).is_none());
    assert!(batch.finish_atomic().is_none());
    assert!(batch.send(Command::Start).is_none());
    match batch.finish_atomic() {
        Some(Command::Atomic(v)) => assert_eq!(v.len(), 2),
        _ => panic!("expected one batch"),
    }
}

#[test]
fn empty_batch_sends_nothing() {
    let mut batch = AtomicBatch::new();
    batch.start_atomic();
    assert!(batch.finish_atomic().is_none());
    assert!(batch.finish_atomic().is_none());
}

#[test]
fn send_outside_batch_passes_through() {
    let mut batch = AtomicBatch::new();
    assert!(matches!(batch.send(Command::Stop), Some(Command::Stop)));
}

#[test]
fn mailbox_take_clears() {
    let mut mailbox = Mailbox::new();
    assert!(mailbox.take().is_none());
    mailbox.publish(vec![true]);
    mailbox.publish(vec![false, true]);
    assert_eq!(mailbox.take(), Some(vec![false, true]));
    assert_eq!(mailbox.take(), None);
}

#[test]
fn failed_batch_appends_nothing() {
    let mut engine = Engine::new();
    let mut out = vec![vec![true]];
    let batch = Command::Atomic(vec![
        Command::SetWire { id: 0 },
        Command::Step,
        Command::SetWire { id: usize::MAX },
    ]);
    assert!(!engine.handle(&batch, 0, &mut out));
    assert_eq!(out, vec![vec![true]]);
}

#[test]
fn tick_keeps_earlier_output() {
    let mut engine = Engine::new();
    let mut out = vec![vec![false, true]];
    assert!(engine.handle(&Command::SetWire { id: 0 }, 0, &mut out));
    assert!(engine.handle(&Command::Start, 0, &mut out));
    assert!(engine.tick(&mut out));
    assert_eq!(out, vec![vec![false, true], vec![true]]);
}
