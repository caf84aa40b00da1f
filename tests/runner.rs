use simulation::Runner;

#[test]
fn inverter_loop() {
    let mut runner = Runner::new();
    runner.place_inverter(0, 0);
    let mut wire0 = false;
    for _ in 0..100 {
        runner.step();
        wire0 = !wire0;
        assert_eq!(runner.state.wire(0).is_on(), wire0);
    }
}

#[test]
fn blotter_loop() {
    let mut runner = Runner::new();
    runner.place_blotter(0, 1);
    runner.place_blotter(1, 0);
    runner.set(0);
    runner.step();
    runner.reset(0);

    let mut wire0 = true;
    let mut wire1 = false;
    for _ in 0..100 {
        runner.step();
        wire0 = !wire0;
        wire1 = !wire1;
        assert_eq!(runner.state.wire(0).is_on(), wire0);
        assert_eq!(runner.state.wire(1).is_on(), wire1);
    }
}

#[test]
fn rs_latch() {
    let mut runner = Runner::new();
    runner.place_inverter(0, 1);
    runner.step();
    runner.place_inverter(1, 0);
    runner.step();
    let mut wire0 = false;
    let mut wire1 = true;

    for _ in 0..100 {
        runner.step();
        assert_eq!(runner.state.wire(0).is_on(), wire0);
        assert_eq!(runner.state.wire(1).is_on(), wire1);
    }

    runner.set(0);
    runner.step();
    runner.step();
    runner.reset(0);
    runner.step();
    wire0 = true;
    wire1 = false;

    for _ in 0..100 {
        runner.step();
        assert_eq!(runner.state.wire(0).is_on(), wire0);
        assert_eq!(runner.state.wire(1).is_on(), wire1);
    }
}

#[test]
fn single_layer_per_step() {
    let mut runner = Runner::new();
    runner.place_blotter(0, 1);
    runner.place_blotter(1, 2);
    runner.set(0);
    assert_eq!(runner.snapshot(), vec![false, false]);
    runner.step();
    assert_eq!(runner.snapshot(), vec![true, false]);
    runner.step();
    assert_eq!(runner.snapshot(), vec![true, true]);
    runner.step();
    assert_eq!(runner.snapshot(), vec![true, true, true]);
}

#[test]
fn oscillator_alternates() {
    let mut runner = Runner::new();
    runner.place_inverter(0, 0);
    for n in 1..=100 {
        runner.step();
        assert_eq!(runner.snapshot(), vec![n % 2 == 1]);
    }
}

#[test]
fn direct_ring_stays_complementary() {
    let mut runner = Runner::new();
    runner.place_blotter(0, 1);
    runner.place_blotter(1, 0);
    runner.set(0);
    runner.step();
    runner.reset(0);
    for _ in 0..100 {
        runner.step();
        let s = runner.snapshot();
        assert_ne!(s[0], s[1]);
    }
}

#[test]
fn inverter_ring_flips_in_lockstep() {
    let mut runner = Runner::new();
    runner.place_inverter(0, 1);
    runner.place_inverter(1, 0);
    runner.set(0);
    runner.step();
    runner.reset(0);
    runner.step();
    let mut prev = runner.snapshot();
    for _ in 0..100 {
        runner.step();
        let s = runner.snapshot();
        assert_eq!(s[0], s[1]);
        assert_ne!(s[0], prev[0]);
        assert_ne!(s[1], prev[1]);
        prev = s;
    }
}

#[test]
fn new_relation_from_on_source_counts_next_step() {
    let mut runner = Runner::new();
    runner.set(0);
    runner.step();
    assert!(runner.state.wire(0).is_on());
    runner.place_blotter(0, 3);
    assert!(!runner.state.wire(3).is_on());
    assert_eq!(runner.pending(3), 1);
    runner.step();
    assert!(runner.state.wire(3).is_on());
}

#[test]
fn new_inverted_relation_from_off_source_counts_next_step() {
    let mut runner = Runner::new();
    runner.place_inverter(2, 5);
    assert_eq!(runner.pending(5), 1);
    runner.step();
    assert_eq!(runner.snapshot(), vec![false, false, false, false, false, true]);
}

#[test]
fn removing_contributing_relation_compensates() {
    let mut runner = Runner::new();
    runner.set(0);
    runner.place_blotter(0, 1);
    runner.step();
    runner.step();
    assert!(runner.state.wire(1).is_on());
    runner.remove_blotter(0, 1);
    assert_eq!(runner.pending(1), -1);
    runner.step();
    assert!(!runner.state.wire(1).is_on());
}

#[test]
fn removing_missing_relation_is_noop() {
    let mut runner = Runner::new();
    runner.set(0);
    runner.step();
    runner.remove_blotter(0, 1);
    runner.remove_inverter(0, 1);
    assert_eq!(runner.pending(1), 0);
}

#[test]
fn placing_twice_queues_once() {
    let mut runner = Runner::new();
    runner.place_inverter(0, 1);
    runner.place_inverter(0, 1);
    assert_eq!(runner.pending(1), 1);
}

#[test]
fn deltas_are_summed() {
    let mut runner = Runner::new();
    runner.set(4);
    runner.set(4);
    runner.reset(4);
    assert_eq!(runner.pending(4), 1);
    assert!(runner.can_step());
    runner.step();
    assert_eq!(runner.snapshot(), vec![false, false, false, false, true]);
}

#[test]
fn empty_runner_has_empty_snapshot() {
    let mut runner = Runner::new();
    runner.step();
    assert_eq!(runner.snapshot(), Vec::<bool>::new());
}

#[test]
fn is_on_reads_wires_without_growing() {
    let mut runner = Runner::new();
    runner.set(2);
    assert!(!runner.is_on(2));
    runner.step();
    assert!(runner.is_on(2));
    assert!(!runner.is_on(1));
    assert!(!runner.is_on(40));
    assert_eq!(runner.snapshot().len(), 3);
}

#[test]
fn relation_queries() {
    let mut runner = Runner::new();
    runner.place_blotter(1, 2);
    runner.place_inverter(1, 3);
    assert!(runner.has_blotter(1, 2));
    assert!(!runner.has_blotter(1, 3));
    assert!(runner.has_inverter(1, 3));
    assert!(!runner.has_inverter(7, 3));
    runner.remove_inverter(1, 3);
    assert!(!runner.has_inverter(1, 3));
}
