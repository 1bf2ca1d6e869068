use liveness_tracker::entry::TrackedEntry;
use liveness_tracker::handle::MinecraftScanner;
use liveness_tracker::worker::{Action, Phase, Signal, Worker};
use std::cell::RefCell;

fn carry_out(scanner: &mut MinecraftScanner, action: Action) -> Option<u64> {
    match action {
        Action::Stop => None,
        Action::Wait { millis } => Some(millis),
        Action::Publish { ports, millis } => {
            assert!(scanner.publish(ports));
            Some(millis)
        }
    }
}

#[test]
fn failing_candidate_is_evicted_once_the_time_to_live_has_passed() {
    let (mut scanner, mut worker) = MinecraftScanner::create(&vec![25565], 0);
    let mut now: u64 = 0;
    while now < 5000 {
        let action = worker.step(Signal::Idle, now, |_p: u16| false);
        assert_eq!(action, Action::Wait { millis: 200 });
        assert_eq!(carry_out(&mut scanner, action), Some(200));
        assert_eq!(scanner.get_ports(), vec![25565]);
        now += 200;
    }
    assert_eq!(now, 5000);
    let action = worker.step(Signal::Idle, now, |_p: u16| false);
    assert_eq!(action, Action::Publish { ports: Vec::new(), millis: 200 });
    assert_eq!(carry_out(&mut scanner, action), Some(200));
    assert_eq!(scanner.get_ports(), Vec::<u16>::new());
    now += 200;
    assert_eq!(now, 5200);
    let action = worker.step(Signal::Idle, now, |_p: u16| true);
    assert_eq!(action, Action::Wait { millis: 200 });
    assert_eq!(scanner.get_ports(), Vec::<u16>::new());
    assert_eq!(worker.entries(), Vec::<TrackedEntry>::new());
}

#[test]
fn candidate_that_answers_every_probe_stays() {
    let (mut scanner, mut worker) = MinecraftScanner::create(&vec![25565], 0);
    let mut now: u64 = 0;
    while now <= 60_000 {
        let action = worker.step(Signal::Idle, now, |_p: u16| true);
        assert_eq!(action, Action::Wait { millis: 200 });
        carry_out(&mut scanner, action);
        assert_eq!(scanner.get_ports(), vec![25565]);
        assert_eq!(worker.ports(), vec![25565]);
        now += 200;
    }
    assert_eq!(worker.entries(), vec![TrackedEntry { port: 25565, last_confirmed: 60_000 }]);
}

#[test]
fn successful_probe_confirms_the_entry_at_the_time_of_the_iteration() {
    let mut worker = Worker::new(&vec![80], 100);
    assert_eq!(worker.step(Signal::Idle, 5099, |_p: u16| false), Action::Wait { millis: 200 });
    assert_eq!(worker.entries(), vec![TrackedEntry { port: 80, last_confirmed: 100 }]);
    assert_eq!(worker.step(Signal::Idle, 5100, |_p: u16| true), Action::Wait { millis: 200 });
    assert_eq!(worker.entries(), vec![TrackedEntry { port: 80, last_confirmed: 5100 }]);
    assert_eq!(worker.step(Signal::Idle, 10_099, |_p: u16| false), Action::Wait { millis: 200 });
    assert_eq!(worker.entries(), vec![TrackedEntry { port: 80, last_confirmed: 5100 }]);
    assert_eq!(
        worker.step(Signal::Idle, 10_100, |_p: u16| false),
        Action::Publish { ports: Vec::new(), millis: 200 }
    );
}

#[test]
fn unchanged_membership_publishes_nothing() {
    let (mut scanner, mut worker) = MinecraftScanner::create(&vec![22, 80, 443], 0);
    let before = scanner.get_ports();
    let action = worker.step(Signal::Idle, 5000, |_p: u16| true);
    assert_eq!(action, Action::Wait { millis: 200 });
    carry_out(&mut scanner, action);
    assert_eq!(scanner.get_ports(), before);
    assert_eq!(worker.ports(), before);
}

#[test]
fn only_the_failing_ports_leave_and_the_order_is_kept() {
    let (mut scanner, mut worker) = MinecraftScanner::create(&vec![443, 22, 25565, 80], 0);
    let action = worker.step(Signal::Idle, 7000, |p: u16| p != 80 && p != 22);
    assert_eq!(action, Action::Publish { ports: vec![443, 25565], millis: 200 });
    carry_out(&mut scanner, action);
    assert_eq!(scanner.get_ports(), vec![443, 25565]);
    assert_eq!(
        worker.entries(),
        vec![
            TrackedEntry { port: 443, last_confirmed: 7000 },
            TrackedEntry { port: 25565, last_confirmed: 7000 },
        ]
    );
}

#[test]
fn evicted_port_does_not_come_back() {
    let mut worker = Worker::new(&vec![80, 443], 0);
    worker.step(Signal::Idle, 5000, |p: u16| p == 443);
    assert_eq!(worker.ports(), vec![443]);
    assert_eq!(worker.step(Signal::Idle, 10_000, |_p: u16| true), Action::Wait { millis: 200 });
    assert_eq!(worker.ports(), vec![443]);
}

#[test]
fn probe_is_asked_once_per_due_entry_in_ascending_order() {
    let asked: RefCell<Vec<u16>> = RefCell::new(Vec::new());
    let mut worker = Worker::new(&vec![300, 100, 200], 0);
    worker.step(Signal::Idle, 4999, |p: u16| {
        asked.borrow_mut().push(p);
        true
    });
    assert_eq!(asked.borrow().clone(), Vec::<u16>::new());
    worker.step(Signal::Idle, 5000, |p: u16| {
        asked.borrow_mut().push(p);
        p != 200
    });
    assert_eq!(asked.borrow().clone(), vec![100, 200, 300]);
    assert_eq!(worker.ports(), vec![100, 300]);
}

#[test]
fn clock_that_went_backwards_asks_no_probe() {
    let asked: RefCell<Vec<u16>> = RefCell::new(Vec::new());
    let mut worker = Worker::new(&vec![25565], 1_000_000);
    let action = worker.step(Signal::Idle, 10, |p: u16| {
        asked.borrow_mut().push(p);
        false
    });
    assert_eq!(action, Action::Wait { millis: 200 });
    assert_eq!(asked.borrow().len(), 0);
    assert_eq!(worker.entries(), vec![TrackedEntry { port: 25565, last_confirmed: 1_000_000 }]);
}

#[test]
fn disconnected_channel_stops_the_worker() {
    let (scanner, mut worker) = MinecraftScanner::create(&vec![25565], 0);
    let asked: RefCell<Vec<u16>> = RefCell::new(Vec::new());
    let action = worker.step(Signal::Disconnected, 9000, |p: u16| {
        asked.borrow_mut().push(p);
        false
    });
    assert_eq!(action, Action::Stop);
    assert_eq!(worker.phase(), Phase::Terminated);
    assert_eq!(asked.borrow().len(), 0);
    assert_eq!(worker.entries(), vec![TrackedEntry { port: 25565, last_confirmed: 0 }]);
    assert_eq!(scanner.get_ports(), vec![25565]);
}

#[test]
fn terminated_worker_stays_terminated() {
    let mut worker = Worker::new(&vec![25565], 0);
    assert_eq!(worker.step(Signal::Disconnected, 0, |_p: u16| true), Action::Stop);
    assert_eq!(worker.step(Signal::Idle, 9000, |_p: u16| false), Action::Stop);
    assert_eq!(worker.step(Signal::Message, 9000, |_p: u16| false), Action::Stop);
    assert_eq!(worker.phase(), Phase::Terminated);
    assert_eq!(worker.ports(), vec![25565]);
}

#[test]
fn message_on_the_channel_does_not_stop_the_worker() {
    let mut worker = Worker::new(&vec![25565], 0);
    assert_eq!(worker.step(Signal::Message, 100, |_p: u16| false), Action::Wait { millis: 200 });
    assert_eq!(worker.phase(), Phase::Running);
    assert_eq!(
        worker.step(Signal::Message, 5000, |_p: u16| false),
        Action::Publish { ports: Vec::new(), millis: 200 }
    );
    assert_eq!(worker.phase(), Phase::Running);
}

#[test]
fn worker_without_candidates_only_waits() {
    let (mut scanner, mut worker) = MinecraftScanner::create(&Vec::new(), 0);
    let mut now: u64 = 0;
    while now <= 20_000 {
        let action = worker.step(Signal::Idle, now, |_p: u16| true);
        assert_eq!(action, Action::Wait { millis: 200 });
        assert_eq!(carry_out(&mut scanner, action), Some(200));
        assert_eq!(scanner.get_ports(), Vec::<u16>::new());
        now += 200;
    }
    assert_eq!(worker.step(Signal::Disconnected, now, |_p: u16| true), Action::Stop);
}

#[test]
fn chosen_policy_is_used() {
    let mut worker = Worker::with_policy(&vec![9, 8], 50, 1000, 25);
    assert_eq!(worker.ttl_ms(), 1000);
    assert_eq!(worker.poll_ms(), 25);
    assert_eq!(worker.ports(), vec![8, 9]);
    assert_eq!(worker.step(Signal::Idle, 1049, |_p: u16| false), Action::Wait { millis: 25 });
    assert_eq!(
        worker.step(Signal::Idle, 1050, |p: u16| p == 9),
        Action::Publish { ports: vec![9], millis: 25 }
    );
    assert_eq!(worker.entries(), vec![TrackedEntry { port: 9, last_confirmed: 1050 }]);
}

#[test]
fn zero_time_to_live_probes_on_every_iteration() {
    let asked: RefCell<Vec<u16>> = RefCell::new(Vec::new());
    let mut worker = Worker::with_policy(&vec![7], 0, 0, 200);
    for now in [0u64, 1, 2] {
        let action = worker.step(Signal::Idle, now, |p: u16| {
            asked.borrow_mut().push(p);
            true
        });
        assert_eq!(action, Action::Wait { millis: 200 });
    }
    assert_eq!(asked.borrow().clone(), vec![7, 7, 7]);
    assert_eq!(worker.entries(), vec![TrackedEntry { port: 7, last_confirmed: 2 }]);
}

#[test]
fn flapping_port_that_answers_when_due_is_never_unpublished() {
    let (mut scanner, mut worker) = MinecraftScanner::create(&vec![25565], 0);
    let mut now: u64 = 0;
    while now <= 30_000 {
        let up = now % 5000 == 0;
        let action = worker.step(Signal::Idle, now, |_p: u16| up);
        carry_out(&mut scanner, action);
        assert_eq!(scanner.get_ports(), vec![25565]);
        now += 200;
    }
}
