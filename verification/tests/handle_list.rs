use liveness_tracker::entry::TrackedEntry;
use liveness_tracker::handle::{is_strictly_ascending, MinecraftScanner};
use liveness_tracker::worker::Phase;

#[test]
fn create_publishes_the_single_candidate() {
    let (scanner, worker) = MinecraftScanner::create(&vec![25565], 0);
    assert_eq!(scanner.get_ports(), vec![25565]);
    assert_eq!(worker.ports(), vec![25565]);
    assert_eq!(worker.entries(), vec![TrackedEntry { port: 25565, last_confirmed: 0 }]);
    assert_eq!(worker.phase(), Phase::Running);
    assert_eq!(worker.ttl_ms(), 5000);
    assert_eq!(worker.poll_ms(), 200);
}

#[test]
fn create_orders_candidates_and_drops_repeats() {
    let (scanner, worker) = MinecraftScanner::create(&vec![25565, 80, 443, 80, 25565, 22], 1234);
    assert_eq!(scanner.get_ports(), vec![22, 80, 443, 25565]);
    assert_eq!(
        worker.entries(),
        vec![
            TrackedEntry { port: 22, last_confirmed: 1234 },
            TrackedEntry { port: 80, last_confirmed: 1234 },
            TrackedEntry { port: 443, last_confirmed: 1234 },
            TrackedEntry { port: 25565, last_confirmed: 1234 },
        ]
    );
}

#[test]
fn create_with_no_candidates_publishes_nothing() {
    let (scanner, worker) = MinecraftScanner::create(&Vec::new(), 99);
    assert_eq!(scanner.get_ports(), Vec::<u16>::new());
    assert_eq!(worker.entries(), Vec::<TrackedEntry>::new());
    assert_eq!(worker.phase(), Phase::Running);
}

#[test]
fn create_keeps_the_extreme_ports() {
    let (scanner, _worker) = MinecraftScanner::create(&vec![65535, 0, 1], 0);
    assert_eq!(scanner.get_ports(), vec![0, 1, 65535]);
}

#[test]
fn get_ports_is_a_snapshot() {
    let (mut scanner, _worker) = MinecraftScanner::create(&vec![1, 2, 3], 0);
    let mut snapshot = scanner.get_ports();
    snapshot.push(4);
    assert_eq!(scanner.get_ports(), vec![1, 2, 3]);
    assert!(scanner.publish(vec![2]));
    assert_eq!(snapshot, vec![1, 2, 3, 4]);
    assert_eq!(scanner.get_ports(), vec![2]);
}

#[test]
fn publish_replaces_the_whole_list() {
    let (mut scanner, _worker) = MinecraftScanner::create(&vec![10, 20, 30], 0);
    assert!(scanner.publish(vec![10, 30]));
    assert_eq!(scanner.get_ports(), vec![10, 30]);
    assert!(scanner.publish(Vec::new()));
    assert_eq!(scanner.get_ports(), Vec::<u16>::new());
    assert!(scanner.publish(vec![5, 6, 7, 8]));
    assert_eq!(scanner.get_ports(), vec![5, 6, 7, 8]);
}

#[test]
fn publish_turns_down_a_list_with_a_repeat() {
    let (mut scanner, _worker) = MinecraftScanner::create(&vec![10, 20], 0);
    assert!(!scanner.publish(vec![10, 10]));
    assert_eq!(scanner.get_ports(), vec![10, 20]);
}

#[test]
fn publish_turns_down_a_list_out_of_order() {
    let (mut scanner, _worker) = MinecraftScanner::create(&vec![10, 20], 0);
    assert!(!scanner.publish(vec![1, 3, 2]));
    assert_eq!(scanner.get_ports(), vec![10, 20]);
}

#[test]
fn strictly_ascending_lists() {
    assert!(is_strictly_ascending(&Vec::new()));
    assert!(is_strictly_ascending(&vec![7]));
    assert!(is_strictly_ascending(&vec![1, 2, 3]));
    assert!(is_strictly_ascending(&vec![0, 65535]));
    assert!(!is_strictly_ascending(&vec![1, 1]));
    assert!(!is_strictly_ascending(&vec![2, 1]));
    assert!(!is_strictly_ascending(&vec![1, 2, 3, 3]));
    assert!(!is_strictly_ascending(&vec![1, 5, 4, 6]));
}
