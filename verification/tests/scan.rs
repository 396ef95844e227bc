use port_sniffer::aggregate::aggregate;
use port_sniffer::engine::{advance, run_scan, scan_report, ScanState};
use port_sniffer::partition::partition;
use port_sniffer::request::{ConfigError, ScanRequest};
use port_sniffer::worker::collect_open;

fn outcomes_with_open(len: usize, open: &[u16]) -> Vec<bool> {
    let mut table = vec![false; len];
    for &p in open {
        table[p as usize] = true;
    }
    table
}

#[test]
fn scenario_two_workers_two_open() {
    // port range [1, 10], two workers, ports 3 and 7 open
    let req = ScanRequest::new(1, 10, 2).unwrap();
    let outcomes = outcomes_with_open(11, &[3, 7]);
    let lines = scan_report(&req, &outcomes);
    assert_eq!(lines.len(), 2);
    assert_eq!(lines[0], "3 is open");
    assert_eq!(lines[1], "7 is open");
}

#[test]
fn scenario_more_workers_than_ports() {
    // range [5, 5] split among four workers: three empty assignments
    let req = ScanRequest::new(5, 5, 4).unwrap();
    let assignments = partition(&req);
    assert_eq!(assignments.len(), 4);
    let empty = assignments.iter().filter(|a| a.ports.is_empty()).count();
    assert_eq!(empty, 3);
    let full: Vec<_> = assignments.iter().filter(|a| !a.ports.is_empty()).collect();
    assert_eq!(full.len(), 1);
    assert_eq!(full[0].ports, vec![5]);
    // the scan still completes without error
    let outcomes = outcomes_with_open(6, &[5]);
    let outcome = run_scan(&req, &outcomes);
    assert_eq!(outcome.ports, vec![5]);
}

#[test]
fn scenario_all_ports_closed() {
    // nothing open: zero lines, and the engine still walks to DONE
    let req = ScanRequest::new(1, 10, 3).unwrap();
    let outcomes = vec![false; 11];
    let lines = scan_report(&req, &outcomes);
    assert_eq!(lines.len(), 0);
    let mut state = ScanState::Idle;
    for _ in 0..5 {
        state = advance(state);
    }
    assert_eq!(state, ScanState::Done);
    assert_eq!(advance(state), ScanState::Done);
}

#[test]
fn scenario_single_worker_matches_many() {
    // one worker scans sequentially and finds the same open set as five
    let outcomes = outcomes_with_open(101, &[22, 53, 80, 100]);
    let one = run_scan(&ScanRequest::new(1, 100, 1).unwrap(), &outcomes);
    let five = run_scan(&ScanRequest::new(1, 100, 5).unwrap(), &outcomes);
    assert_eq!(one.ports, vec![22, 53, 80, 100]);
    assert_eq!(one.ports, five.ports);
}

#[test]
fn partition_is_striped() {
    let req = ScanRequest::new(1, 10, 2).unwrap();
    let assignments = partition(&req);
    assert_eq!(assignments.len(), 2);
    assert_eq!(assignments[0].worker_id, 0);
    assert_eq!(assignments[0].ports, vec![1, 3, 5, 7, 9]);
    assert_eq!(assignments[1].worker_id, 1);
    assert_eq!(assignments[1].ports, vec![2, 4, 6, 8, 10]);
}

#[test]
fn partition_covers_range_once() {
    let req = ScanRequest::new(20, 41, 3).unwrap();
    let assignments = partition(&req);
    let mut union: Vec<u16> = assignments.iter().flat_map(|a| a.ports.clone()).collect();
    union.sort();
    let expected: Vec<u16> = (20..=41).collect();
    assert_eq!(union, expected);
}

#[test]
fn highest_ports_are_reachable() {
    // the top of the port space must not trip the striding arithmetic
    let req = ScanRequest::new(65530, 65535, 3).unwrap();
    let outcomes = outcomes_with_open(65536, &[65535]);
    let outcome = run_scan(&req, &outcomes);
    assert_eq!(outcome.ports, vec![65535]);
}

#[test]
fn worker_keeps_only_open_ports() {
    let ports: Vec<u16> = vec![1, 3, 5];
    let outcomes = outcomes_with_open(6, &[3]);
    assert_eq!(collect_open(&ports, &outcomes), vec![3]);
}

#[test]
fn aggregate_concatenates_worker_results() {
    let parts: Vec<Vec<u16>> = vec![vec![3], vec![7], vec![]];
    assert_eq!(aggregate(&parts), vec![3, 7]);
}

#[test]
fn rejects_port_zero() {
    assert_eq!(ScanRequest::new(0, 10, 1), Err(ConfigError::InvalidPortRange));
}

#[test]
fn rejects_inverted_range() {
    assert_eq!(ScanRequest::new(9, 2, 1), Err(ConfigError::InvalidPortRange));
}

#[test]
fn rejects_zero_workers() {
    assert_eq!(ScanRequest::new(1, 10, 0), Err(ConfigError::NoWorkers));
}

#[test]
fn accepts_valid_request() {
    let req = ScanRequest::new(1, 1024, 4).unwrap();
    assert_eq!(req.start, 1);
    assert_eq!(req.end, 1024);
    assert_eq!(req.workers, 4);
}
