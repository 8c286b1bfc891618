use sdstatus::model::EndpointDescriptor;
use sdstatus::model::MetadataRecord;
use sdstatus::model::ProbeError;
use sdstatus::scan::Orchestrator;
use sdstatus::scan::waves;

fn desc(title: &str, addr: &str) -> EndpointDescriptor {
    EndpointDescriptor {
        onion_name: None,
        title: title.to_string(),
        landing_page_url: format!("https://{title}.example"),
        onion_address: addr.to_string(),
    }
}

fn meta(langs: &[&str]) -> MetadataRecord {
    MetadataRecord {
        sd_version: "2.12.4".to_string(),
        server_os: "20.04".to_string(),
        gpg_fpr: "ABCDEF0123456789".to_string(),
        v2_source_url: None,
        v3_source_url: "http://source.example".to_string(),
        supported_languages: langs.iter().map(|l| l.to_string()).collect(),
    }
}

/// Drives a full scan: dispatches as long as the ceiling allows, otherwise
/// completes the oldest pending probe; `fails` marks positions whose probe
/// fails. Returns the scan result and the peak number of in-flight probes.
fn drive(descriptors: Vec<EndpointDescriptor>, limit: usize, fails: &dyn Fn(usize) -> bool) -> (sdstatus::model::ScanResult, usize) {
    let mut orch = Orchestrator::new(descriptors, limit);
    let mut pending: Vec<usize> = Vec::new();
    let mut peak: usize = 0;
    while !orch.is_done() {
        assert!(orch.in_flight() <= limit);
        if orch.can_dispatch() {
            let idx = orch.dispatch();
            pending.push(idx);
        } else {
            let idx = pending.remove(0);
            assert!(orch.is_pending(idx));
            let report = if fails(idx) {
                Err(ProbeError::Unreachable)
            } else {
                Ok(meta(&["en"]))
            };
            orch.complete(idx, report);
        }
        if orch.in_flight() > peak {
            peak = orch.in_flight();
        }
    }
    assert!(pending.is_empty());
    (orch.finish(), peak)
}

#[test]
fn empty_scan_has_empty_result() {
    let orch = Orchestrator::new(vec![], 8);
    assert!(orch.is_done());
    let result = orch.finish();
    assert_eq!(result.len(), 0);
}

#[test]
fn scan_of_one_yields_one_outcome() {
    let (result, _) = drive(vec![desc("Alpha", "alpha.onion")], 8, &|_| false);
    assert_eq!(result.len(), 1);
    assert!(result.outcomes[0].is_success());
}

#[test]
fn scan_size_is_input_size_with_failures() {
    for n in [0usize, 1, 8, 1000] {
        let descriptors: Vec<EndpointDescriptor> = (0..n)
            .map(|i| desc(&format!("Site{i}"), &format!("site{i}.onion")))
            .collect();
        // an arbitrary injected subset of failures
        let (result, _) = drive(descriptors, 8, &|i| i % 3 == 0 || i % 7 == 2);
        assert_eq!(result.len(), n);
    }
}

#[test]
fn every_descriptor_represented_exactly_once_in_order() {
    let n = 25usize;
    let descriptors: Vec<EndpointDescriptor> = (0..n)
        .map(|i| desc(&format!("Site{i}"), &format!("site{i}.onion")))
        .collect();
    let (result, _) = drive(descriptors.clone(), 4, &|i| i % 2 == 0);
    assert_eq!(result.len(), n);
    for (i, outcome) in result.outcomes.iter().enumerate() {
        assert_eq!(outcome.descriptor(), &descriptors[i]);
    }
}

#[test]
fn in_flight_never_exceeds_ceiling() {
    let n = 20usize;
    let limit = 2usize;
    let descriptors: Vec<EndpointDescriptor> = (0..n)
        .map(|i| desc(&format!("Site{i}"), &format!("site{i}.onion")))
        .collect();
    let (result, peak) = drive(descriptors, limit, &|i| i % 4 == 1);
    assert_eq!(result.len(), n);
    assert!(peak <= limit);
    // the driver saturates the pool, so the ceiling is actually reached
    assert_eq!(peak, limit);
}

#[test]
fn dispatch_refused_at_ceiling() {
    let descriptors: Vec<EndpointDescriptor> = (0..5)
        .map(|i| desc(&format!("Site{i}"), &format!("site{i}.onion")))
        .collect();
    let mut orch = Orchestrator::new(descriptors, 2);
    assert!(orch.can_dispatch());
    let a = orch.dispatch();
    let b = orch.dispatch();
    // two probes in flight, ceiling two: a third may not start
    assert_eq!(orch.in_flight(), 2);
    assert!(!orch.can_dispatch());
    orch.complete(a, Err(ProbeError::Timeout));
    assert!(orch.can_dispatch());
    orch.complete(b, Ok(meta(&["en"])));
    assert_eq!(orch.in_flight(), 0);
}

#[test]
fn one_slow_probe_does_not_block_others() {
    // position 0 never completes until every other probe has finished:
    // all other outcomes are collected regardless
    let n = 6usize;
    let descriptors: Vec<EndpointDescriptor> = (0..n)
        .map(|i| desc(&format!("Site{i}"), &format!("site{i}.onion")))
        .collect();
    let mut orch = Orchestrator::new(descriptors, 3);
    let slow = orch.dispatch();
    let mut pending: Vec<usize> = Vec::new();
    while orch.completed_count() < n - 1 {
        if orch.can_dispatch() {
            pending.push(orch.dispatch());
        } else {
            let idx = pending.remove(0);
            orch.complete(idx, Ok(meta(&["de"])));
        }
    }
    // only now does the slow probe report back, as a timeout
    assert!(orch.is_pending(slow));
    orch.complete(slow, Err(ProbeError::Timeout));
    assert!(orch.is_done());
    let result = orch.finish();
    assert_eq!(result.len(), n);
    assert!(!result.outcomes[0].is_success());
    for i in 1..n {
        assert!(result.outcomes[i].is_success());
    }
}

#[test]
fn duplicate_descriptors_probed_independently() {
    let descriptors = vec![desc("Twin", "twin.onion"), desc("Twin", "twin.onion")];
    let (result, _) = drive(descriptors, 8, &|i| i == 1);
    assert_eq!(result.len(), 2);
    assert!(result.outcomes[0].is_success());
    assert!(!result.outcomes[1].is_success());
}

#[test]
fn wave_bound_shows_batching_and_concurrency() {
    // five probes under a ceiling of two finish in three full waves: at
    // least three probe-timeouts of wall time, and fewer than five, so the
    // probes were indeed run concurrently
    assert_eq!(waves(5, 2), 3);
    assert!(waves(5, 2) < 5);
    assert_eq!(waves(0, 8), 0);
    assert_eq!(waves(8, 8), 1);
    assert_eq!(waves(1000, 8), 125);
}
