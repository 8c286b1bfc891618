use sdstatus::aggregate::build_report;
use sdstatus::model::EndpointDescriptor;
use sdstatus::model::MetadataRecord;
use sdstatus::model::ProbeError;
use sdstatus::model::ProbeOutcome;
use sdstatus::model::ScanResult;

fn desc(title: &str) -> EndpointDescriptor {
    EndpointDescriptor {
        onion_name: None,
        title: title.to_string(),
        landing_page_url: format!("https://{title}.example"),
        onion_address: format!("{title}.onion"),
    }
}

fn success(title: &str, langs: &[&str]) -> ProbeOutcome {
    ProbeOutcome::Success {
        descriptor: desc(title),
        metadata: MetadataRecord {
            sd_version: "2.12.4".to_string(),
            server_os: "20.04".to_string(),
            gpg_fpr: "ABCDEF0123456789".to_string(),
            v2_source_url: None,
            v3_source_url: "http://source.example".to_string(),
            supported_languages: langs.iter().map(|l| l.to_string()).collect(),
        },
    }
}

fn failure(title: &str, error: ProbeError) -> ProbeOutcome {
    ProbeOutcome::Failure { descriptor: desc(title), error }
}

fn entries(report: &sdstatus::aggregate::Report) -> Vec<(String, Vec<String>)> {
    report
        .entries
        .iter()
        .map(|e| (e.locale.clone(), e.titles.clone()))
        .collect()
}

#[test]
fn locale_coverage_example() {
    // two healthy endpoints and one that fails: the failure stays in the
    // scan result but leaves no trace in the report
    let scan = ScanResult {
        outcomes: vec![
            success("Alpha", &["en", "fr"]),
            success("Beta", &["en"]),
            failure("Gamma", ProbeError::Unreachable),
        ],
    };
    assert_eq!(scan.len(), 3);
    let report = build_report(&scan);
    assert_eq!(
        entries(&report),
        vec![
            ("en".to_string(), vec!["Alpha".to_string(), "Beta".to_string()]),
            ("fr".to_string(), vec!["Alpha".to_string()]),
        ]
    );
}

#[test]
fn aggregation_is_idempotent() {
    let scan = ScanResult {
        outcomes: vec![
            success("Beta", &["de", "en"]),
            failure("Gamma", ProbeError::Timeout),
            success("Alpha", &["en"]),
        ],
    };
    let first = build_report(&scan);
    let second = build_report(&scan);
    assert_eq!(first, second);
}

#[test]
fn failures_only_scan_gives_empty_report() {
    let scan = ScanResult {
        outcomes: vec![
            failure("Alpha", ProbeError::Unreachable),
            failure("Beta", ProbeError::Malformed),
            failure("Gamma", ProbeError::HttpError),
        ],
    };
    let report = build_report(&scan);
    assert!(report.entries.is_empty());
}

#[test]
fn empty_scan_gives_empty_report() {
    let scan = ScanResult { outcomes: vec![] };
    let report = build_report(&scan);
    assert!(report.entries.is_empty());
}

#[test]
fn locales_and_titles_come_out_sorted_and_deduplicated() {
    // titles and locales arrive in no particular order, with repeats both
    // across endpoints and inside one endpoint's language list
    let scan = ScanResult {
        outcomes: vec![
            success("Zulu", &["fr", "de"]),
            success("Alpha", &["fr", "fr", "ar"]),
            success("Mike", &["de"]),
        ],
    };
    let report = build_report(&scan);
    assert_eq!(
        entries(&report),
        vec![
            ("ar".to_string(), vec!["Alpha".to_string()]),
            ("de".to_string(), vec!["Mike".to_string(), "Zulu".to_string()]),
            ("fr".to_string(), vec!["Alpha".to_string(), "Zulu".to_string()]),
        ]
    );
}

#[test]
fn same_title_twice_is_filed_once() {
    let scan = ScanResult {
        outcomes: vec![success("Alpha", &["en"]), success("Alpha", &["en", "fr"])],
    };
    let report = build_report(&scan);
    assert_eq!(
        entries(&report),
        vec![
            ("en".to_string(), vec!["Alpha".to_string()]),
            ("fr".to_string(), vec!["Alpha".to_string()]),
        ]
    );
}

#[test]
fn locale_case_is_preserved_not_normalized() {
    let scan = ScanResult {
        outcomes: vec![success("Alpha", &["en-US", "en-us"])],
    };
    let report = build_report(&scan);
    assert_eq!(
        entries(&report),
        vec![
            ("en-US".to_string(), vec!["Alpha".to_string()]),
            ("en-us".to_string(), vec!["Alpha".to_string()]),
        ]
    );
}

#[test]
fn rendered_text_matches_expected_layout() {
    let scan = ScanResult {
        outcomes: vec![
            success("Alpha", &["en", "fr"]),
            success("Beta", &["en"]),
            failure("Gamma", ProbeError::Unreachable),
        ],
    };
    let report = build_report(&scan);
    let text = sdstatus::render::render_report(&report);
    assert_eq!(
        text,
        "en (2):\n  Alpha\n  Beta\n\n\nfr (1):\n  Alpha\n\n"
    );
}

#[test]
fn rendering_large_counts_uses_plain_decimal() {
    let titles: Vec<&str> = vec![
        "S01", "S02", "S03", "S04", "S05", "S06", "S07", "S08", "S09", "S10", "S11", "S12",
    ];
    let scan = ScanResult {
        outcomes: titles.iter().map(|t| success(t, &["en"])).collect(),
    };
    let report = build_report(&scan);
    let text = sdstatus::render::render_report(&report);
    assert!(text.starts_with("en (12):\n  S01\n"));
}
