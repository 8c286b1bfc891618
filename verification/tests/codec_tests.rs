use sdstatus::aggregate::build_report;
use sdstatus::codec::decode_scan;
use sdstatus::codec::encode_scan;
use sdstatus::model::EndpointDescriptor;
use sdstatus::model::MetadataRecord;
use sdstatus::model::ProbeError;
use sdstatus::model::ProbeOutcome;
use sdstatus::model::ScanResult;

fn sample_scan() -> ScanResult {
    ScanResult {
        outcomes: vec![
            ProbeOutcome::Success {
                descriptor: EndpointDescriptor {
                    onion_name: Some("alpha".to_string()),
                    title: "Alpha".to_string(),
                    landing_page_url: "https://alpha.example".to_string(),
                    onion_address: "alpha.onion".to_string(),
                },
                metadata: MetadataRecord {
                    sd_version: "2.12.4".to_string(),
                    server_os: "20.04".to_string(),
                    gpg_fpr: "ABCDEF0123456789".to_string(),
                    v2_source_url: Some("http://old.example".to_string()),
                    v3_source_url: "http://source.example".to_string(),
                    supported_languages: vec!["en".to_string(), "fr".to_string()],
                },
            },
            ProbeOutcome::Failure {
                descriptor: EndpointDescriptor {
                    onion_name: None,
                    title: "Gamma".to_string(),
                    landing_page_url: "https://gamma.example".to_string(),
                    onion_address: "gamma.onion".to_string(),
                },
                error: ProbeError::Timeout,
            },
        ],
    }
}

#[test]
fn round_trip_restores_the_scan() {
    let scan = sample_scan();
    let text = encode_scan(&scan);
    let reloaded = decode_scan(&text).expect("an encoding must decode");
    assert_eq!(reloaded, scan);
}

#[test]
fn round_trip_preserves_the_report() {
    let scan = sample_scan();
    let direct = build_report(&scan);
    let text = encode_scan(&scan);
    let reloaded = decode_scan(&text).expect("an encoding must decode");
    let replayed = build_report(&reloaded);
    assert_eq!(direct, replayed);
}

#[test]
fn round_trip_of_empty_scan() {
    let scan = ScanResult { outcomes: vec![] };
    let text = encode_scan(&scan);
    assert_eq!(text, "00000000000000000000");
    let reloaded = decode_scan(&text).expect("an encoding must decode");
    assert_eq!(reloaded, scan);
}

#[test]
fn round_trip_keeps_every_error_kind() {
    let errors = [
        ProbeError::Unreachable,
        ProbeError::Timeout,
        ProbeError::Malformed,
        ProbeError::HttpError,
    ];
    let scan = ScanResult {
        outcomes: errors
            .iter()
            .enumerate()
            .map(|(i, e)| ProbeOutcome::Failure {
                descriptor: EndpointDescriptor {
                    onion_name: None,
                    title: format!("Site{i}"),
                    landing_page_url: format!("https://site{i}.example"),
                    onion_address: format!("site{i}.onion"),
                },
                error: *e,
            })
            .collect(),
    };
    let text = encode_scan(&scan);
    let reloaded = decode_scan(&text).expect("an encoding must decode");
    assert_eq!(reloaded, scan);
}

#[test]
fn round_trip_keeps_non_ascii_text() {
    let scan = ScanResult {
        outcomes: vec![ProbeOutcome::Success {
            descriptor: EndpointDescriptor {
                onion_name: None,
                title: "Zeitung für Alle — Öffentlich".to_string(),
                landing_page_url: "https://zeitung.example".to_string(),
                onion_address: "zeitung.onion".to_string(),
            },
            metadata: MetadataRecord {
                sd_version: "2.12.4".to_string(),
                server_os: "20.04".to_string(),
                gpg_fpr: "ABCDEF0123456789".to_string(),
                v2_source_url: None,
                v3_source_url: "http://source.example".to_string(),
                supported_languages: vec!["de".to_string(), "ar-عربي".to_string()],
            },
        }],
    };
    let text = encode_scan(&scan);
    let reloaded = decode_scan(&text).expect("an encoding must decode");
    assert_eq!(reloaded, scan);
}

#[test]
fn garbage_is_rejected() {
    assert!(decode_scan("").is_none());
    assert!(decode_scan("hello").is_none());
    assert!(decode_scan("abcdefghijklmnopqrst").is_none());
    // a count with nothing behind it
    assert!(decode_scan("00000000000000000002").is_none());
}

#[test]
fn truncated_and_padded_encodings_are_rejected() {
    let scan = sample_scan();
    let text = encode_scan(&scan);
    let mut truncated = text.clone();
    truncated.pop();
    assert!(decode_scan(&truncated).is_none());
    let padded = format!("{text} ");
    assert!(decode_scan(&padded).is_none());
}
