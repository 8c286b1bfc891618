use sdstatus::model::MetadataRecord;
use sdstatus::model::ProbeError;
use sdstatus::probe::classify_metadata_response;

fn meta() -> MetadataRecord {
    MetadataRecord {
        sd_version: "2.12.4".to_string(),
        server_os: "20.04".to_string(),
        gpg_fpr: "ABCDEF0123456789".to_string(),
        v2_source_url: None,
        v3_source_url: "http://source.example".to_string(),
        supported_languages: vec!["en".to_string()],
    }
}

#[test]
fn successful_answer_yields_the_metadata() {
    let m = meta();
    assert_eq!(classify_metadata_response(200, Some(m.clone())), Ok(m.clone()));
    assert_eq!(classify_metadata_response(299, Some(m.clone())), Ok(m));
}

#[test]
fn non_success_status_is_an_http_error() {
    assert_eq!(
        classify_metadata_response(404, Some(meta())),
        Err(ProbeError::HttpError)
    );
    assert_eq!(classify_metadata_response(500, None), Err(ProbeError::HttpError));
    assert_eq!(classify_metadata_response(199, None), Err(ProbeError::HttpError));
    assert_eq!(classify_metadata_response(300, None), Err(ProbeError::HttpError));
}

#[test]
fn undecodable_success_answer_is_malformed() {
    assert_eq!(classify_metadata_response(200, None), Err(ProbeError::Malformed));
}
