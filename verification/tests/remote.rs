use clouddrive::remote::{
    apply_fetch_outcome, check_auth_response, check_library_response, upload_link_step,
    upload_post_step, FetchOutcome, RemoteStep, SeafileConfig, SeafileError, TransportResult,
};

#[test]
fn config_requires_whole_blocks() {
    let cfg = SeafileConfig::new(4096, 1024).ok().unwrap();
    assert_eq!(cfg.total_size, 4096);
    assert_eq!(cfg.block_size, 1024);
    assert_eq!(
        SeafileConfig::new(1000, 1024),
        Err(SeafileError::BadTotalSizeError)
    );
    assert_eq!(
        SeafileConfig::new(1000, 0),
        Err(SeafileError::BadTotalSizeError)
    );
}

#[test]
fn auth_probe_classification() {
    assert!(check_auth_response(TransportResult::Status(200)).is_ok());
    assert_eq!(
        check_auth_response(TransportResult::Status(403)),
        Err(SeafileError::AuthError)
    );
    assert_eq!(
        check_auth_response(TransportResult::Failed),
        Err(SeafileError::IOError)
    );
}

#[test]
fn library_probe_classification() {
    assert!(check_library_response(TransportResult::Status(200)).is_ok());
    assert_eq!(
        check_library_response(TransportResult::Status(404)),
        Err(SeafileError::NoLibraryError)
    );
    assert_eq!(
        check_library_response(TransportResult::Failed),
        Err(SeafileError::IOError)
    );
}

#[test]
fn fetch_body_is_copied_into_place() {
    let mut buf = vec![0u8; 8];
    let step = apply_fetch_outcome(&mut buf, 4, 4, &FetchOutcome::Body(vec![1, 2, 3]), 0);
    assert_eq!(step, RemoteStep::Proceed);
    assert_eq!(buf, vec![0, 0, 0, 0, 1, 2, 3, 0]);
}

#[test]
fn fetch_not_found_reads_zero() {
    let mut buf = vec![0u8; 8];
    let step = apply_fetch_outcome(&mut buf, 0, 8, &FetchOutcome::NotFound, 0);
    assert_eq!(step, RemoteStep::Proceed);
    assert_eq!(buf, vec![0u8; 8]);
}

#[test]
fn fetch_oversized_body_fails() {
    let mut buf = vec![0u8; 8];
    let step = apply_fetch_outcome(&mut buf, 0, 2, &FetchOutcome::Body(vec![1, 2, 3]), 0);
    assert_eq!(step, RemoteStep::Fail(SeafileError::IOError));
    assert_eq!(buf, vec![0u8; 8]);
}

#[test]
fn fetch_bad_status_fails() {
    let mut buf = vec![0u8; 4];
    let step = apply_fetch_outcome(&mut buf, 0, 4, &FetchOutcome::BadStatus(500), 0);
    assert_eq!(step, RemoteStep::Fail(SeafileError::BadResponseError(500)));
    assert_eq!(buf, vec![0u8; 4]);
}

#[test]
fn fetch_failures_are_retried_a_bounded_number_of_times() {
    let mut buf = vec![0u8; 4];
    assert_eq!(
        apply_fetch_outcome(&mut buf, 0, 4, &FetchOutcome::Failed, 0),
        RemoteStep::Retry(1)
    );
    assert_eq!(
        apply_fetch_outcome(&mut buf, 0, 4, &FetchOutcome::Failed, 6),
        RemoteStep::Retry(7)
    );
    assert_eq!(
        apply_fetch_outcome(&mut buf, 0, 4, &FetchOutcome::Failed, 7),
        RemoteStep::Fail(SeafileError::IOError)
    );
}

#[test]
fn upload_link_not_found_is_an_error() {
    assert_eq!(
        upload_link_step(TransportResult::Status(200), 0),
        RemoteStep::Proceed
    );
    assert_eq!(
        upload_link_step(TransportResult::Status(404), 0),
        RemoteStep::Fail(SeafileError::BadResponseError(404))
    );
    assert_eq!(
        upload_link_step(TransportResult::Failed, 0),
        RemoteStep::Retry(1)
    );
    assert_eq!(
        upload_link_step(TransportResult::Failed, 7),
        RemoteStep::Fail(SeafileError::IOError)
    );
}

#[test]
fn upload_post_any_answer_is_done() {
    assert_eq!(
        upload_post_step(TransportResult::Status(200), 0),
        RemoteStep::Proceed
    );
    assert_eq!(
        upload_post_step(TransportResult::Status(500), 0),
        RemoteStep::Proceed
    );
    assert_eq!(
        upload_post_step(TransportResult::Failed, 7),
        RemoteStep::Fail(SeafileError::IOError)
    );
}
