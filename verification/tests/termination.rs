use dstd::init::Termination;

#[test]
fn unit_reports_success() {
    assert_eq!(().report(), 0);
}

#[test]
fn results_report_their_outcome() {
    let ok: Result<u8, String> = Ok(3);
    let err: Result<u8, String> = Err("boom".to_string());
    assert_eq!(ok.report(), 0);
    assert_eq!(err.report(), 1);
}
