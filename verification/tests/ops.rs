use file_client::entities::OpError;
use file_client::ops::{download_url, list_url, name_is_safe, upload_name, upload_report, upload_url};

#[test]
fn upload_name_takes_the_basename() {
    assert_eq!(upload_name("/a/b/report.csv").unwrap(), "report.csv");
}

#[test]
fn upload_name_accepts_a_bare_file_name() {
    assert_eq!(upload_name("report.csv").unwrap(), "report.csv");
}

#[test]
fn upload_name_rejects_paths_without_a_file_name() {
    assert!(upload_name("").is_none());
    assert!(upload_name("/a/b/").is_none());
    assert!(upload_name("/").is_none());
    assert!(upload_name(".").is_none());
    assert!(upload_name("..").is_none());
    assert!(upload_name("a/..").is_none());
}

#[test]
fn safe_names_stay_in_the_working_directory() {
    assert!(name_is_safe("x.bin"));
    assert!(name_is_safe("..x"));
    assert!(!name_is_safe(""));
    assert!(!name_is_safe("a/b"));
    assert!(!name_is_safe("/etc"));
    assert!(!name_is_safe("."));
    assert!(!name_is_safe(".."));
}

#[test]
fn urls_point_at_the_configured_host() {
    assert_eq!(list_url(), "http://localhost:3000/list");
    assert_eq!(upload_url(), "http://localhost:3000/upload");
    assert_eq!(download_url(7), "http://localhost:3000/download/7");
    assert_eq!(download_url(0), "http://localhost:3000/download/0");
    assert_eq!(download_url(-3), "http://localhost:3000/download/-3");
    assert_eq!(download_url(-2147483648), "http://localhost:3000/download/-2147483648");
    assert_eq!(download_url(2147483647), "http://localhost:3000/download/2147483647");
}

#[test]
fn upload_report_prints_the_status_code() {
    assert_eq!(upload_report(200), "ok 200");
    assert_eq!(upload_report(201), "ok 201");
    assert_eq!(upload_report(500), "ok 500");
}

#[test]
fn exit_codes_are_distinct_and_non_zero() {
    let t = OpError::Transport.exit_code();
    let d = OpError::Decode.exit_code();
    let l = OpError::LocalIo.exit_code();
    assert_ne!(t, 0);
    assert_ne!(d, 0);
    assert_ne!(l, 0);
    assert_ne!(t, d);
    assert_ne!(t, l);
    assert_ne!(d, l);
}
