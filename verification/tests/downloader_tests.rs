use drillbook::downloader::{plan_download, validate_target, DownloadAction, DownloadTarget, TargetError};

fn target(subject: &str, url: &str, output_path: &str) -> DownloadTarget {
    DownloadTarget {
        year: 2025,
        subject: subject.to_string(),
        url: url.to_string(),
        output_path: output_path.to_string(),
    }
}

#[test]
fn validates_invalid_url() {
    let target = DownloadTarget {
        year: 2025,
        subject: "財務・会計".to_string(),
        url: "not-a-valid-url".to_string(),
        output_path: "data/raw/2025_zaimu.pdf".to_string(),
    };

    let result = validate_target(&target);
    assert!(result.is_err());
}

#[test]
fn validate_target_errors_in_order() {
    let t = target(" \t", "not-a-valid-url", "");
    match validate_target(&t) {
        Err(e @ TargetError::EmptySubject { year: 2025 }) => {
            assert_eq!(e.message(), "subject is empty for year 2025")
        }
        _ => panic!("expected an empty subject"),
    }
    let t = target("s", "not-a-valid-url", "");
    match validate_target(&t) {
        Err(e @ TargetError::EmptyOutputPath { year: 2025 }) => {
            assert_eq!(e.message(), "output_path is empty for year 2025")
        }
        _ => panic!("expected an empty output path"),
    }
    let t = target("s", "not-a-valid-url", "a.pdf");
    match validate_target(&t) {
        Err(e @ TargetError::InvalidUrl { .. }) => assert!(!e.message().is_empty()),
        _ => panic!("expected an invalid url"),
    }
    let t = target("s", "https://example.com/2025/s.pdf", "a.pdf");
    assert!(validate_target(&t).is_ok());
}

#[test]
fn existing_files_are_kept_unless_forced() {
    let t = target("s", "https://example.com/2025/s.pdf", "a.pdf");
    assert_eq!(plan_download(&t, true, false).ok(), Some(DownloadAction::KeepExisting));
    assert_eq!(plan_download(&t, true, true).ok(), Some(DownloadAction::Fetch));
    assert_eq!(plan_download(&t, false, false).ok(), Some(DownloadAction::Fetch));
    let bad = target("s", "::", "a.pdf");
    assert!(plan_download(&bad, true, false).is_err());
}

#[test]
fn invalid_url_reason_is_the_parser_message() {
    let t = target("s", "not-a-valid-url", "a.pdf");
    match validate_target(&t) {
        Err(TargetError::InvalidUrl { reason }) => assert_eq!(reason, "relative URL without a base"),
        _ => panic!("expected an invalid url"),
    }
}
