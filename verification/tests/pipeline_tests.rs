use drillbook::pipeline::{
    build_download_targets, download_failure_message, finish_ingest, plan_ingest, slug_from_lowercase, slugify,
    validate_config, IngestStep, PipelineConfig,
};

fn sample_config() -> PipelineConfig {
    PipelineConfig {
        years: vec![2025],
        subjects: vec!["財務・会計".to_string()],
        output_path: "data/questions.json".to_string(),
        raw_download_dir: "data/raw".to_string(),
        source_url_template: Some("https://example.com/{year}/{subject}.pdf".to_string()),
        force: false,
        dry_run: true,
    }
}

#[test]
fn run_ingest_requires_years() {
    let mut config = sample_config();
    config.years = vec![];

    let result = plan_ingest(&config);
    assert!(result.is_err());
}

#[test]
fn run_ingest_requires_subjects() {
    let mut config = sample_config();
    config.subjects = vec![];

    let result = plan_ingest(&config);
    assert!(result.is_err());
}

#[test]
fn run_ingest_requires_template() {
    let mut config = sample_config();
    config.source_url_template = None;

    let result = plan_ingest(&config);
    assert!(result.is_err());
}

#[test]
fn run_ingest_dry_run_succeeds() {
    let config = sample_config();

    let result = match plan_ingest(&config).ok().expect("dry-run should succeed") {
        IngestStep::DryRun { summary, .. } => summary,
        IngestStep::Download { .. } => panic!("dry-run should not download"),
    };
    assert_eq!(result.downloaded_files, 0);
    assert_eq!(result.ocr_outputs, 0);
    assert_eq!(result.parsed_questions, 0);
    assert_eq!(result.failed_targets, 0);
}

#[test]
fn build_download_targets_creates_matrix() {
    let mut config = sample_config();
    config.years = vec![2024, 2025];
    config.subjects = vec!["財務・会計".to_string(), "企業経営理論".to_string()];

    let targets = build_download_targets(&config).ok().expect("targets should build");
    assert_eq!(targets.len(), 4);
    assert!(
        targets
            .iter()
            .all(|t| t.url.starts_with("https://example.com/"))
    );
}

#[test]
fn targets_are_ordered_by_year_then_subject() {
    let mut config = sample_config();
    config.years = vec![2024, 2025];
    config.subjects = vec!["Finance & Accounting".to_string(), " Law ".to_string()];
    let targets = build_download_targets(&config).ok().expect("targets should build");
    let got: Vec<(u32, &str, &str, &str)> = targets
        .iter()
        .map(|t| (t.year, t.subject.as_str(), t.url.as_str(), t.output_path.as_str()))
        .collect();
    assert_eq!(
        got,
        vec![
            (2024, "Finance & Accounting", "https://example.com/2024/finance_accounting.pdf", "data/raw/2024_finance_accounting.pdf"),
            (2024, " Law ", "https://example.com/2024/law.pdf", "data/raw/2024_law.pdf"),
            (2025, "Finance & Accounting", "https://example.com/2025/finance_accounting.pdf", "data/raw/2025_finance_accounting.pdf"),
            (2025, " Law ", "https://example.com/2025/law.pdf", "data/raw/2025_law.pdf"),
        ]
    );
}

#[test]
fn template_placeholders_are_replaced_everywhere() {
    let mut config = sample_config();
    config.source_url_template = Some("x/{year}-{year}/{subject}?s={subject}&y={yea".to_string());
    config.subjects = vec!["AB".to_string()];
    config.raw_download_dir = "out/".to_string();
    let targets = build_download_targets(&config).ok().expect("targets should build");
    assert_eq!(targets[0].url, "x/2025-2025/ab?s=ab&y={yea");
    assert_eq!(targets[0].output_path, "out/2025_ab.pdf");

    config.raw_download_dir = String::new();
    let targets = build_download_targets(&config).ok().expect("targets should build");
    assert_eq!(targets[0].output_path, "2025_ab.pdf");
}

#[test]
fn build_download_targets_needs_template() {
    let mut config = sample_config();
    config.source_url_template = None;
    assert_eq!(
        build_download_targets(&config).err(),
        Some("source_url_template が未設定です。".to_string())
    );
}

#[test]
fn validate_config_messages() {
    let mut config = sample_config();
    assert_eq!(validate_config(&config), Ok(()));
    config.source_url_template = None;
    assert_eq!(
        validate_config(&config),
        Err("source_url_template が未設定です（例: https://example.com/{year}/{subject}.pdf）。".to_string())
    );
    config.subjects = vec![];
    assert_eq!(validate_config(&config), Err("対象科目が指定されていません。".to_string()));
    config.years = vec![];
    assert_eq!(validate_config(&config), Err("対象年度が指定されていません。".to_string()));
}

#[test]
fn plan_ingest_downloads_when_not_dry_run() {
    let mut config = sample_config();
    config.dry_run = false;
    config.force = true;
    match plan_ingest(&config).ok().expect("should plan") {
        IngestStep::Download { targets, force } => {
            assert_eq!(targets.len(), 1);
            assert!(force);
            assert_eq!(targets[0].url, "https://example.com/2025/unknown.pdf");
        }
        IngestStep::DryRun { .. } => panic!("should download"),
    }
    let summary = finish_ingest(3);
    assert_eq!(summary.downloaded_files, 3);
    assert_eq!(summary.failed_targets, 0);
}

#[test]
fn dry_run_counts_targets() {
    let mut config = sample_config();
    config.years = vec![2023, 2024, 2025];
    config.subjects = vec!["a".to_string(), "b".to_string()];
    match plan_ingest(&config).ok().expect("should plan") {
        IngestStep::DryRun { target_count, .. } => assert_eq!(target_count, 6),
        IngestStep::Download { .. } => panic!("should be a dry run"),
    }
}

#[test]
fn file_slugs() {
    assert_eq!(slugify("財務・会計"), "unknown");
    assert_eq!(slugify("   "), "unknown");
    assert_eq!(slugify("  Operations_Management 2 "), "operations_management_2");
    assert_eq!(slugify("ÄBC"), "bc");
    assert_eq!(slugify("a__b"), "a_b");
    let once = slugify("--Mixed Case--Subject!!");
    assert_eq!(once, "mixed_case_subject");
    assert_eq!(slugify(&once), once);
}

#[test]
fn failure_message() {
    assert_eq!(
        download_failure_message(12, "boom"),
        "ダウンロード処理に失敗しました。対象件数: 12, エラー: boom"
    );
}

#[test]
fn slug_from_lowered_text() {
    assert_eq!(slug_from_lowercase("abc def"), "abc_def");
    assert_eq!(slug_from_lowercase("ABC"), "unknown");
    assert_eq!(slug_from_lowercase("__x__"), "x");
}

#[test]
fn ascii_subjects_slug_by_ascii_lower_case() {
    assert_eq!(slugify(" Law "), "law");
    assert_eq!(slugify("IT Strategy 2"), "it_strategy_2");
}
