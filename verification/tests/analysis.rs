use file_insights::analyzer::TextAnalyzer;
use file_insights::freq::normalize_word;
use file_insights::summary::{FileSummary, FileType};
use std::path::Path;

fn stat(s: &FileSummary, key: &str) -> String {
    s.statistic(key).expect("statistic should be present")
}

#[test]
fn test_basic_text_analysis() {
    let content = "Hello world! This is a test file with some words.".to_string();
    let analyzer = TextAnalyzer::new(content);
    let summary = analyzer.analyze_text();

    assert_eq!(summary.word_count, 10);
    assert_eq!(summary.line_count, 1);
}

#[test]
fn test_markdown_detection() {
    let content =
        "# Header\n\nSome content with [link](url) and ![image](img.jpg)\n\n```code```".to_string();
    let analyzer = TextAnalyzer::new(content);
    let summary = analyzer.analyze_markdown();
    assert_eq!(summary.file_type, FileType::Markdown);
    assert!(summary.has_statistic("headers"));
    assert!(summary.has_statistic("links"));
}

#[test]
fn test_file_type_detection() {
    assert_eq!(
        FileType::from_extension(Path::new("test.txt").extension().and_then(|s| s.to_str())),
        FileType::Text
    );
    assert_eq!(
        FileType::from_extension(Path::new("README.md").extension().and_then(|s| s.to_str())),
        FileType::Markdown
    );
    assert_eq!(
        FileType::from_extension(Path::new("app.log").extension().and_then(|s| s.to_str())),
        FileType::Log
    );
    assert_eq!(
        FileType::from_extension(Path::new("main.rs").extension().and_then(|s| s.to_str())),
        FileType::RustCode
    );
}

#[test]
fn classification_is_total() {
    assert_eq!(FileType::from_extension(None), FileType::Unknown);
    assert_eq!(FileType::from_extension(Some("")), FileType::Unknown);
    assert_eq!(FileType::from_extension(Some("TXT")), FileType::Unknown);
    assert_eq!(FileType::from_extension(Some("json")), FileType::Unknown);
    assert_eq!(FileType::from_extension(Some("txt")), FileType::Text);
    assert_eq!(FileType::from_extension(Some("md")), FileType::Markdown);
    assert_eq!(FileType::from_extension(Some("log")), FileType::Log);
    assert_eq!(FileType::from_extension(Some("rs")), FileType::RustCode);
}

#[test]
fn markdown_scenario_counts() {
    let content =
        "# Header\n\nSome content with [link](url) and ![image](img.jpg)\n\n```code```".to_string();
    let analyzer = TextAnalyzer::new(content);
    let summary = analyzer.analyze_markdown();
    assert_eq!(stat(&summary, "headers"), "1");
    assert_eq!(stat(&summary, "links"), "2");
    assert_eq!(stat(&summary, "images"), "1");
    assert_eq!(stat(&summary, "code_blocks"), "0");
    assert_eq!(summary.key_insights, vec!["Document structure: H1: Header".to_string()]);
}

#[test]
fn markdown_code_block_pairs() {
    let analyzer = TextAnalyzer::new("```\ncode here\n```\ntext\n```".to_string());
    let summary = analyzer.analyze_markdown();
    assert_eq!(stat(&summary, "code_blocks"), "1");
    assert_eq!(stat(&summary, "headers"), "0");
}

#[test]
fn log_scenario_severities() {
    let content = "ERROR something failed\nINFO ok".to_string();
    let analyzer = TextAnalyzer::new(content);
    let summary = analyzer.analyze_log();
    assert_eq!(summary.file_type, FileType::Log);
    assert_eq!(
        summary.key_insights,
        vec![
            "Log levels: ERROR: 1, INFO: 1".to_string(),
            "Sample errors found: 1 total".to_string(),
            "  1: ERROR something failed".to_string(),
        ]
    );
    assert_eq!(stat(&summary, "unique_timestamps"), "0");
}

#[test]
fn log_lowercase_severities_count() {
    let analyzer = TextAnalyzer::new("all fine until one error crept in\ndebug chatter".to_string());
    let summary = analyzer.analyze_log();
    assert_eq!(
        summary.key_insights[0],
        "Log levels: ERROR: 1, DEBUG: 1".to_string()
    );
}

#[test]
fn log_time_range_and_unique_timestamps() {
    let content = "2024-01-01 service started\n2024-01-02 service stopped\n2024-01-02 noise again"
        .to_string();
    let analyzer = TextAnalyzer::new(content);
    let summary = analyzer.analyze_log();
    assert_eq!(
        summary.key_insights,
        vec!["Time range: 2024-01-01 to 2024-01-02".to_string()]
    );
    assert_eq!(stat(&summary, "unique_timestamps"), "2");
}

#[test]
fn log_error_line_truncation() {
    let long_line = format!("ERROR {}", "x".repeat(144));
    assert_eq!(long_line.chars().count(), 150);
    let analyzer = TextAnalyzer::new(long_line);
    let summary = analyzer.analyze_log();
    let expected_item = format!("  1: ERROR {}...", "x".repeat(94));
    assert_eq!(summary.key_insights[2], expected_item);
    assert_eq!(summary.key_insights[1], "Sample errors found: 1 total".to_string());
}

#[test]
fn rust_scenario_symbols() {
    let content = "fn foo() {}\nstruct Bar;\n// note\nTODO fix".to_string();
    let analyzer = TextAnalyzer::new(content);
    let summary = analyzer.analyze_rust_code();
    assert_eq!(summary.file_type, FileType::RustCode);
    assert_eq!(stat(&summary, "functions"), "1");
    assert_eq!(stat(&summary, "structs"), "1");
    assert_eq!(stat(&summary, "enums"), "0");
    assert_eq!(stat(&summary, "imports"), "0");
    assert_eq!(stat(&summary, "comment_ratio"), "25.0%");
    assert_eq!(summary.key_insights[0], "Functions (1): foo".to_string());
    assert_eq!(summary.key_insights[1], "Structs: Bar;".to_string());
    assert_eq!(summary.key_insights[2], "TODOs/FIXMEs found: 1".to_string());
}

#[test]
fn rust_enums_imports_and_ratio_rounding() {
    let content = "use std::fmt;\nenum Kind { A }\n// a comment\nlet x = 1;\nlet y = 2;\nlet z = 3;"
        .to_string();
    let analyzer = TextAnalyzer::new(content);
    let summary = analyzer.analyze_rust_code();
    assert_eq!(stat(&summary, "imports"), "1");
    assert_eq!(stat(&summary, "enums"), "1");
    // 1 comment over 6 lines: 16.666... rendered half-up to one decimal
    assert_eq!(stat(&summary, "comment_ratio"), "16.7%");
    assert_eq!(summary.key_insights, vec!["Enums: Kind".to_string()]);
}

#[test]
fn rust_mid_line_fn_and_missing_paren() {
    let content = "pub fn alpha() {}\nfn beta\nimpl X { fn gamma(&self) {} }".to_string();
    let analyzer = TextAnalyzer::new(content);
    let summary = analyzer.analyze_rust_code();
    // "fn beta" has no '(' and is skipped silently
    assert_eq!(stat(&summary, "functions"), "2");
    assert_eq!(summary.key_insights[0], "Functions (2): alpha, gamma".to_string());
}

#[test]
fn plain_empty_content() {
    let analyzer = TextAnalyzer::new(String::new());
    let summary = analyzer.analyze_text();
    assert_eq!(summary.line_count, 0);
    assert_eq!(summary.word_count, 0);
    assert_eq!(summary.char_count, 0);
    assert!(summary.key_insights.is_empty());
    assert_eq!(stat(&summary, "avg_word_length"), "0.0");
    assert_eq!(stat(&summary, "avg_line_length"), "0.0");
}

#[test]
fn line_splitting_edges() {
    assert_eq!(TextAnalyzer::new("\n".to_string()).analyze_text().line_count, 1);
    assert_eq!(TextAnalyzer::new("x\n".to_string()).analyze_text().line_count, 1);
    assert_eq!(TextAnalyzer::new("a\r\nb\nc".to_string()).analyze_text().line_count, 3);
    assert_eq!(TextAnalyzer::new("a\nb\n\n".to_string()).analyze_text().line_count, 3);
}

#[test]
fn word_count_across_whitespace_kinds() {
    let analyzer = TextAnalyzer::new("a\tb\nc d   e".to_string());
    let summary = analyzer.analyze_text();
    assert_eq!(summary.word_count, 5);
}

#[test]
fn text_averages_exact() {
    let analyzer = TextAnalyzer::new("ab cd".to_string());
    let summary = analyzer.analyze_text();
    assert_eq!(stat(&summary, "avg_word_length"), "2.0");
    assert_eq!(stat(&summary, "avg_line_length"), "5.0");
}

#[test]
fn top_words_filter_and_format() {
    let analyzer = TextAnalyzer::new("the quick the lazy the".to_string());
    let summary = analyzer.analyze_text();
    // "the" is counted but only words longer than three characters surface
    assert_eq!(
        summary.key_insights,
        vec!["Most frequent words: quick (1), lazy (1)".to_string()]
    );
}

#[test]
fn word_frequency_order_and_ties() {
    let analyzer = TextAnalyzer::new("delta delta echo echo alpha".to_string());
    let freq = analyzer.get_word_frequency();
    assert_eq!(
        freq,
        vec![
            ("delta".to_string(), 2),
            ("echo".to_string(), 2),
            ("alpha".to_string(), 1),
        ]
    );
}

#[test]
fn word_frequency_case_folds() {
    let analyzer = TextAnalyzer::new("Wind wind WIND".to_string());
    let freq = analyzer.get_word_frequency();
    assert_eq!(freq, vec![("wind".to_string(), 3)]);
}

#[test]
fn word_frequency_discards_short_normal_forms() {
    let analyzer = TextAnalyzer::new("ab ab ab c4 d!".to_string());
    let freq = analyzer.get_word_frequency();
    assert!(freq.is_empty());
}

#[test]
fn normalization_examples() {
    assert_eq!(normalize_word("Hello, World!"), "helloworld");
    assert_eq!(normalize_word("helloworld"), "helloworld");
    assert_eq!(normalize_word("a1b2c3!"), "abc");
    assert_eq!(normalize_word(""), "");
}

#[test]
fn counts_invariant_across_analyzers() {
    let content = "# title\nERROR boom\nfn z() {}\nplain words here";
    let analyzer = TextAnalyzer::new(content.to_string());
    let t = analyzer.analyze_text();
    let m = analyzer.analyze_markdown();
    let l = analyzer.analyze_log();
    let c = analyzer.analyze_rust_code();
    for s in [&m, &l, &c] {
        assert_eq!(s.line_count, t.line_count);
        assert_eq!(s.word_count, t.word_count);
        assert_eq!(s.char_count, t.char_count);
    }
    assert_eq!(t.line_count, 4);
    assert_eq!(t.word_count, 10);
    assert_eq!(t.char_count, content.chars().count());
}

#[test]
fn statistics_lookup_misses() {
    let analyzer = TextAnalyzer::new("plain".to_string());
    let summary = analyzer.analyze_text();
    assert!(!summary.has_statistic("headers"));
    assert_eq!(summary.statistic("headers"), None);
}
