use code_insights::insight::{quantify_insight, Insight};
use code_insights::report::{
    add_insights_to_output, classify_row, data_row_paths, extract_path, AugmentError, RowKind,
};
use code_insights::text::{dec_string, join_lines, pad_field, split_lines};

#[test]
fn line_matching_two_patterns_counted_once() {
    let insight = Insight::new("Both", vec!["aaa", "bbb"]).unwrap();
    let data = Some("aaa bbb\nbbb\nzzz".to_string());
    assert_eq!(quantify_insight(&data, &insight), 2);
}

#[test]
fn count_is_per_line_over_all_patterns() {
    let insight = Insight::new("Logs", vec![r".*logger\.[A-Z]+.*", r".*LOGGER\.[a-z]+.*"]).unwrap();
    let data = Some(
        "import x\nlogger.INFO('a')\nLOGGER.warn('b')\nplain\nlogger.ERROR('c')".to_string(),
    );
    assert_eq!(quantify_insight(&data, &insight), 3);
}

#[test]
fn unreadable_file_counts_zero() {
    let insight = Insight::new("Logs", vec!["x"]).unwrap();
    assert_eq!(quantify_insight(&None, &insight), 0);
}

#[test]
fn invalid_pattern_rejects_group() {
    assert!(Insight::new("Bad", vec!["("]).is_none());
    assert!(Insight::new("Bad", vec!["fine", "(unclosed"]).is_none());
}

#[test]
fn group_keeps_name_and_patterns() {
    let insight = Insight::new("Logs", vec!["a", "b"]).unwrap();
    assert_eq!(insight.display_name(), "Logs");
    assert_eq!(insight.patterns().len(), 2);
    assert_eq!(insight.patterns()[0], "a");
    assert_eq!(insight.patterns()[1], "b");
}

#[test]
fn classify_rows() {
    assert_eq!(classify_row(1, "anything at all", "src"), RowKind::Header);
    assert_eq!(classify_row(2, " src/x.py  1  2", "src"), RowKind::Data);
    assert_eq!(
        classify_row(0, "===============", "src"),
        RowKind::Separator { equals: true, dashes: false }
    );
    assert_eq!(
        classify_row(3, "---------------", "src"),
        RowKind::Separator { equals: false, dashes: true }
    );
    assert_eq!(
        classify_row(3, "=========== ------------", "src"),
        RowKind::Separator { equals: true, dashes: true }
    );
    assert_eq!(classify_row(3, "Total", "src"), RowKind::Other);
    assert_eq!(classify_row(0, " src/x.py  1", "src"), RowKind::Data);
}

#[test]
fn extract_path_strips_leading_space() {
    assert_eq!(extract_path(" src/app.py    120"), Some("src/app.py".to_string()));
    assert_eq!(extract_path(" src/only"), Some("src/only".to_string()));
    assert_eq!(extract_path("  bad  1"), None);
}

#[test]
fn data_row_paths_in_row_order() {
    let report = "Title\nheader\n src/a.py  1  2\n src/b.py  3  4\nTotal";
    let paths = data_row_paths(&Some(report.to_string()), "src").unwrap();
    assert_eq!(paths, vec!["src/a.py".to_string(), "src/b.py".to_string()]);
}

#[test]
fn data_row_paths_empty_for_unreadable_report() {
    let paths = data_row_paths(&None, "src").unwrap();
    assert!(paths.is_empty());
}

#[test]
fn data_row_paths_malformed_row() {
    let r = data_row_paths(&Some("Title\nheader\n  x  1".to_string()), "");
    assert_eq!(r, Err(AugmentError::MalformedDataRow));
}

#[test]
fn data_row_gains_count_field() {
    let insight = Insight::new("Logs", vec![r".*logger\.[A-Z]+.*"]).unwrap();
    let report = "Title\n  File  Lines\n src/app.py    120    80    30    10\nTotal";
    let file_text = "import logging\nlogger.INFO('a')\nlogger.WARN('b')\nx = 1\nlogger.ERROR('c')";
    let files = vec![Some(file_text.to_string())];
    let out = add_insights_to_output(&Some(report.to_string()), "src", &vec![insight], &files)
        .unwrap()
        .unwrap();
    let lines: Vec<&str> = out.split('\n').collect();
    assert!(lines[2].ends_with("            3"));
    assert_eq!(lines[2], " src/app.py    120    80    30    10            3");
}

#[test]
fn header_row_gains_name_field() {
    let insight = Insight::new("Logs", vec![r".*logger\.[A-Z]+.*"]).unwrap();
    let report = "Title\n  File        Lines   Code   Comments  Blanks";
    let out = add_insights_to_output(&Some(report.to_string()), "src", &vec![insight], &vec![])
        .unwrap()
        .unwrap();
    let lines: Vec<&str> = out.split('\n').collect();
    assert_eq!(lines[1], "  File        Lines   Code   Comments  Blanks         Logs");
}

#[test]
fn unreadable_report_is_a_noop() {
    let insight = Insight::new("Logs", vec!["x"]).unwrap();
    let r = add_insights_to_output(&None, "src", &vec![insight], &vec![]);
    assert_eq!(r, Ok(None));
}

#[test]
fn separator_rows_gain_matching_runs() {
    let report =
        "Title\nheader\n===============\n---------------\n=========== ------------\nplain row";
    let out = add_insights_to_output(&Some(report.to_string()), "src", &vec![], &vec![])
        .unwrap()
        .unwrap();
    let lines: Vec<&str> = out.split('\n').collect();
    assert_eq!(lines[2], format!("{}{}", "===============", "============="));
    assert_eq!(lines[3], format!("{}{}", "---------------", "-------------"));
    assert_eq!(
        lines[4],
        format!("{}{}{}", "=========== ------------", "=============", "-------------")
    );
    assert_eq!(lines[5], "plain row");
}

#[test]
fn augmenting_twice_preserves_rows_and_prefixes() {
    let report = "Title\n  File  Lines\n src/app.py    1\n==========\nTotal";
    let files = vec![Some("log\nno\nlog".to_string())];
    let insight = Insight::new("Logs", vec!["log"]).unwrap();
    let once = add_insights_to_output(&Some(report.to_string()), "src", &vec![insight], &files)
        .unwrap()
        .unwrap();
    let insight_again = Insight::new("Logs", vec!["log"]).unwrap();
    let twice = add_insights_to_output(&Some(once.clone()), "src", &vec![insight_again], &files)
        .unwrap()
        .unwrap();
    let rows_in = report.split('\n').count();
    let rows_once: Vec<&str> = once.split('\n').collect();
    let rows_twice: Vec<&str> = twice.split('\n').collect();
    assert_eq!(rows_once.len(), rows_in);
    assert_eq!(rows_twice.len(), rows_once.len());
    for (a, b) in rows_once.iter().zip(rows_twice.iter()) {
        assert!(b.starts_with(a));
    }
}

#[test]
fn malformed_data_row_is_fatal() {
    let insight = Insight::new("Logs", vec!["x"]).unwrap();
    let report = "Title\nheader\n  twospace  1  2";
    let r = add_insights_to_output(&Some(report.to_string()), "", &vec![insight], &vec![None]);
    assert_eq!(r, Err(AugmentError::MalformedDataRow));
}

#[test]
fn malformed_data_row_passes_when_no_insights() {
    let report = "Title\nheader\n  twospace  1  2";
    let out = add_insights_to_output(&Some(report.to_string()), "", &vec![], &vec![None])
        .unwrap()
        .unwrap();
    assert_eq!(out, report);
}

#[test]
fn two_insights_append_in_catalog_order() {
    let a = Insight::new("A", vec!["aaa"]).unwrap();
    let b = Insight::new("B", vec!["bbb"]).unwrap();
    let report = "T\nHdr\n src/f  1";
    let files = vec![Some("aaa\nbbb\nbbb".to_string())];
    let out = add_insights_to_output(&Some(report.to_string()), "src", &vec![a, b], &files)
        .unwrap()
        .unwrap();
    let lines: Vec<&str> = out.split('\n').collect();
    assert_eq!(lines[2], " src/f  1            1            2");
}

#[test]
fn long_name_distorts_alignment_without_truncation() {
    let insight = Insight::new("AVeryLongInsightName", vec!["x"]).unwrap();
    let report = "T\nheader";
    let out = add_insights_to_output(&Some(report.to_string()), "src", &vec![insight], &vec![])
        .unwrap()
        .unwrap();
    let lines: Vec<&str> = out.split('\n').collect();
    assert_eq!(lines[1], "headerAVeryLongInsightName");
}

#[test]
fn single_line_report_is_unchanged() {
    let insight = Insight::new("L", vec!["x"]).unwrap();
    let out = add_insights_to_output(
        &Some("just a title".to_string()),
        "src",
        &vec![insight],
        &vec![],
    )
    .unwrap()
    .unwrap();
    assert_eq!(out, "just a title");
}

#[test]
fn pad_and_decimal_rendering() {
    assert_eq!(pad_field("3"), "            3");
    assert_eq!(pad_field("Logs"), "         Logs");
    assert_eq!(pad_field("0123456789012"), "0123456789012");
    assert_eq!(pad_field("0123456789012x"), "0123456789012x");
    assert_eq!(dec_string(0), "0");
    assert_eq!(dec_string(120), "120");
    assert_eq!(dec_string(1000000), "1000000");
}

#[test]
fn split_and_join_lines_round_trip() {
    let v = split_lines("a\nb\n");
    assert_eq!(v, vec!["a".to_string(), "b".to_string(), "".to_string()]);
    assert_eq!(join_lines(&v), "a\nb\n");
    assert_eq!(split_lines(""), vec!["".to_string()]);
    assert_eq!(join_lines(&split_lines("x")), "x");
}
