use litecode::glob::{glob_output, GlobEntry};
use litecode::grep::{
    extend_rendered_lines, grep_plan, render_search_path, to_usize_line_number, window_bounds,
    GrepRenderedLine,
    GrepSearchResult,
};
use litecode::matchers::grep_matchers;
use litecode::schema::{GrepInput, GrepOutputMode};

fn lines_of(v: &[GrepRenderedLine]) -> Vec<String> {
    v.iter().map(|l| l.text.clone()).collect()
}

#[test]
fn grep_returns_matching_content() {
    let mut r = GrepSearchResult::new();
    r.record_sink_match("main.rs", 1, b"let needle = 1;\n", Some(2), true, true);
    let out = r.grep_output(GrepOutputMode::Content, 0, 0);
    assert_eq!(out.content.as_deref(), Some("main.rs:2:let needle = 1;"));
    assert_eq!(out.filenames, vec!["main.rs".to_string()]);
    assert_eq!(out.num_files, 1);
    assert_eq!(out.num_matches, Some(1));
}

#[test]
fn grep_counts_individual_matches_with_ripgrep() {
    let mut r = GrepSearchResult::new();
    r.record_sink_match("main.rs", 2, b"needle needle\n", Some(1), false, false);
    r.record_sink_match("main.rs", 1, b"needle\n", Some(2), false, false);
    let out = r.grep_output(GrepOutputMode::Count, 0, 0);
    assert_eq!(out.content.as_deref(), Some("main.rs:3"));
    assert_eq!(out.filenames, vec!["main.rs".to_string()]);
    assert_eq!(out.num_matches, Some(3));
}

#[test]
fn grep_supports_ripgrep_multiline_searches() {
    let mut r = GrepSearchResult::new();
    r.record_sink_match("main.rs", 1, b"foo\nbar\n", Some(2), true, true);
    let out = r.grep_output(GrepOutputMode::Content, 0, 0);
    let content = out.content.unwrap();
    assert!(content.contains("main.rs:2:foo"));
    assert!(content.contains("main.rs:3:bar"));
    assert_eq!(content, "main.rs:2:foo\nmain.rs:3:bar");
}

#[test]
fn grep_supports_single_file_paths() {
    let mut r = GrepSearchResult::new();
    r.record_sink_match("/work/main.rs", 1, b"let needle = 1;\n", Some(1), false, false);
    let out = r.grep_output(GrepOutputMode::FilesWithMatches, 0, 0);
    assert_eq!(out.filenames, vec!["/work/main.rs".to_string()]);
    assert_eq!(out.num_files, 1);
    assert_eq!(out.content, None);
}

#[test]
fn grep_files_are_kept_in_order_found_and_windowed() {
    let mut r = GrepSearchResult::new();
    r.record_match("b.rs", 1);
    r.record_match("a.rs", 2);
    r.record_match("b.rs", 3);
    r.record_match("c.rs", 1);
    let all = r.grep_output(GrepOutputMode::FilesWithMatches, 0, 0);
    assert_eq!(all.filenames, vec!["b.rs", "a.rs", "c.rs"]);
    assert_eq!(all.num_matches, Some(7));
    let window = r.grep_output(GrepOutputMode::FilesWithMatches, 1, 1);
    assert_eq!(window.filenames, vec!["a.rs"]);
    assert_eq!(window.num_files, 3);
    let counts = r.grep_output(GrepOutputMode::Count, 1, 0);
    assert_eq!(counts.content.as_deref(), Some("a.rs:2\nc.rs:1"));
    assert_eq!(counts.filenames, vec!["a.rs", "c.rs"]);
    let past = r.grep_output(GrepOutputMode::Count, 9, 0);
    assert_eq!(past.content.as_deref(), Some(""));
    assert_eq!(past.num_files, 3);
}

#[test]
fn grep_content_counts_files_before_the_window() {
    let mut r = GrepSearchResult::new();
    r.record_sink_match("a.rs", 1, b"one\n", Some(1), true, true);
    r.record_sink_match("b.rs", 1, b"two\n", Some(1), true, true);
    let out = r.grep_output(GrepOutputMode::Content, 0, 1);
    assert_eq!(out.filenames, vec!["a.rs".to_string()]);
    assert_eq!(out.num_files, 2);
    let files = r.grep_output(GrepOutputMode::FilesWithMatches, 0, 1);
    assert_eq!(files.filenames, vec!["a.rs".to_string()]);
    assert_eq!(files.num_files, 2);
}

#[test]
fn grep_count_names_stop_at_the_first_colon() {
    let mut r = GrepSearchResult::new();
    r.record_match("c:/x.rs", 4);
    let out = r.grep_output(GrepOutputMode::Count, 0, 0);
    assert_eq!(out.content.as_deref(), Some("c:/x.rs:4"));
    assert_eq!(out.filenames, vec!["c"]);
}

#[test]
fn grep_content_files_are_sorted_and_unique() {
    let mut r = GrepSearchResult::new();
    r.record_sink_match("z.rs", 1, b"a\n", Some(1), true, true);
    r.record_sink_match("b.rs", 1, b"b\n", Some(5), true, true);
    r.record_context("z.rs", b"ctx\n", Some(2), true);
    let out = r.grep_output(GrepOutputMode::Content, 0, 0);
    assert_eq!(out.filenames, vec!["b.rs", "z.rs"]);
    assert_eq!(out.content.as_deref(), Some("z.rs:1:a\nb.rs:5:b\nz.rs:2:ctx"));
    let first = r.grep_output(GrepOutputMode::Content, 0, 1);
    assert_eq!(first.filenames, vec!["z.rs"]);
    assert_eq!(first.num_matches, Some(2));
}

#[test]
fn rendered_lines_skip_empty_segments() {
    let mut v = Vec::new();
    extend_rendered_lines(&mut v, "p", "a\n\nb", None, true);
    assert_eq!(lines_of(&v), vec!["p:1:a", "p:2:b"]);
    extend_rendered_lines(&mut v, "p", "c\n", Some(7), false);
    assert_eq!(lines_of(&v), vec!["p:1:a", "p:2:b", "p:c"]);
    assert_eq!(to_usize_line_number(Some(5)), Some(5));
    assert_eq!(to_usize_line_number(None), None);
}

#[test]
fn grep_plan_follows_the_mode() {
    let mut input = GrepInput::default();
    input.output_mode = GrepOutputMode::Content;
    input.context = Some(2);
    input.after = Some(5);
    let plan = grep_plan(&input);
    assert_eq!((plan.before, plan.after), (2, 5));
    assert!(plan.include_line_numbers && plan.collect_content);
    input.output_mode = GrepOutputMode::Count;
    let plan = grep_plan(&input);
    assert_eq!((plan.before, plan.after), (0, 0));
    assert!(!plan.include_line_numbers && !plan.collect_content);
    input.output_mode = GrepOutputMode::Content;
    input.context = None;
    input.context_alias = Some(3);
    input.line_numbers = Some(false);
    let plan = grep_plan(&input);
    assert_eq!((plan.before, plan.after), (3, 5));
    assert!(!plan.include_line_numbers);
}

#[test]
fn full_window_keeps_everything() {
    assert_eq!(window_bounds(4, 0, 0), (0, 4));
    assert_eq!(window_bounds(4, 1, 2), (1, 3));
    assert_eq!(window_bounds(4, 9, 2), (4, 4));
}

#[test]
fn glob_returns_matching_files() {
    let out = glob_output(vec![
        GlobEntry { path: "/w/src/lib.rs".to_string(), modified: Some(5) },
        GlobEntry { path: "/w/src/main.rs".to_string(), modified: Some(9) },
    ]);
    assert_eq!(out.num_files, 2);
    assert_eq!(out.filenames, vec!["/w/src/main.rs", "/w/src/lib.rs"]);
}

#[test]
fn glob_orders_by_time_then_name_and_keeps_one_hundred() {
    let mut entries = vec![
        GlobEntry { path: "b".to_string(), modified: None },
        GlobEntry { path: "a".to_string(), modified: None },
        GlobEntry { path: "c".to_string(), modified: Some(-3) },
    ];
    for i in 0..120 {
        entries.push(GlobEntry { path: format!("f{i:03}"), modified: Some(1) });
    }
    let out = glob_output(entries);
    assert_eq!(out.num_files, 123);
    assert_eq!(out.filenames.len(), 100);
    assert_eq!(out.filenames[0], "f000");
    assert_eq!(out.filenames[99], "f099");
    let small = glob_output(vec![
        GlobEntry { path: "b".to_string(), modified: None },
        GlobEntry { path: "a".to_string(), modified: None },
        GlobEntry { path: "c".to_string(), modified: Some(-3) },
    ]);
    assert_eq!(small.filenames, vec!["c", "a", "b"]);
}

#[test]
fn search_paths_are_shown_relative_to_the_target() {
    assert_eq!(render_search_path("/w", false, "/w/src/main.rs"), "src/main.rs");
    assert_eq!(render_search_path("/w/", false, "/w/./a.rs"), "a.rs");
    assert_eq!(render_search_path("/w/main.rs", true, "/w/main.rs"), "/w/main.rs");
    assert_eq!(render_search_path("/x", false, "/w/a.rs"), "/w/a.rs");
    assert_eq!(render_search_path("/w", false, "/w/a//b.rs"), "a//b.rs");
}

fn grep_input(pattern: &str, glob: Option<&str>, file_type: Option<&str>) -> GrepInput {
    GrepInput {
        pattern: pattern.to_string(),
        path: None,
        glob: glob.map(|g| g.to_string()),
        output_mode: GrepOutputMode::FilesWithMatches,
        before: None,
        after: None,
        context_alias: None,
        context: None,
        line_numbers: None,
        case_insensitive: None,
        file_type: file_type.map(|t| t.to_string()),
        head_limit: None,
        offset: None,
        multiline: false,
    }
}

#[test]
fn grep_matchers_refuse_bad_patterns_globs_and_types() {
    let ok = grep_input("needle", Some("*.rs"), Some("rust"));
    let plan = grep_plan(&ok);
    let (_, overrides, types) = grep_matchers(&ok, &plan, "/work").unwrap();
    assert!(overrides.is_some());
    assert!(types.is_some());
    let bad_regex = grep_input("(", None, None);
    let err = grep_matchers(&bad_regex, &grep_plan(&bad_regex), "/work").unwrap_err();
    assert!(matches!(err, litecode::error::LiteCodeError::InvalidInput(_)));
    let bad_type = grep_input("x", None, Some("no-such-type"));
    let err = grep_matchers(&bad_type, &grep_plan(&bad_type), "/work").unwrap_err();
    assert!(matches!(err, litecode::error::LiteCodeError::InvalidInput(_)));
    let both = grep_input("(", Some("*.rs"), Some("no-such-type"));
    let first = grep_matchers(&both, &grep_plan(&both), "/work").unwrap_err().message();
    let regex_only = grep_matchers(&bad_regex, &grep_plan(&bad_regex), "/work").unwrap_err().message();
    assert_eq!(first, regex_only);
}
