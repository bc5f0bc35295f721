use grep_lite::args::GrepArgs;
use grep_lite::content::{first_cut_line, match_content, match_first_lines};
use grep_lite::output::{render_all_results, render_colored_results, render_prefix, render_result};
use grep_lite::pattern::{CompiledPattern, PatternError};

fn compiled(pattern_text: &str) -> CompiledPattern {
    CompiledPattern::parse(pattern_text).unwrap()
}

fn grep_args(print_file_name: bool, only_matching: bool, color_mode: bool) -> GrepArgs {
    GrepArgs {
        pattern_text: String::new(),
        file_paths: vec![],
        print_file_name,
        only_matching,
        color_mode,
    }
}

#[test]
fn prefix_names_the_file_when_asked() {
    let mut out = Vec::new();
    render_prefix("f.txt", true, &mut out);
    assert_eq!(out, b"f.txt:".to_vec());
    let mut out = Vec::new();
    render_prefix("f.txt", false, &mut out);
    assert_eq!(out, b"".to_vec());
}

#[test]
fn matching_line_is_written_whole() {
    let mut out = b"x".to_vec();
    assert_eq!(render_result("hello", &compiled("ll"), "f", true, &mut out), Ok(true));
    assert_eq!(out, b"xf:hello\n".to_vec());
    let mut out = b"x".to_vec();
    assert_eq!(render_result("hello", &compiled("z"), "f", true, &mut out), Ok(false));
    assert_eq!(out, b"x".to_vec());
}

#[test]
fn colored_line_highlights_each_match() {
    let mut out = Vec::new();
    assert_eq!(render_colored_results("banana", &compiled("an"), "", false, &mut out), Ok(true));
    assert_eq!(out, b"b\x1b[01;31man\x1b[m\x1b[01;31man\x1b[ma\n".to_vec());
}

#[test]
fn colored_line_with_only_an_empty_match_is_written_plain() {
    let mut out = Vec::new();
    assert_eq!(render_colored_results("abc", &compiled("$"), "f", true, &mut out), Ok(true));
    assert_eq!(out, b"f:abc\n".to_vec());
    let mut out = Vec::new();
    assert_eq!(render_colored_results("abc", &compiled("x"), "f", true, &mut out), Ok(false));
    assert_eq!(out, b"".to_vec());
}

#[test]
fn only_matching_writes_each_match_on_its_line() {
    let mut out = Vec::new();
    assert_eq!(render_all_results("banana", &compiled("an"), "f", true, false, &mut out), Ok(true));
    assert_eq!(out, b"f:an\nf:an\n".to_vec());
    let mut out = Vec::new();
    assert_eq!(render_all_results("banana", &compiled("an"), "f", false, true, &mut out), Ok(true));
    assert_eq!(out, b"\x1b[01;31man\x1b[m\n\x1b[01;31man\x1b[m\n".to_vec());
    let mut out = Vec::new();
    assert_eq!(render_all_results("abc", &compiled("$"), "f", true, false, &mut out), Ok(true));
    assert_eq!(out, b"".to_vec());
}

#[test]
fn render_errors_leave_output_alone() {
    let mut out = b"keep".to_vec();
    assert_eq!(
        render_result("abc", &compiled("a\\1"), "f", false, &mut out),
        Err(PatternError::InvalidBackreference(1))
    );
    assert_eq!(
        render_colored_results("abc", &compiled("a\\1"), "f", false, &mut out),
        Err(PatternError::InvalidBackreference(1))
    );
    assert_eq!(
        render_all_results("abc", &compiled("a\\1"), "f", false, false, &mut out),
        Err(PatternError::InvalidBackreference(1))
    );
    assert_eq!(out, b"keep".to_vec());
}

#[test]
fn content_is_searched_line_by_line() {
    let (out, res) = match_content("ab\r\ncd\nab", &compiled("b"), &grep_args(false, false, false), "f");
    assert_eq!(res, Ok(true));
    assert_eq!(out, b"ab\nab\n".to_vec());
}

#[test]
fn content_keeps_a_bare_carriage_return_at_the_end() {
    let (out, res) = match_content("x\nya\r", &compiled("a"), &grep_args(true, false, false), "in");
    assert_eq!(res, Ok(true));
    assert_eq!(out, b"in:ya\r\n".to_vec());
}

#[test]
fn content_without_a_match() {
    let (out, res) = match_content("x\ny\n", &compiled("a"), &grep_args(false, false, false), "f");
    assert_eq!(res, Ok(false));
    assert_eq!(out, b"".to_vec());
    let (out, res) = match_content("", &compiled("$"), &grep_args(false, false, false), "f");
    assert_eq!(res, Ok(false));
    assert_eq!(out, b"".to_vec());
}

#[test]
fn content_empty_lines_are_lines() {
    let (out, res) = match_content("a\n\nb\n", &compiled("^$"), &grep_args(false, false, false), "f");
    assert_eq!(res, Ok(true));
    assert_eq!(out, b"\n".to_vec());
}

#[test]
fn content_modes() {
    let (out, res) = match_content("banana\nxyz\n", &compiled("an"), &grep_args(true, true, false), "f");
    assert_eq!(res, Ok(true));
    assert_eq!(out, b"f:an\nf:an\n".to_vec());
    let (out, res) = match_content("banana\nxyz\n", &compiled("an"), &grep_args(false, false, true), "f");
    assert_eq!(res, Ok(true));
    assert_eq!(out, b"b\x1b[01;31man\x1b[m\x1b[01;31man\x1b[ma\n".to_vec());
}

#[test]
fn content_stops_at_the_first_failing_line() {
    let (out, res) = match_content("b\na\nb", &compiled("(b|a\\2)"), &grep_args(false, false, false), "f");
    assert_eq!(res, Err(PatternError::InvalidBackreference(2)));
    assert_eq!(out, b"b\n".to_vec());
}

#[test]
fn empty_matches_count_in_every_mode() {
    let (out, res) = match_content("abc\n", &compiled("$"), &grep_args(false, true, false), "f");
    assert_eq!(res, Ok(true));
    assert_eq!(out, b"".to_vec());
    let (out, res) = match_content("abc\n", &compiled("$"), &grep_args(false, false, true), "f");
    assert_eq!(res, Ok(true));
    assert_eq!(out, b"abc\n".to_vec());
}

#[test]
fn first_cut_line_finds_a_match_inside_a_character() {
    let args = grep_args(false, true, false);
    assert_eq!(first_cut_line("x\n\u{e9}\n", &compiled("."), &args), Some((1, 0, 1)));
    assert_eq!(first_cut_line("x\ny\n", &compiled("."), &args), None);
    assert_eq!(first_cut_line("x\n\u{e9}\n", &compiled("."), &grep_args(false, false, false)), None);
    let (out, res) = match_first_lines("x\n\u{e9}\n", &compiled("."), &args, "f", 1);
    assert_eq!(res, Ok(true));
    assert_eq!(out, b"x\n".to_vec());
}

#[test]
fn lines_after_a_failing_line_are_not_reached() {
    let args = grep_args(false, true, false);
    let content = "b\n\u{e9}";
    assert_eq!(first_cut_line(content, &compiled("(b\\2|.)"), &args), None);
    let (out, res) = match_content(content, &compiled("(b\\2|.)"), &args, "f");
    assert_eq!(res, Err(PatternError::InvalidBackreference(2)));
    assert_eq!(out, b"".to_vec());
}

#[test]
fn first_lines_stop_at_the_count() {
    let (out, res) = match_first_lines("ab\nab\nab\n", &compiled("b"), &grep_args(false, false, false), "f", 2);
    assert_eq!(res, Ok(true));
    assert_eq!(out, b"ab\nab\n".to_vec());
    let (out, res) = match_first_lines("ab\n", &compiled("b"), &grep_args(false, false, false), "f", 0);
    assert_eq!(res, Ok(false));
    assert_eq!(out, b"".to_vec());
}
