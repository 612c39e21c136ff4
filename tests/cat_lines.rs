use tinyutils::cat::{
    format_line, is_blank_line, parse_args, process_line, render_lines, run, CatOptions, Input,
    Line,
};

fn strings(v: &[&str]) -> Vec<String> {
    v.iter().map(|s| s.to_string()).collect()
}

fn read(v: &[&str]) -> Input {
    Input::Read { lines: strings(v), failure: None }
}

fn stdout_of(out: &[Line]) -> Vec<String> {
    out.iter()
        .filter_map(|l| match l {
            Line::Stdout(s) => Some(s.clone()),
            Line::Stderr(_) => None,
        })
        .collect()
}

fn stderr_of(out: &[Line]) -> Vec<String> {
    out.iter()
        .filter_map(|l| match l {
            Line::Stderr(s) => Some(s.clone()),
            Line::Stdout(_) => None,
        })
        .collect()
}

#[test]
fn plain_cat_reproduces_lines() {
    let lines = strings(&["a", "", "  \tx y", "\t", "$^I", "naïve ☃"]);
    let out = render_lines(&lines, &CatOptions::default());
    assert_eq!(out, lines);
}

#[test]
fn number_lines_counts_every_line() {
    let options = CatOptions { number_lines: true, ..CatOptions::default() };
    let out = render_lines(&strings(&["a", "b", "c"]), &options);
    assert_eq!(out, strings(&["     1\ta", "     2\tb", "     3\tc"]));
}

#[test]
fn number_nonblank_skips_blank_lines() {
    let options = CatOptions { number_nonblank_lines: true, ..CatOptions::default() };
    let out = render_lines(&strings(&["a", "", "b"]), &options);
    assert_eq!(out, strings(&["     1\ta", "", "     2\tb"]));
}

#[test]
fn number_nonblank_treats_white_space_as_blank() {
    let options = CatOptions { number_nonblank_lines: true, ..CatOptions::default() };
    let out = render_lines(&strings(&["  \t", "x", "\u{3000}"]), &options);
    assert_eq!(out, strings(&["  \t", "     1\tx", "\u{3000}"]));
}

#[test]
fn show_ends_marks_line_end() {
    let options = CatOptions { show_ends: true, ..CatOptions::default() };
    assert_eq!(render_lines(&strings(&["x"]), &options), strings(&["x$"]));
}

#[test]
fn show_ends_and_tabs_together() {
    let options = CatOptions { show_ends: true, show_tabs: true, ..CatOptions::default() };
    assert_eq!(render_lines(&strings(&["a\tb"]), &options), strings(&["a^Ib$"]));
}

#[test]
fn tabs_in_number_prefix_are_kept() {
    let options = CatOptions { number_lines: true, show_tabs: true, ..CatOptions::default() };
    assert_eq!(format_line("\tz", Some(7), &options), "     7\t^Iz");
}

#[test]
fn wide_numbers_are_not_cut() {
    let options = CatOptions::default();
    assert_eq!(format_line("q", Some(1234567), &options), "1234567\tq");
    assert_eq!(format_line("q", None, &options), "q");
}

#[test]
fn process_line_moves_counter_only_when_numbered() {
    let options = CatOptions { number_nonblank_lines: true, ..CatOptions::default() };
    let mut n: usize = 4;
    assert_eq!(process_line(" ", &mut n, &options), " ");
    assert_eq!(n, 4);
    assert_eq!(process_line("w", &mut n, &options), "     4\tw");
    assert_eq!(n, 5);
    let plain = CatOptions::default();
    assert_eq!(process_line("w", &mut n, &plain), "w");
    assert_eq!(n, 5);
}

#[test]
fn blank_lines_are_white_space_only() {
    assert!(is_blank_line(""));
    assert!(is_blank_line(" \t\r\u{a0}"));
    assert!(!is_blank_line(" a "));
}

#[test]
fn nonblank_flag_after_number_flag_clears_it() {
    let mut o = CatOptions::default();
    assert!(o.apply_flag('n'));
    assert!(o.number_lines);
    assert!(o.apply_flag('b'));
    assert!(!o.number_lines);
    assert!(o.number_nonblank_lines);
    assert!(!o.apply_flag('q'));
    assert!(o.number_nonblank_lines && !o.number_lines);
}

#[test]
fn parse_args_reads_flags_and_paths() {
    let r = parse_args(&strings(&["-nA", "one", "-", "-xbz", "two"]));
    assert!(!r.options.number_lines);
    assert!(r.options.number_nonblank_lines);
    assert!(r.options.show_ends && r.options.show_tabs);
    assert!(!r.options.squeeze_blank);
    assert_eq!(r.files, strings(&["one", "-", "two"]));
    assert_eq!(r.invalid, vec!['x', 'z']);
}

#[test]
fn parse_args_squeeze_flag_is_stored() {
    let r = parse_args(&strings(&["-s"]));
    assert!(r.options.squeeze_blank);
    assert!(r.files.is_empty() && r.invalid.is_empty());
}

#[test]
fn missing_file_among_valid_files() {
    let files = strings(&["a.txt", "gone.txt", "b.txt", "c.txt"]);
    let inputs = vec![read(&["a1", "a2"]), Input::Missing, read(&["b1"]), read(&["c1"])];
    let out = run(&files, &inputs, &CatOptions::default());
    assert_eq!(stdout_of(&out.output), strings(&["a1", "a2", "b1", "c1"]));
    assert_eq!(stderr_of(&out.output), strings(&["cat: gone.txt: No such file or directory"]));
    assert!(out.error.is_none());
    assert!(matches!(&out.output[2], Line::Stderr(_)));
}

#[test]
fn numbering_restarts_for_each_file() {
    let files = strings(&["a", "b"]);
    let inputs = vec![read(&["x", "y"]), read(&["z"])];
    let options = CatOptions { number_lines: true, ..CatOptions::default() };
    let out = run(&files, &inputs, &options);
    assert_eq!(stdout_of(&out.output), strings(&["     1\tx", "     2\ty", "     1\tz"]));
}

#[test]
fn read_failure_reports_after_lines_read() {
    let files = strings(&["f"]);
    let inputs = vec![Input::Read {
        lines: strings(&["ok"]),
        failure: Some("stream did not contain valid UTF-8".to_string()),
    }];
    let out = run(&files, &inputs, &CatOptions::default());
    assert_eq!(out.output.len(), 2);
    assert_eq!(stdout_of(&out.output), strings(&["ok"]));
    assert_eq!(stderr_of(&out.output), strings(&["cat: f: stream did not contain valid UTF-8"]));
    assert!(out.error.is_none());
}

#[test]
fn stdin_is_the_input_without_files() {
    let options = CatOptions { show_ends: true, ..CatOptions::default() };
    let out = run(&Vec::new(), &vec![read(&["in"])], &options);
    assert_eq!(stdout_of(&out.output), strings(&["in$"]));
    assert!(out.error.is_none());
}

#[test]
fn stdin_failure_ends_the_run_with_its_error() {
    let inputs = vec![Input::Read { lines: strings(&["a"]), failure: Some("broken".to_string()) }];
    let out = run(&Vec::new(), &inputs, &CatOptions::default());
    assert_eq!(stdout_of(&out.output), strings(&["a"]));
    assert_eq!(out.error, Some("broken".to_string()));
}

#[test]
fn one_missing_of_three_files() {
    let files = strings(&["first", "nowhere", "third"]);
    let inputs = vec![read(&["1a", "1b"]), Input::Missing, read(&["3a"])];
    let out = run(&files, &inputs, &CatOptions::default());
    assert_eq!(stdout_of(&out.output), strings(&["1a", "1b", "3a"]));
    assert_eq!(stderr_of(&out.output), strings(&["cat: nowhere: No such file or directory"]));
    assert!(out.error.is_none());
}
