use tinyutils::ls::{
    format_entry, list_entries, parse_args, permission_string, run, sort_entries, FileEntry,
    LsError, LsOptions, Target,
};

fn file(name: &str) -> FileEntry {
    FileEntry::new(name.to_string(), false, 10, 1_700_000_000, 0o644)
}

fn dir(name: &str) -> FileEntry {
    FileEntry::new(name.to_string(), true, 4096, 1_600_000_000, 0o755)
}

fn names(v: &[FileEntry]) -> Vec<String> {
    v.iter().map(|e| e.name.clone()).collect()
}

fn strings(v: &[&str]) -> Vec<String> {
    v.iter().map(|s| s.to_string()).collect()
}

#[test]
fn entries_sorted_by_name_whatever_the_read_order() {
    let a = sort_entries(vec![file("c"), file("a"), dir("B"), file("ab"), file(".x")]);
    let b = sort_entries(vec![file("ab"), file(".x"), file("a"), file("c"), dir("B")]);
    assert_eq!(names(&a), strings(&[".x", "B", "a", "ab", "c"]));
    assert_eq!(names(&a), names(&b));
}

#[test]
fn hidden_entries_left_out_by_default() {
    let entries = vec![file("a.txt"), file(".git")];
    let lines = run(Target::Directory(entries), &LsOptions::default()).unwrap();
    assert_eq!(lines, strings(&["a.txt"]));
}

#[test]
fn hidden_entries_shown_in_order() {
    let entries = vec![file("a.txt"), file(".git")];
    let options = LsOptions { show_hidden: true, long_format: false };
    let lines = run(Target::Directory(entries), &options).unwrap();
    assert_eq!(lines, strings(&[".git", "a.txt"]));
}

#[test]
fn permission_strings() {
    assert_eq!(permission_string(0o755, false), "-rwxr-xr-x");
    assert_eq!(permission_string(0o755, true), "drwxr-xr-x");
    assert_eq!(permission_string(0o100644, false), "-rw-r--r--");
    assert_eq!(permission_string(0, false), "----------");
    assert_eq!(permission_string(0o777, true), "drwxrwxrwx");
}

#[test]
fn missing_path_is_not_found() {
    let r = run(Target::Missing, &LsOptions { show_hidden: true, long_format: true });
    assert_eq!(r, Err(LsError::NotFound));
    assert_eq!(LsError::NotFound.message(), "Path does not exist");
}

#[test]
fn unreadable_path_fails_with_its_error() {
    let r = run(Target::Unreadable("Permission denied".to_string()), &LsOptions::default());
    assert_eq!(r, Err(LsError::Io("Permission denied".to_string())));
    assert_eq!(r.unwrap_err().message(), "Permission denied");
}

#[test]
fn file_lists_its_name_alone() {
    let options = LsOptions { show_hidden: false, long_format: true };
    let r = run(Target::File(".hidden".to_string()), &options);
    assert_eq!(r, Ok(strings(&[".hidden"])));
}

#[test]
fn simple_format_marks_directories() {
    let options = LsOptions::default();
    assert_eq!(format_entry(&dir("src"), &options), "src/");
    assert_eq!(format_entry(&file("x"), &options), "x");
    let lines = list_entries(&vec![dir("d"), file("f")], &options);
    assert_eq!(lines, strings(&["d/", "f"]));
}

#[test]
fn long_format_line() {
    let options = LsOptions { show_hidden: false, long_format: true };
    assert_eq!(
        format_entry(&file("notes.txt"), &options),
        "-rw-r--r--       10   1700000000 notes.txt"
    );
    assert_eq!(
        format_entry(&dir("src"), &options),
        "drwxr-xr-x     4096   1600000000 src"
    );
    let big = FileEntry::new("b".to_string(), false, 123456789, 12, 0o600);
    assert_eq!(format_entry(&big, &options), "-rw------- 123456789           12 b");
}

#[test]
fn entry_accessors() {
    let e = FileEntry::new(".cfg".to_string(), true, 3, 4, 0o700);
    assert!(e.is_dir());
    assert!(e.is_hidden());
    assert_eq!(e.size(), 3);
    assert_eq!(e.modified_timestamp(), 4);
    assert_eq!(e.permissions(), 0o700);
    assert!(!file("a.b").is_hidden());
}

#[test]
fn ls_parse_args() {
    let r = parse_args(&strings(&["/tmp", "-l", "-ax"]));
    assert_eq!(r.path, "/tmp");
    assert!(r.options.long_format && r.options.show_hidden);
    let r = parse_args(&Vec::new());
    assert_eq!(r.path, ".");
    assert_eq!(r.options, LsOptions::default());
    let r = parse_args(&strings(&["-l"]));
    assert_eq!(r.path, "-l");
    assert!(r.options.long_format && !r.options.show_hidden);
}
