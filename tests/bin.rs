use launcher_lib::bin::{bins_from_files, Bin};
use launcher_lib::errors::Errors;

fn file(path: &str, contents: &str) -> (String, String) {
    (path.to_string(), contents.to_string())
}

#[test]
fn new_keeps_its_fields() {
    let bin = Bin::new("/a/b.desktop", "B", "b --run");
    assert_eq!(bin.filepath(), "/a/b.desktop");
    assert_eq!(bin.name(), "B");
    assert_eq!(bin.exec_cmd(), "b --run");
}

#[test]
fn from_only_filepath_names_by_last_segment() {
    let bin = Bin::from_only_filepath("/usr/bin/firefox");
    assert_eq!(bin.filepath(), "/usr/bin/firefox");
    assert_eq!(bin.name(), "firefox");
    assert_eq!(bin.exec_cmd(), "/usr/bin/firefox");
}

#[test]
fn from_only_filepath_without_slash() {
    let bin = Bin::from_only_filepath("firefox");
    assert_eq!(bin.name(), "firefox");
}

#[test]
fn from_only_filepath_with_trailing_slash() {
    let bin = Bin::from_only_filepath("/usr/bin/");
    assert_eq!(bin.name(), "");
}

#[test]
fn bins_compare_by_all_fields() {
    assert_eq!(Bin::new("p", "n", "e"), Bin::new("p", "n", "e"));
    assert_ne!(Bin::new("p", "n", "e"), Bin::new("q", "n", "e"));
    assert_ne!(Bin::new("p", "n", "e"), Bin::new("p", "m", "e"));
    assert_ne!(Bin::new("p", "n", "e"), Bin::new("p", "n", "f"));
}

#[test]
fn discovery_skips_malformed_files() {
    let files = vec![
        file("/apps/calc.desktop", "[Desktop Entry]\nName=Calculator\nExec=calc %u\n"),
        file("/apps/broken.desktop", "this is not a descriptor\n"),
    ];
    let bins = bins_from_files(&files);
    assert_eq!(bins.len(), 1);
    assert_eq!(bins[0].filepath(), "/apps/calc.desktop");
    assert_eq!(bins[0].name(), "Calculator");
    assert_eq!(bins[0].exec_cmd(), "calc");
}

#[test]
fn discovery_keeps_file_order_and_duplicates() {
    let files = vec![
        file("/a/one.desktop", "[Desktop Entry]\nName=Same\nExec=one\n"),
        file("/a/none.desktop", "[Desktop Entry]\nExec=none\n"),
        file("/b/two.desktop", "[Desktop Entry]\nName=Same\nExec=two\n"),
    ];
    let bins = bins_from_files(&files);
    assert_eq!(bins.len(), 2);
    assert_eq!(bins[0], Bin::new("/a/one.desktop", "Same", "one"));
    assert_eq!(bins[1], Bin::new("/b/two.desktop", "Same", "two"));
}

#[test]
fn discovery_of_nothing_is_empty() {
    assert!(bins_from_files(&Vec::new()).is_empty());
}

#[test]
fn io_error_converts() {
    let e = Errors::from(std::io::Error::new(std::io::ErrorKind::NotFound, "gone"));
    assert!(matches!(e, Errors::IoError(ref inner) if inner.kind() == std::io::ErrorKind::NotFound));
}

#[test]
fn error_messages() {
    assert_eq!(Errors::MissingSection.message(), "No [Desktop Entry] section in .desktop file");
    assert_eq!(Errors::MissingName.message(), "Bad or no Name in .desktop file");
    assert_eq!(Errors::MissingExec.message(), "Bad or no Exec in .desktop file");
    assert_eq!(
        Errors::NotValidUtf8("/apps/\u{fffd}.desktop".to_string()).message(),
        "Path is not valid UTF-8: /apps/\u{fffd}.desktop"
    );
    let io = Errors::from(std::io::Error::new(std::io::ErrorKind::Other, "disk on fire"));
    assert_eq!(io.message(), "disk on fire");
}
