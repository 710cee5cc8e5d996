use launcher_lib::bin::{parse_desktop_file_for_bin, Bin};
use launcher_lib::errors::Errors;

const PATH: &str = "/usr/share/applications/app.desktop";

fn parse(contents: &str) -> Result<Bin, Errors> {
    parse_desktop_file_for_bin(PATH, contents)
}

#[test]
fn parses_name_and_exec() {
    let bin = parse("[Desktop Entry]\nType=Application\nName=Calculator\nExec=calc %u\n").unwrap();
    assert_eq!(bin.filepath(), PATH);
    assert_eq!(bin.name(), "Calculator");
    assert_eq!(bin.exec_cmd(), "calc");
}

#[test]
fn missing_section_is_reported() {
    let r = parse("Name=Calculator\nExec=calc\n");
    assert!(matches!(r, Err(Errors::MissingSection)));
}

#[test]
fn empty_file_has_no_section() {
    assert!(matches!(parse(""), Err(Errors::MissingSection)));
}

#[test]
fn other_section_only_is_missing_section() {
    let r = parse("[Desktop Action new]\nName=New\nExec=calc --new\n");
    assert!(matches!(r, Err(Errors::MissingSection)));
}

#[test]
fn missing_name_is_reported() {
    let r = parse("[Desktop Entry]\nExec=calc\n");
    assert!(matches!(r, Err(Errors::MissingName)));
}

#[test]
fn empty_name_is_reported() {
    let r = parse("[Desktop Entry]\nName=\nExec=calc\n");
    assert!(matches!(r, Err(Errors::MissingName)));
}

#[test]
fn missing_exec_is_reported() {
    let r = parse("[Desktop Entry]\nName=Calculator\n");
    assert!(matches!(r, Err(Errors::MissingExec)));
}

#[test]
fn exec_of_field_codes_only_is_reported() {
    let r = parse("[Desktop Entry]\nName=Calculator\nExec=%f %U\n");
    assert!(matches!(r, Err(Errors::MissingExec)));
}

#[test]
fn name_is_checked_before_exec() {
    let r = parse("[Desktop Entry]\nType=Application\n");
    assert!(matches!(r, Err(Errors::MissingName)));
}

#[test]
fn field_codes_are_stripped() {
    let bin = parse("[Desktop Entry]\nName=App\nExec=app %f --flag %U\n").unwrap();
    assert_eq!(bin.exec_cmd(), "app--flag");
    for token in bin.exec_cmd().split(' ') {
        assert_ne!(token, "%f");
        assert_ne!(token, "%U");
    }
}

#[test]
fn every_field_code_is_stripped() {
    let bin = parse(
        "[Desktop Entry]\nName=App\nExec=run %f %F %u %U %d %D %n %N %i %c %k %v %m\n",
    )
    .unwrap();
    assert_eq!(bin.exec_cmd(), "run");
}

#[test]
fn other_percent_tokens_are_kept() {
    let bin = parse("[Desktop Entry]\nName=App\nExec=app %x %% %ff\n").unwrap();
    assert_eq!(bin.exec_cmd(), "app%x%%%ff");
}

#[test]
fn spaces_collapse_when_tokens_are_joined() {
    let bin = parse("[Desktop Entry]\nName=App\nExec=sh  -c  app\n").unwrap();
    assert_eq!(bin.exec_cmd(), "sh-capp");
}

#[test]
fn first_name_wins() {
    let bin = parse("[Desktop Entry]\nName=First\nName=Second\nExec=app\n").unwrap();
    assert_eq!(bin.name(), "First");
}

#[test]
fn first_exec_wins() {
    let bin = parse("[Desktop Entry]\nExec=one\nName=App\nExec=two\n").unwrap();
    assert_eq!(bin.exec_cmd(), "one");
}

#[test]
fn block_ends_at_next_desktop_section() {
    let bin = parse(
        "[Desktop Entry]\nName=Browser\nExec=browser\n[Desktop Action private]\nName=Private\nExec=browser --private\n",
    )
    .unwrap();
    assert_eq!(bin.name(), "Browser");
    assert_eq!(bin.exec_cmd(), "browser");
}

#[test]
fn keys_after_the_block_are_ignored() {
    let r = parse("[Desktop Entry]\nName=Browser\n[Desktop Action private]\nExec=browser\n");
    assert!(matches!(r, Err(Errors::MissingExec)));
}

#[test]
fn keys_before_the_section_are_ignored() {
    let r = parse("Name=Early\nExec=early\n[Desktop Entry]\nName=Late\n");
    assert!(matches!(r, Err(Errors::MissingExec)));
}

#[test]
fn lines_before_the_section_are_skipped() {
    let bin = parse("# comment\n\n[Desktop Entry]\nName=App\nExec=app\n").unwrap();
    assert_eq!(bin.name(), "App");
}

#[test]
fn key_is_trimmed_and_value_kept() {
    let bin = parse("[Desktop Entry]\n  Name =  Spaced App\n\tExec\t=app\n").unwrap();
    assert_eq!(bin.name(), "  Spaced App");
    assert_eq!(bin.exec_cmd(), "app");
}

#[test]
fn value_keeps_later_equals_signs() {
    let bin = parse("[Desktop Entry]\nName=a=b\nExec=env X=1 app\n").unwrap();
    assert_eq!(bin.name(), "a=b");
    assert_eq!(bin.exec_cmd(), "envX=1app");
}

#[test]
fn other_keys_do_not_match() {
    let r = parse("[Desktop Entry]\nName[de]=Rechner\nGenericName=Calc\nExec=calc\n");
    assert!(matches!(r, Err(Errors::MissingName)));
}

#[test]
fn last_line_without_newline_is_read() {
    let bin = parse("[Desktop Entry]\nName=App\nExec=app").unwrap();
    assert_eq!(bin.exec_cmd(), "app");
}

#[test]
fn non_ascii_text_is_kept() {
    let bin = parse("[Desktop Entry]\nName=Rechner für Zahlen\nExec=rechner\n").unwrap();
    assert_eq!(bin.name(), "Rechner für Zahlen");
}

#[test]
fn header_inside_a_line_opens_the_block() {
    assert!(matches!(parse("x[Desktop Entry]"), Err(Errors::MissingName)));
    assert!(matches!(parse("x[Desktop Entry]Name=a"), Err(Errors::MissingExec)));
    let bin = parse("x[Desktop Entry]Name=a\nExec=b").unwrap();
    assert_eq!(bin.name(), "a");
    assert_eq!(bin.exec_cmd(), "b");
}

#[test]
fn header_after_byte_order_mark_is_found() {
    let bin = parse("\u{feff}[Desktop Entry]\nName=Calculator\nExec=calc\n").unwrap();
    assert_eq!(bin.name(), "Calculator");
}

#[test]
fn indented_header_is_found() {
    let bin = parse("  [Desktop Entry]\nName=Calculator\nExec=calc\n").unwrap();
    assert_eq!(bin.exec_cmd(), "calc");
}

#[test]
fn first_header_occurrence_starts_the_block() {
    let r = parse("[Desktop Entry]\nName=One\n[Desktop Entry]\nExec=two\n");
    assert!(matches!(r, Err(Errors::MissingExec)));
}

#[test]
fn empty_name_without_exec_is_missing_exec() {
    let r = parse("[Desktop Entry]\nName=\n");
    assert!(matches!(r, Err(Errors::MissingExec)));
}

#[test]
fn empty_name_with_field_code_exec_is_missing_name() {
    let r = parse("[Desktop Entry]\nName=\nExec=%f\n");
    assert!(matches!(r, Err(Errors::MissingName)));
}
