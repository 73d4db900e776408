use archie::config::parse::line::{ConfigLine, ConfigLineKind, LineErrorKind};

#[test]
fn classifies_file_line() {
    let cl = ConfigLine::classify("README").unwrap();
    assert_eq!(cl.indent, 0);
    assert_eq!(cl.identifier, "README");
    assert_eq!(cl.kind, ConfigLineKind::File);
}

#[test]
fn classifies_folder_line() {
    let cl = ConfigLine::classify("src/").unwrap();
    assert_eq!(cl.indent, 0);
    assert_eq!(cl.identifier, "src");
    assert_eq!(cl.kind, ConfigLineKind::Folder);
}

#[test]
fn classifies_header_line() {
    let cl = ConfigLine::classify("[web]").unwrap();
    assert_eq!(cl.indent, 0);
    assert_eq!(cl.identifier, "web");
    assert_eq!(cl.kind, ConfigLineKind::Header);
}

#[test]
fn two_spaces_are_one_level() {
    let cl = ConfigLine::classify("  main").unwrap();
    assert_eq!(cl.indent, 1);
    assert_eq!(cl.identifier, "main");
    assert_eq!(cl.kind, ConfigLineKind::File);
    let cl = ConfigLine::classify("    deep/").unwrap();
    assert_eq!(cl.indent, 2);
    assert_eq!(cl.identifier, "deep");
    assert_eq!(cl.kind, ConfigLineKind::Folder);
}

#[test]
fn blank_line_is_empty() {
    let cl = ConfigLine::classify("").unwrap();
    assert_eq!(cl.kind, ConfigLineKind::Empty);
    assert_eq!(cl.indent, 0);
    assert_eq!(cl.identifier, "");
    let cl = ConfigLine::classify("   \t ").unwrap();
    assert_eq!(cl.kind, ConfigLineKind::Empty);
}

#[test]
fn empty_constructor_matches_blank() {
    let e = ConfigLine::empty();
    assert_eq!(e.indent, 0);
    assert_eq!(e.identifier, "");
    assert_eq!(e.kind, ConfigLineKind::Empty);
}

#[test]
fn tab_indentation_is_rejected() {
    assert_eq!(
        ConfigLine::classify("\tmain").unwrap_err(),
        LineErrorKind::WrongIndentation
    );
    assert_eq!(
        ConfigLine::classify(" \tmain").unwrap_err(),
        LineErrorKind::WrongIndentation
    );
}

#[test]
fn unclosed_header_is_rejected() {
    assert_eq!(
        ConfigLine::classify("[web").unwrap_err(),
        LineErrorKind::NoClosingHeader
    );
}

#[test]
fn slash_in_header_makes_a_folder() {
    let cl = ConfigLine::classify("[ab/cd]").unwrap();
    assert_eq!(cl.kind, ConfigLineKind::Folder);
    assert_eq!(cl.identifier, "ab");
}

#[test]
fn scanning_stops_at_first_slash() {
    let cl = ConfigLine::classify("src/main").unwrap();
    assert_eq!(cl.kind, ConfigLineKind::Folder);
    assert_eq!(cl.identifier, "src");
}

#[test]
fn text_after_closing_bracket_is_ignored() {
    let cl = ConfigLine::classify("[web] extra").unwrap();
    assert_eq!(cl.kind, ConfigLineKind::Header);
    assert_eq!(cl.identifier, "web");
}

#[test]
fn odd_indentation_rounds_down() {
    let cl = ConfigLine::classify("   x").unwrap();
    assert_eq!(cl.indent, 1);
    assert_eq!(cl.identifier, "x");
}
