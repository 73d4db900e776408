use archie::config::parse::from_buf_reader;
use archie::config::parse::line::LineErrorKind;
use archie::config::{Node, NodeKind, Template, TemplateData, TemplateEntry};

fn doc(lines: &[&str]) -> Vec<Option<String>> {
    lines.iter().map(|l| Some(l.to_string())).collect()
}

fn node_names(nodes: &[Node]) -> Vec<String> {
    nodes.iter().map(|n| n.name.clone()).collect()
}

#[test]
fn assembles_one_template() {
    let config = from_buf_reader(doc(&["[web]", "src/", "  main", "README"])).unwrap();
    assert_eq!(config.templates.len(), 1);
    let t = &config.templates[0];
    assert_eq!(t.name(), "web");
    assert_eq!(node_names(&t.structure), vec!["src", "README"]);
    match &t.structure[0].kind {
        NodeKind::Folder(Some(children)) => {
            assert_eq!(node_names(children), vec!["main"]);
            assert!(matches!(children[0].kind, NodeKind::File));
        }
        other => panic!("src should be an expanded folder, got {:?}", other),
    }
    assert!(matches!(t.structure[1].kind, NodeKind::File));
    assert!(config.favorite.is_none());
}

#[test]
fn blank_line_separates_templates() {
    let config = from_buf_reader(doc(&["[a]", "x", "", "[b]", "y"])).unwrap();
    assert_eq!(config.templates.len(), 2);
    assert_eq!(config.templates[0].name(), "a");
    assert_eq!(node_names(&config.templates[0].structure), vec!["x"]);
    assert_eq!(config.templates[1].name(), "b");
    assert_eq!(node_names(&config.templates[1].structure), vec!["y"]);
}

#[test]
fn empty_input_gives_empty_registry() {
    let config = from_buf_reader(Vec::new()).unwrap();
    assert_eq!(config.templates.len(), 0);
}

#[test]
fn childless_folder_stays_unexpanded() {
    let config = from_buf_reader(doc(&["[t]", "empty/"])).unwrap();
    let t = &config.templates[0];
    assert!(matches!(t.structure[0].kind, NodeKind::Folder(None)));
}

#[test]
fn header_inside_open_template_is_an_error() {
    let errs = from_buf_reader(doc(&["[a]", "[b]"])).unwrap_err();
    assert_eq!(errs.len(), 1);
    assert_eq!(errs[0].kind, LineErrorKind::HeaderInTemplate);
    assert_eq!(errs[0].line_number, 1);
}

#[test]
fn node_before_any_header_is_an_error() {
    let errs = from_buf_reader(doc(&["stray", "[a]", "x"])).unwrap_err();
    assert_eq!(errs.len(), 1);
    assert_eq!(errs[0].kind, LineErrorKind::MissingHeader);
    assert_eq!(errs[0].line_number, 0);
}

#[test]
fn indent_jump_is_an_error() {
    let errs = from_buf_reader(doc(&["[a]", "top", "    deep"])).unwrap_err();
    assert_eq!(errs.len(), 1);
    assert_eq!(errs[0].kind, LineErrorKind::IndentJumpTooLarge);
    assert_eq!(errs[0].line_number, 2);
}

#[test]
fn duplicate_sibling_name_is_an_error() {
    let errs = from_buf_reader(doc(&["[a]", "x", "x"])).unwrap_err();
    assert_eq!(errs.len(), 1);
    assert_eq!(errs[0].kind, LineErrorKind::DuplicateSiblingName);
    assert_eq!(errs[0].line_number, 2);
}

#[test]
fn same_name_under_different_parents_is_fine() {
    let config = from_buf_reader(doc(&["[a]", "x/", "  y", "z/", "  y"])).unwrap();
    assert_eq!(config.templates.len(), 1);
}

#[test]
fn child_under_a_file_is_a_jump() {
    let errs = from_buf_reader(doc(&["[a]", "plain", "  under"])).unwrap_err();
    assert_eq!(errs.len(), 1);
    assert_eq!(errs[0].kind, LineErrorKind::IndentJumpTooLarge);
    assert_eq!(errs[0].line_number, 2);
}

#[test]
fn trailing_template_closes_at_end_of_input() {
    let config = from_buf_reader(doc(&["[a]", "deep/", "  deeper/", "    leaf"])).unwrap();
    let t = &config.templates[0];
    match &t.structure[0].kind {
        NodeKind::Folder(Some(level1)) => match &level1[0].kind {
            NodeKind::Folder(Some(level2)) => {
                assert_eq!(node_names(level2), vec!["leaf"]);
            }
            other => panic!("deeper should be an expanded folder, got {:?}", other),
        },
        other => panic!("deep should be an expanded folder, got {:?}", other),
    }
}

#[test]
fn sibling_after_nested_children_returns_to_its_level() {
    let config = from_buf_reader(doc(&["[a]", "x/", "  y/", "    z", "w"])).unwrap();
    let t = &config.templates[0];
    assert_eq!(node_names(&t.structure), vec!["x", "w"]);
}

#[test]
fn unreadable_line_reports_io() {
    let errs = from_buf_reader(vec![Some("[a]".to_string()), None]).unwrap_err();
    assert_eq!(errs.len(), 1);
    assert_eq!(errs[0].kind, LineErrorKind::IO);
    assert_eq!(errs[0].line_number, 1);
}

#[test]
fn all_line_errors_are_collected() {
    let errs = from_buf_reader(doc(&["[bad", "\tx"])).unwrap_err();
    assert_eq!(errs.len(), 2);
    assert_eq!(errs[0].kind, LineErrorKind::NoClosingHeader);
    assert_eq!(errs[1].kind, LineErrorKind::WrongIndentation);
}

fn entry(name: &str, data: Option<TemplateData>) -> TemplateEntry {
    TemplateEntry {
        name: name.to_string(),
        data,
    }
}

#[test]
fn mapping_grammar_assembles() {
    let data = TemplateData {
        structure: vec![
            entry(
                "src/",
                Some(TemplateData {
                    structure: vec![entry("main", None)],
                }),
            ),
            entry("README", None),
        ],
    };
    let t = Template::from_template_data("web", &data).unwrap();
    assert_eq!(t.name(), "web");
    assert_eq!(node_names(&t.structure), vec!["src", "README"]);
    match &t.structure[0].kind {
        NodeKind::Folder(Some(children)) => assert_eq!(node_names(children), vec!["main"]),
        other => panic!("src should be an expanded folder, got {:?}", other),
    }
}

#[test]
fn file_with_children_fails_mapping_assembly() {
    let data = TemplateData {
        structure: vec![entry(
            "plain-file",
            Some(TemplateData {
                structure: vec![entry("child", None)],
            }),
        )],
    };
    let errs = Template::from_template_data("t", &data).unwrap_err();
    assert_eq!(errs, vec![LineErrorKind::FileWithChildren]);
}

#[test]
fn duplicate_mapping_names_fail_assembly() {
    let data = TemplateData {
        structure: vec![entry("x", None), entry("x/", None)],
    };
    let errs = Template::from_template_data("t", &data).unwrap_err();
    assert_eq!(errs, vec![LineErrorKind::DuplicateSiblingName]);
}

#[test]
fn folder_with_null_children_maps_to_unexpanded() {
    let data = TemplateData {
        structure: vec![entry("d/", None)],
    };
    let t = Template::from_template_data("t", &data).unwrap();
    assert!(matches!(t.structure[0].kind, NodeKind::Folder(None)));
}
