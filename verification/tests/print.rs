use archie::config::parse::from_buf_reader;
use archie::config::{Node, NodeKind, Template};

fn doc(lines: &[&str]) -> Vec<Option<String>> {
    lines.iter().map(|l| Some(l.to_string())).collect()
}

#[test]
fn prints_the_assembled_tree() {
    let config = from_buf_reader(doc(&["[web]", "src/", "  main", "README"])).unwrap();
    let lines = config.templates[0].print();
    assert_eq!(lines, vec!["├── src", "│   └── main", "└── README"]);
}

#[test]
fn printing_twice_gives_identical_output() {
    let config = from_buf_reader(doc(&["[web]", "src/", "  main", "README"])).unwrap();
    let first = config.templates[0].print();
    let second = config.templates[0].print();
    assert_eq!(first, second);
}

fn file(name: &str) -> Node {
    Node::new_file(name)
}

fn folder(name: &str, children: Option<Vec<Node>>) -> Node {
    Node {
        name: name.to_string(),
        kind: NodeKind::Folder(children),
    }
}

#[test]
fn last_child_gets_the_corner_glyph() {
    let t = Template {
        name: "t".to_string(),
        structure: vec![file("a"), file("b")],
    };
    assert_eq!(t.print(), vec!["├── a", "└── b"]);
}

#[test]
fn bar_continues_under_open_siblings() {
    let t = Template {
        name: "t".to_string(),
        structure: vec![
            folder("a", Some(vec![file("x"), file("y")])),
            file("b"),
        ],
    };
    assert_eq!(
        t.print(),
        vec!["├── a", "│   ├── x", "│   └── y", "└── b"]
    );
}

#[test]
fn deep_nesting_blanks_closed_columns() {
    let t = Template {
        name: "t".to_string(),
        structure: vec![folder(
            "a",
            Some(vec![folder("b", Some(vec![file("c")]))]),
        )],
    };
    assert_eq!(t.print(), vec!["└── a", "    └── b", "        └── c"]);
}

#[test]
fn empty_template_prints_nothing() {
    let t = Template::new_with_name("t");
    assert_eq!(t.print(), Vec::<String>::new());
}

#[test]
fn unexpanded_folder_prints_only_itself() {
    let t = Template {
        name: "t".to_string(),
        structure: vec![folder("a", None), folder("b", Some(Vec::new()))],
    };
    assert_eq!(t.print(), vec!["├── a", "└── b"]);
}

#[test]
fn node_print_lists_what_hangs_below() {
    let n = folder("a", Some(vec![file("x"), folder("d", Some(vec![file("z")]))]));
    assert_eq!(n.print(), vec!["├── x", "└── d", "    └── z"]);
    assert_eq!(file("plain").print(), Vec::<String>::new());
}
