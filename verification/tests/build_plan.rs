use archie::config::{Action, Node, NodeKind, Template};

fn file(name: &str) -> Node {
    Node::new_file(name)
}

fn folder(name: &str, children: Option<Vec<Node>>) -> Node {
    Node {
        name: name.to_string(),
        kind: NodeKind::Folder(children),
    }
}

fn dirs_and_files(actions: &[Action]) -> (Vec<Vec<String>>, Vec<Vec<String>>) {
    let mut dirs = Vec::new();
    let mut files = Vec::new();
    for a in actions {
        match a {
            Action::CreateDir { path } => dirs.push(path.clone()),
            Action::CreateFile { path } => files.push(path.clone()),
        }
    }
    (dirs, files)
}

fn seg(parts: &[&str]) -> Vec<String> {
    parts.iter().map(|p| p.to_string()).collect()
}

#[test]
fn plan_is_preorder_parents_first() {
    let t = Template {
        name: "web".to_string(),
        structure: vec![folder("src", Some(vec![file("main")])), file("README")],
    };
    let actions = t.build(&Vec::new());
    assert_eq!(actions.len(), 3);
    assert!(matches!(&actions[0], Action::CreateDir { path } if *path == seg(&["src"])));
    assert!(matches!(&actions[1], Action::CreateFile { path } if *path == seg(&["src", "main"])));
    assert!(matches!(&actions[2], Action::CreateFile { path } if *path == seg(&["README"])));
}

#[test]
fn plan_paths_are_exactly_the_implied_paths() {
    let t = Template {
        name: "t".to_string(),
        structure: vec![
            folder(
                "a",
                Some(vec![folder("b", Some(vec![file("c")])), file("d")]),
            ),
            file("e"),
        ],
    };
    let (dirs, files) = dirs_and_files(&t.build(&Vec::new()));
    assert_eq!(dirs, vec![seg(&["a"]), seg(&["a", "b"])]);
    assert_eq!(
        files,
        vec![seg(&["a", "b", "c"]), seg(&["a", "d"]), seg(&["e"])]
    );
}

#[test]
fn plan_is_rooted_at_the_given_destination() {
    let t = Template {
        name: "t".to_string(),
        structure: vec![file("x")],
    };
    let actions = t.build(&seg(&["base"]));
    assert_eq!(actions.len(), 1);
    assert!(matches!(&actions[0], Action::CreateFile { path } if *path == seg(&["base", "x"])));
}

#[test]
fn unexpanded_and_empty_folders_become_one_directory() {
    let t = Template {
        name: "t".to_string(),
        structure: vec![folder("a", None), folder("b", Some(Vec::new()))],
    };
    let (dirs, files) = dirs_and_files(&t.build(&Vec::new()));
    assert_eq!(dirs, vec![seg(&["a"]), seg(&["b"])]);
    assert_eq!(files, Vec::<Vec<String>>::new());
}

#[test]
fn empty_template_plans_nothing() {
    let t = Template::new_with_name("t");
    assert_eq!(t.build(&Vec::new()).len(), 0);
}

#[test]
fn node_build_appends_to_the_given_plan() {
    let mut out = Vec::new();
    file("x").build(&Vec::new(), &mut out);
    folder("d", Some(vec![file("y")])).build(&Vec::new(), &mut out);
    let (dirs, files) = dirs_and_files(&out);
    assert_eq!(dirs, vec![seg(&["d"])]);
    assert_eq!(files, vec![seg(&["x"]), seg(&["d", "y"])]);
}
