use archie::cli::runner::{RunPlan, Runner};
use archie::cli::{get_runner, Cli, Commands};
use archie::config::parse::from_buf_reader;
use archie::config::{Action, Config};
use archie::error::{Error, Exit};

fn doc(lines: &[&str]) -> Vec<Option<String>> {
    lines.iter().map(|l| Some(l.to_string())).collect()
}

fn registry() -> Config {
    from_buf_reader(doc(&["[web]", "src/", "  main", "README", "", "[lib]", "src/"])).unwrap()
}

fn build_cli(path: &str, template: Option<&str>, name: Option<&str>) -> Cli {
    Cli {
        command: Commands::Build {
            path: path.to_string(),
            template: template.map(|s| s.to_string()),
            name: name.map(|s| s.to_string()),
        },
        config: None,
    }
}

#[test]
fn list_names_every_template() {
    let cli = Cli {
        command: Commands::List,
        config: None,
    };
    let runner = get_runner(&cli, registry());
    match runner.run(false, false).unwrap() {
        RunPlan::List { names } => assert_eq!(names, vec!["web", "lib"]),
        other => panic!("expected a listing, got {:?}", other),
    }
}

#[test]
fn info_shows_the_tree() {
    let cli = Cli {
        command: Commands::Info {
            template: "web".to_string(),
        },
        config: None,
    };
    let runner = Runner::new(&cli, registry());
    match runner.run(false, false).unwrap() {
        RunPlan::Info { lines } => {
            assert_eq!(lines, vec!["├── src", "│   └── main", "└── README"])
        }
        other => panic!("expected a diagram, got {:?}", other),
    }
}

#[test]
fn info_of_unknown_template_fails() {
    let cli = Cli {
        command: Commands::Info {
            template: "nope".to_string(),
        },
        config: None,
    };
    let runner = Runner::new(&cli, registry());
    match runner.run(false, false).unwrap_err() {
        Error::TemplateNotFound(n) => assert_eq!(n, "nope"),
        other => panic!("expected a lookup failure, got {:?}", other),
    }
}

#[test]
fn build_plans_root_folder_then_template() {
    let cli = build_cli("/tmp/dest", Some("web"), None);
    let runner = Runner::new(&cli, registry());
    match runner.run(true, false).unwrap() {
        RunPlan::Build { actions } => {
            assert_eq!(actions.len(), 4);
            assert!(
                matches!(&actions[0], Action::CreateDir { path } if *path == vec!["web".to_string()])
            );
            assert!(matches!(&actions[1], Action::CreateDir { path }
                if *path == vec!["web".to_string(), "src".to_string()]));
            assert!(matches!(&actions[2], Action::CreateFile { path }
                if *path == vec!["web".to_string(), "src".to_string(), "main".to_string()]));
            assert!(matches!(&actions[3], Action::CreateFile { path }
                if *path == vec!["web".to_string(), "README".to_string()]));
        }
        other => panic!("expected a build plan, got {:?}", other),
    }
}

#[test]
fn build_honors_the_root_name_option() {
    let cli = build_cli("/tmp/dest", Some("lib"), Some("mylib"));
    let runner = Runner::new(&cli, registry());
    match runner.run(true, false).unwrap() {
        RunPlan::Build { actions } => {
            assert!(
                matches!(&actions[0], Action::CreateDir { path } if *path == vec!["mylib".to_string()])
            );
        }
        other => panic!("expected a build plan, got {:?}", other),
    }
}

#[test]
fn build_into_occupied_root_fails_and_plans_nothing() {
    let cli = build_cli("/tmp/dest", Some("web"), None);
    let runner = Runner::new(&cli, registry());
    match runner.run(true, true) {
        Err(Error::RootFolderExistent(p)) => assert_eq!(p, "/tmp/dest/web"),
        other => panic!("expected the occupied-root failure, got {:?}", other),
    }
}

#[test]
fn build_needs_an_existing_destination() {
    let cli = build_cli("/tmp/nowhere", Some("web"), None);
    let runner = Runner::new(&cli, registry());
    match runner.run(false, false) {
        Err(Error::PathNotExistent(p)) => assert_eq!(p, "/tmp/nowhere"),
        other => panic!("expected the missing-path failure, got {:?}", other),
    }
}

#[test]
fn build_of_unknown_template_fails() {
    let cli = build_cli("/tmp/dest", Some("nope"), None);
    let runner = Runner::new(&cli, registry());
    match runner.run(true, false) {
        Err(Error::TemplateNotFound(n)) => assert_eq!(n, "nope"),
        other => panic!("expected a lookup failure, got {:?}", other),
    }
}

#[test]
fn build_without_template_falls_back_to_favorite() {
    let mut config = registry();
    config.favorite = Some("lib".to_string());
    let cli = build_cli("/tmp/dest", None, None);
    let runner = Runner::new(&cli, config);
    match runner.run(true, false).unwrap() {
        RunPlan::Build { actions } => {
            assert!(
                matches!(&actions[0], Action::CreateDir { path } if *path == vec!["lib".to_string()])
            );
        }
        other => panic!("expected a build plan, got {:?}", other),
    }
}

#[test]
fn build_without_template_or_favorite_fails() {
    let cli = build_cli("/tmp/dest", None, None);
    let runner = Runner::new(&cli, registry());
    match runner.run(true, false) {
        Err(Error::TemplateNotFound(n)) => assert_eq!(n, ""),
        other => panic!("expected a lookup failure, got {:?}", other),
    }
}

#[test]
fn registry_lookup_and_favorite() {
    let config = registry();
    assert!(config.template_by_name("web").is_some());
    assert!(config.template_by_name("nope").is_none());
    assert_eq!(config.templates().len(), 2);
    assert!(config.favorite().is_none());
}

#[test]
fn exit_reflects_the_run_outcome() {
    let clean: Exit = Ok(()).into();
    assert!(clean.is_ok());
    let failed: Exit = Err(Error::Dummy).into();
    assert!(!failed.is_ok());
    assert!(matches!(failed, Exit::Failure(Error::Dummy)));
}
