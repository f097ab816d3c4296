use watchloop::config::{parse_args, resolve, Dsl, ParseError, Resolution};

fn strings(args: &[&str]) -> Vec<String> {
    args.iter().map(|s| s.to_string()).collect()
}

#[test]
fn test_parse_args() {
    let items = parse_args(strings(&["-w=src", "-i=tmp", "echo", "hi"])).unwrap();
    assert_eq!(items.len(), 3);
    assert!(matches!(&items[0], Dsl::Watch(w) if w == "src"));
    assert!(matches!(&items[1], Dsl::Ignore(g) if g == "tmp"));
    assert!(matches!(&items[2], Dsl::Command(c) if *c == strings(&["echo", "hi"])));
}

#[test]
fn parse_empty_args_yields_empty_command() {
    let items = parse_args(Vec::new()).unwrap();
    assert_eq!(items.len(), 1);
    assert!(matches!(&items[0], Dsl::Command(c) if c.is_empty()));
}

#[test]
fn parse_help_flag() {
    let items = parse_args(strings(&["-h"])).unwrap();
    assert_eq!(items.len(), 2);
    assert!(matches!(&items[0], Dsl::Help));
    assert!(matches!(&items[1], Dsl::Command(c) if c.is_empty()));

    let items = parse_args(strings(&["--help"])).unwrap();
    assert!(matches!(&items[0], Dsl::Help));
}

#[test]
fn parse_long_options() {
    let items = parse_args(strings(&["--watch=src", "--ignore=tmp", "make"])).unwrap();
    assert!(matches!(&items[0], Dsl::Watch(w) if w == "src"));
    assert!(matches!(&items[1], Dsl::Ignore(g) if g == "tmp"));
    assert!(matches!(&items[2], Dsl::Command(c) if *c == strings(&["make"])));
}

#[test]
fn parse_sticky_command() {
    // Once the command starts, even option-looking tokens belong to it.
    let items = parse_args(strings(&["echo", "-w=x", "-h", "--ignore=y"])).unwrap();
    assert_eq!(items.len(), 1);
    assert!(matches!(&items[0], Dsl::Command(c)
        if *c == strings(&["echo", "-w=x", "-h", "--ignore=y"])));
}

#[test]
fn parse_unknown_option_dropped() {
    let items = parse_args(strings(&["-x", "--verbose", "echo"])).unwrap();
    assert_eq!(items.len(), 1);
    assert!(matches!(&items[0], Dsl::Command(c) if *c == strings(&["echo"])));
}

#[test]
fn parse_value_keeps_later_equals() {
    // The value is everything after the option's `=`; a path may contain `=`.
    let items = parse_args(strings(&["-w=a=b", "run"])).unwrap();
    assert!(matches!(&items[0], Dsl::Watch(w) if w == "a=b"));
}

#[test]
fn parse_missing_watch_value() {
    let err = parse_args(strings(&["-w=", "echo"])).unwrap_err();
    let ParseError::MissingValue(t) = err;
    assert_eq!(t, "-w=");
}

#[test]
fn parse_missing_long_watch_value() {
    let err = parse_args(strings(&["--watch="])).unwrap_err();
    let ParseError::MissingValue(t) = err;
    assert_eq!(t, "--watch=");
}

#[test]
fn parse_missing_ignore_value() {
    let err = parse_args(strings(&["-i="])).unwrap_err();
    let ParseError::MissingValue(t) = err;
    assert_eq!(t, "-i=");
}

#[test]
fn parse_missing_long_ignore_value() {
    let err = parse_args(strings(&["--ignore="])).unwrap_err();
    let ParseError::MissingValue(t) = err;
    assert_eq!(t, "--ignore=");
}

#[test]
fn resolve_defaults_current_dir() {
    let items = parse_args(strings(&["echo", "hi"])).unwrap();
    match resolve(items) {
        Resolution::Run(cfg) => {
            assert_eq!(cfg.watches, strings(&["."]));
            assert_eq!(cfg.command, strings(&["echo", "hi"]));
        }
        _ => panic!("expected a runnable configuration"),
    }
}

#[test]
fn resolve_builtin_ignores_always_present() {
    let items = parse_args(strings(&["echo"])).unwrap();
    match resolve(items) {
        Resolution::Run(cfg) => {
            assert!(cfg.ignores.iter().any(|g| g == "node_modules"));
            assert!(cfg.ignores.iter().any(|g| g == "target"));
            assert!(cfg.ignores.iter().any(|g| g == ".git"));
        }
        _ => panic!("expected a runnable configuration"),
    }
}

#[test]
fn resolve_builtin_ignores_union() {
    // User-supplied patterns join the built-ins; they do not replace them.
    let items = parse_args(strings(&["-i=tmp", "echo"])).unwrap();
    match resolve(items) {
        Resolution::Run(cfg) => {
            assert!(cfg.ignores.iter().any(|g| g == "tmp"));
            assert!(cfg.ignores.iter().any(|g| g == "node_modules"));
            assert!(cfg.ignores.iter().any(|g| g == "target"));
            assert!(cfg.ignores.iter().any(|g| g == ".git"));
        }
        _ => panic!("expected a runnable configuration"),
    }
}

#[test]
fn resolve_watch_root_used() {
    let items = parse_args(strings(&["-w=src", "echo"])).unwrap();
    match resolve(items) {
        Resolution::Run(cfg) => {
            assert_eq!(cfg.watches, strings(&["src"]));
        }
        _ => panic!("expected a runnable configuration"),
    }
}

#[test]
fn resolve_dedups_watches() {
    let items = parse_args(strings(&["-w=src", "-w=src", "echo"])).unwrap();
    match resolve(items) {
        Resolution::Run(cfg) => {
            assert_eq!(cfg.watches, strings(&["src"]));
        }
        _ => panic!("expected a runnable configuration"),
    }
}

#[test]
fn resolve_missing_command() {
    let items = parse_args(strings(&["-w=src"])).unwrap();
    assert!(matches!(resolve(items), Resolution::MissingCommand));
}

#[test]
fn resolve_missing_command_no_args() {
    let items = parse_args(Vec::new()).unwrap();
    assert!(matches!(resolve(items), Resolution::MissingCommand));
}

#[test]
fn resolve_help_priority() {
    // A help flag wins even when a command is present.
    let items = parse_args(strings(&["-h", "echo", "hi"])).unwrap();
    assert!(matches!(resolve(items), Resolution::Help));
}
