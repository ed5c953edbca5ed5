use projector::config::{Config, OpError, Operation, Opts};

fn resolve(opts: Opts) -> Result<Config, OpError> {
    Config::from_opts(opts, None, String::from("/"))
}

#[test]
fn print_all() {
    let opts: Config = resolve(Opts {
        args: vec![],
        pwd: None,
        config: None,
    })
    .unwrap();

    assert_eq!(opts.operation, Operation::Print(None));
}

#[test]
fn print_key() {
    let opts: Config = resolve(Opts {
        args: vec!["foo".to_string()],
        pwd: None,
        config: None,
    })
    .unwrap();

    assert_eq!(opts.operation, Operation::Print(Some("foo".to_string())));
}

#[test]
fn add_key_value() {
    let opts: Config = resolve(Opts {
        args: vec!["add".to_string(), "foo".to_string(), "bar".to_string()],
        pwd: None,
        config: None,
    })
    .unwrap();

    assert_eq!(
        opts.operation,
        Operation::Add("foo".to_string(), "bar".to_string())
    );
}

#[test]
fn rm_key() {
    let opts: Config = resolve(Opts {
        args: vec!["rm".to_string(), "foo".to_string()],
        pwd: None,
        config: None,
    })
    .unwrap();

    assert_eq!(opts.operation, Operation::Remove("foo".to_string()));
}

#[test]
fn add_wrong_arg_count() {
    let r = Operation::from_args(vec!["add".to_string(), "foo".to_string()]);
    assert_eq!(r, Err(OpError::AddArgs(1)));
    let r = Operation::from_args(vec![
        "add".to_string(),
        "a".to_string(),
        "b".to_string(),
        "c".to_string(),
    ]);
    assert_eq!(r, Err(OpError::AddArgs(3)));
}

#[test]
fn rm_wrong_arg_count() {
    let r = Operation::from_args(vec!["rm".to_string()]);
    assert_eq!(r, Err(OpError::RemoveArgs(0)));
}

#[test]
fn print_wrong_arg_count() {
    let r = Operation::from_args(vec!["foo".to_string(), "bar".to_string()]);
    assert_eq!(r, Err(OpError::PrintArgs(2)));
}

#[test]
fn default_config_location() {
    let c = Config::from_opts(
        Opts {
            args: vec![],
            pwd: None,
            config: None,
        },
        None,
        String::from("/home/me"),
    )
    .unwrap();
    assert_eq!(c.config, "/projector/projector.json".to_string());
    assert_eq!(c.pwd, "/home/me".to_string());
}

#[test]
fn config_location_from_environment() {
    let c = Config::from_opts(
        Opts {
            args: vec![],
            pwd: None,
            config: None,
        },
        Some(String::from("/home/me/.config")),
        String::from("/"),
    )
    .unwrap();
    assert_eq!(
        c.config,
        "/home/me/.config/projector/projector.json".to_string()
    );
}

#[test]
fn explicit_paths_win() {
    let c = Config::from_opts(
        Opts {
            args: vec![],
            pwd: Some(String::from("/work")),
            config: Some(String::from("/tmp/store.json")),
        },
        Some(String::from("/home/me/.config")),
        String::from("/elsewhere"),
    )
    .unwrap();
    assert_eq!(c.config, "/tmp/store.json".to_string());
    assert_eq!(c.pwd, "/work".to_string());
}
