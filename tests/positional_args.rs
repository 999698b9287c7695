use checkarg::{CheckArg, ValueType, RC};

#[test]
fn general_usage() {
    let argv = vec!["/test04", "-i", "input.bin", "--", "file1", "file2"];

    let mut ca = CheckArg::new("test04");
    ca.add('i', "input", "file to read from", ValueType::Required, None);

    let rc = ca.parse(&argv);

    assert!(matches!(rc, RC::Okay), "parsing failed");

    assert_eq!(ca.pos_args(), &vec!("file1".to_string(), "file2".to_string()));
}

#[test]
fn args_with_dashes() {
    // after a "--", these must be positional arguments, not options:
    // as options they would end the parse with RC::InvOpt
    let all = vec![
        "--file1", "file1", "-f", "-fg", "--file2", "file2", "-g", "-hi", "--file3", "file3", "-i",
        "-jk",
    ];

    let mut ca = CheckArg::new("test04");
    ca.add('i', "input", "file to read from", ValueType::Required, None);

    for a in 0..all.len() {
        for b in 0..all.len() {
            for c in 0..all.len() {
                if a == b || b == c || a == c {
                    continue;
                }
                let args = vec![all[a], all[b], all[c]];
                let argv = vec!["/test04", "-i", "input.bin", "--", args[0], args[1], args[2]];
                let ret = ca.parse(&argv);

                assert!(matches!(ret, RC::Okay), "parsing failed");
                assert_eq!(ca.pos_args(), &vec!(args[0], args[1], args[2]));
            }
        }
    }
}

#[test]
fn missing_value_before_double_dash() {
    // a "--" where a value is awaited is that value, not the separator,
    // so the "-j" that follows is an option
    let argv = vec!["/test04", "-i", "--", "file1", "-j", "file2"];

    let mut ca = CheckArg::new("test04");
    ca.add('i', "input", "file to read from", ValueType::Required, None);
    ca.add('j', "jay", "just a jay", ValueType::NoValue, None);

    let rc = ca.parse(&argv);

    assert!(matches!(rc, RC::Okay), "parsing failed");
    assert_eq!(ca.value("input").unwrap(), "--");
    assert!(ca.isset("jay"));

    assert_eq!(ca.pos_args(), &vec!("file1".to_string(), "file2".to_string()));
}

#[test]
fn separator_keeps_option_like_tokens() {
    let argv = vec!["/bin", "--", "-", "--", "-x", "--nope", "plain"];

    let mut ca = CheckArg::new("bin");
    ca.add('x', "ex", "an option", ValueType::NoValue, None);

    let rc = ca.parse(&argv);

    assert!(matches!(rc, RC::Okay));
    assert!(!ca.isset("ex"));
    assert_eq!(ca.pos_args(), &vec!["-", "--", "-x", "--nope", "plain"]);
}

#[test]
fn positional_before_and_after_options() {
    let argv = vec!["/bin", "first", "-x", "second"];

    let mut ca = CheckArg::new("bin");
    ca.add('x', "ex", "an option", ValueType::NoValue, None);

    let rc = ca.parse(&argv);

    assert!(matches!(rc, RC::Okay));
    assert!(ca.isset("ex"));
    assert_eq!(ca.value("ex"), Some(""));
    assert_eq!(ca.pos_args(), &vec!["first", "second"]);
}
