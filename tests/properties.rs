use std::cell::RefCell;

use checkarg::{CheckArg, ValueType, RC};

fn registry<'a>() -> CheckArg<'a> {
    let mut ca = CheckArg::new("prog");
    ca.add('a', "alpha", "opt a", ValueType::NoValue, None);
    ca.add('b', "beta", "opt b", ValueType::NoValue, None);
    ca.add('c', "gamma", "opt c", ValueType::NoValue, None);
    ca.add('d', "delta", "opt d", ValueType::NoValue, None);
    ca.add('o', "opt", "a value", ValueType::Required, None);
    ca
}

fn observed(ca: &CheckArg) -> (Vec<Option<String>>, Vec<String>) {
    let names = ["alpha", "beta", "gamma", "delta", "opt"];
    let values = names.iter().map(|n| ca.value(n).map(|v| v.to_string())).collect();
    (values, ca.pos_args().clone())
}

#[test]
fn no_arguments_sets_nothing() {
    let mut ca = registry();
    let rc = ca.parse(&vec!["/bin"]);
    assert!(matches!(rc, RC::Okay));
    assert!(ca.pos_args().is_empty());
    for n in ["alpha", "beta", "gamma", "delta", "opt"] {
        assert!(!ca.isset(n));
        assert_eq!(ca.value(n), None);
    }
}

#[test]
fn reuse_matches_fresh_registry() {
    let first = vec!["/bin", "-ab", "--opt=x", "first-pos"];
    let second = vec!["/bin", "-c", "second-pos"];

    let mut reused = registry();
    assert!(matches!(reused.parse(&first), RC::Okay));
    assert!(matches!(reused.parse(&second), RC::Okay));

    let mut fresh = registry();
    assert!(matches!(fresh.parse(&second), RC::Okay));

    assert_eq!(observed(&reused), observed(&fresh));
    assert!(!reused.isset("alpha"));
    assert_eq!(reused.pos_args(), &vec!["second-pos"]);
}

#[test]
fn value_forms_agree() {
    let forms = vec![
        vec!["/bin", "--opt=VALUE"],
        vec!["/bin", "--opt", "VALUE"],
        vec!["/bin", "-oVALUE"],
        vec!["/bin", "-o", "VALUE"],
    ];
    for argv in forms {
        let mut ca = registry();
        assert!(matches!(ca.parse(&argv), RC::Okay));
        assert_eq!(ca.value("opt"), Some("VALUE"));
        assert!(ca.pos_args().is_empty());
    }
}

#[test]
fn grouping_is_same_as_separate() {
    let mut grouped = registry();
    assert!(matches!(grouped.parse(&vec!["/bin", "-abcd"]), RC::Okay));
    let mut separate = registry();
    assert!(matches!(separate.parse(&vec!["/bin", "-a", "-b", "-c", "-d"]), RC::Okay));
    let mut mixed = registry();
    assert!(matches!(mixed.parse(&vec!["/bin", "-da", "--gamma", "-b"]), RC::Okay));
    assert_eq!(observed(&grouped), observed(&separate));
    assert_eq!(observed(&grouped), observed(&mixed));
    assert_eq!(grouped.value("alpha"), Some(""));
}

#[test]
fn value_to_flag_after_other_options() {
    let mut ca = registry();
    let rc = ca.parse(&vec!["/bin", "-a", "--beta=yes", "-c"]);
    assert!(matches!(rc, RC::InvVal));
    // the parse stopped at the error
    assert!(ca.isset("alpha"));
    assert!(!ca.isset("gamma"));
}

#[test]
fn empty_value_is_set() {
    for argv in [vec!["/bin", "--opt", ""], vec!["/bin", "--opt="]] {
        let mut ca = registry();
        assert!(matches!(ca.parse(&argv), RC::Okay));
        assert!(ca.isset("opt"));
        assert_eq!(ca.value("opt"), Some(""));
    }
    let mut unset = registry();
    assert!(matches!(unset.parse(&vec!["/bin"]), RC::Okay));
    assert_eq!(unset.value("opt"), None);
}

#[test]
fn scenario_input_and_files() {
    let mut ca = CheckArg::new("bin");
    ca.add('i', "input", "input file", ValueType::Required, None);
    let rc = ca.parse(&vec!["/bin", "-i", "input.bin", "--", "file1", "file2"]);
    assert!(matches!(rc, RC::Okay));
    assert_eq!(ca.value("input"), Some("input.bin"));
    assert_eq!(ca.pos_args(), &vec!["file1", "file2"]);
}

#[test]
fn scenario_grouped_with_callback() {
    let flag = RefCell::new(String::new());
    let mut ca = CheckArg::new("bin");
    ca.add('a', "alpha", "opt a", ValueType::NoValue, None);
    ca.add_cb(
        'b',
        "beta",
        "opt b",
        |_, o, _| {
            *flag.borrow_mut() = o.to_string();
            Ok(())
        },
        ValueType::NoValue,
        None,
    );
    let rc = ca.parse(&vec!["/bin", "-ab"]);
    assert!(matches!(rc, RC::Okay));
    assert!(ca.isset("alpha"));
    assert!(ca.isset("beta"));
    assert_eq!(*flag.borrow(), "beta");
}

#[test]
fn scenario_unregistered_short() {
    let mut ca = CheckArg::new("bin");
    assert!(matches!(ca.parse(&vec!["/bin", "-x"]), RC::InvOpt));
}

#[test]
fn scenario_value_missing_at_end() {
    let mut ca = CheckArg::new("bin");
    ca.add('i', "input", "input file", ValueType::Required, None);
    assert!(matches!(ca.parse(&vec!["/bin", "-i"]), RC::MissVal));
}

#[test]
fn unknown_long_option() {
    let mut ca = registry();
    assert!(matches!(ca.parse(&vec!["/bin", "--nope"]), RC::InvOpt));
    assert!(matches!(ca.parse(&vec!["/bin", "--nope=1"]), RC::InvOpt));
}

#[test]
fn failing_callback_stops_parse() {
    let calls = RefCell::new(0);
    let mut ca = CheckArg::new("bin");
    ca.add_cb(
        'f',
        "fail",
        "fails",
        |_, _, _| {
            *calls.borrow_mut() += 1;
            Err(())
        },
        ValueType::NoValue,
        None,
    );
    ca.add('a', "alpha", "opt a", ValueType::NoValue, None);
    let rc = ca.parse(&vec!["/bin", "-f", "-a", "rest"]);
    assert!(matches!(rc, RC::Callback));
    // the value was stored before the callback ran; nothing after it was read
    assert!(ca.isset("fail"));
    assert!(!ca.isset("alpha"));
    assert!(ca.pos_args().is_empty());
    assert_eq!(*calls.borrow(), 1);
}

#[test]
fn callback_runs_on_every_occurrence() {
    let seen = RefCell::new(Vec::new());
    let mut ca = CheckArg::new("bin");
    ca.add_cb(
        'v',
        "value",
        "a value",
        |st, o, v| {
            seen.borrow_mut().push(format!("{}={} ({})", o, v, st.pos_args().len()));
            Ok(())
        },
        ValueType::Required,
        None,
    );
    assert!(matches!(ca.parse(&vec!["/bin", "-v1", "p", "--value", "2"]), RC::Okay));
    assert!(matches!(ca.parse(&vec!["/bin", "--value=3"]), RC::Okay));
    assert_eq!(*seen.borrow(), vec!["value=1 (0)", "value=2 (1)", "value=3 (0)"]);
    assert_eq!(ca.value("value"), Some("3"));
}

#[test]
fn bare_dash_is_an_empty_cluster() {
    let mut ca = registry();
    assert!(matches!(ca.parse(&vec!["/bin", "-", "x"]), RC::Okay));
    assert_eq!(ca.pos_args(), &vec!["x"]);
}

#[test]
fn reset_forgets_parse() {
    let mut ca = registry();
    assert!(matches!(ca.parse(&vec!["/bin", "-a", "p"]), RC::Okay));
    ca.reset();
    assert!(!ca.isset("alpha"));
    assert!(ca.pos_args().is_empty());
    assert_eq!(ca.argv0(), "/bin");
}

#[test]
fn result_code_texts() {
    assert_eq!(CheckArg::strerr(&RC::Okay), "Everything is fine");
    assert_eq!(CheckArg::strerr(&RC::Error), "An error occurred");
    assert_eq!(CheckArg::strerr(&RC::InvOpt), "Unknown command line option");
    assert_eq!(CheckArg::strerr(&RC::InvVal), "Value given to non-value option");
    assert_eq!(CheckArg::strerr(&RC::MissVal), "Missing value of option");
    assert_eq!(CheckArg::strerr(&RC::Callback), "Callback returned with error code");
    assert_eq!(RC::MissVal.message(), "RC::MissVal: Missing value of option");
    assert_eq!(RC::Okay.name(), "RC::Okay");
    assert_eq!(ValueType::Required.name(), "ValueType::Required");
    assert_eq!(ValueType::NoValue.name(), "ValueType::NoValue");
}

#[test]
fn non_ascii_names_align_by_bytes() {
    let mut ca = CheckArg::new("prog");
    ca.add_long("größe", "size", ValueType::Required, Some("N"));
    ca.add_long("x", "ex", ValueType::NoValue, None);
    let help = ca.autohelp();
    // "größe" is 7 bytes: the column is 7 + 2 ("=N") + 2
    assert!(help.contains("       --größe=N  size\n"));
    assert!(help.contains("       --x          ex\n"));
    let mut up = CheckArg::new("prog");
    up.add_long("größe", "size", ValueType::Required, None);
    assert!(up.autohelp().contains("--größe=GRÖSSE  size"));
}

#[test]
fn missing_value_runs_no_callback() {
    let calls = RefCell::new(0);
    let mut ca = CheckArg::new("bin");
    ca.add_cb(
        'i',
        "input",
        "input file",
        |_, _, _| {
            *calls.borrow_mut() += 1;
            Ok(())
        },
        ValueType::Required,
        None,
    );
    assert!(matches!(ca.parse(&vec!["/bin", "-i"]), RC::MissVal));
    assert!(matches!(ca.parse(&vec!["/bin", "--input"]), RC::MissVal));
    assert_eq!(*calls.borrow(), 0);
}

#[test]
fn cluster_callback_runs_once_with_its_arguments() {
    let seen = RefCell::new(Vec::new());
    let mut ca = CheckArg::new("bin");
    ca.add('a', "alpha", "opt a", ValueType::NoValue, None);
    ca.add_cb(
        'b',
        "beta",
        "opt b",
        |_, o, v| {
            seen.borrow_mut().push((o.to_string(), v.to_string()));
            Ok(())
        },
        ValueType::NoValue,
        None,
    );
    assert!(matches!(ca.parse(&vec!["/bin", "-ab"]), RC::Okay));
    assert_eq!(*seen.borrow(), vec![("beta".to_string(), String::new())]);
}

#[test]
fn no_callback_after_an_error() {
    let calls = RefCell::new(0);
    let mut ca = CheckArg::new("bin");
    ca.add_cb(
        'a',
        "alpha",
        "opt a",
        |_, _, _| {
            *calls.borrow_mut() += 1;
            Ok(())
        },
        ValueType::NoValue,
        None,
    );
    assert!(matches!(ca.parse(&vec!["/bin", "-a", "-x", "-a"]), RC::InvOpt));
    assert_eq!(*calls.borrow(), 1);
}
