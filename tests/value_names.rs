use checkarg::{CheckArg, ValueType, RC};

fn names_setup() -> CheckArg<'static> {
    let mut ca = CheckArg::new("test08");
    ca.add_autohelp();
    ca.add('z', "ag", "auto-generated name", ValueType::Required, None);
    ca.add('y', "ng", "no value name", ValueType::Required, Some(""));
    ca.add('i', "input", "file to read from", ValueType::Required, Some("IPT"));
    ca.add('a', "alpha", "alpha option", ValueType::Required, Some("A"));
    ca.add_long("beta", "beta option", ValueType::Required, Some("B"));
    ca.add_cb('c', "gamma", "gamma option", |_ca, _k, _v| Ok(()), ValueType::Required, Some("C"));
    ca.add_long_cb("delta", "delta option", |_ca, _k, _v| Ok(()), ValueType::Required, Some("D"));
    ca
}

#[test]
fn value_names_general_usage() {
    let argv = vec!["/test08"];

    let mut ca = names_setup();

    let rc = ca.parse(&argv);

    assert!(matches!(rc, RC::Okay), "parsing failed");

    assert_eq!(
        ca.autohelp(),
        "\
Usage: test08 [options]

Options:
   -z, --ag=AG      auto-generated name
   -a, --alpha=A    alpha option
       --beta=B     beta option
       --delta=D    delta option
   -c, --gamma=C    gamma option
   -h, --help       show this help message and exit
   -i, --input=IPT  file to read from
   -y, --ng         no value name\n"
    );
}

#[test]
fn general_reuse() {
    let argv1 = vec!["/test08", "-a", "a-val"];
    let argv2 = vec!["/test08", "--beta", "b-val"];
    let argv3 = vec!["/test08", "-c", "c-val"];
    let argv4 = vec!["/test08", "--delta", "d-val"];
    let argv5 = vec!["/test08", "-z", "z-val"];
    let argv6 = vec!["/test08", "--ag", "ag-val"];
    let argv7 = vec!["/test08", "--ng", "ng-val"];

    let mut ca = names_setup();

    let mut rc = ca.parse(&argv1);
    assert!(matches!(rc, RC::Okay), "parsing failed");
    assert!(ca.isset("alpha"));
    assert!(matches!(ca.value("alpha"), Some("a-val")));

    rc = ca.parse(&argv2);
    assert!(matches!(rc, RC::Okay), "parsing failed");
    assert!(!ca.isset("alpha"));
    assert!(matches!(ca.value("alpha"), None));
    assert!(ca.isset("beta"));
    assert!(matches!(ca.value("beta"), Some("b-val")));

    rc = ca.parse(&argv3);
    assert!(matches!(rc, RC::Okay), "parsing failed");
    assert!(!ca.isset("alpha"));
    assert!(matches!(ca.value("alpha"), None));
    assert!(!ca.isset("beta"));
    assert!(matches!(ca.value("beta"), None));
    assert!(ca.isset("gamma"));
    assert!(matches!(ca.value("gamma"), Some("c-val")));

    rc = ca.parse(&argv4);
    assert!(matches!(rc, RC::Okay), "parsing failed");
    assert!(!ca.isset("alpha"));
    assert!(matches!(ca.value("alpha"), None));
    assert!(!ca.isset("beta"));
    assert!(matches!(ca.value("beta"), None));
    assert!(!ca.isset("gamma"));
    assert!(matches!(ca.value("gamma"), None));
    assert!(ca.isset("delta"));
    assert!(matches!(ca.value("delta"), Some("d-val")));

    rc = ca.parse(&argv5);
    assert!(matches!(rc, RC::Okay), "parsing failed");
    assert!(!ca.isset("alpha"));
    assert!(matches!(ca.value("alpha"), None));
    assert!(!ca.isset("beta"));
    assert!(matches!(ca.value("beta"), None));
    assert!(!ca.isset("gamma"));
    assert!(matches!(ca.value("gamma"), None));
    assert!(!ca.isset("delta"));
    assert!(matches!(ca.value("delta"), None));
    assert!(ca.isset("ag"));
    assert!(matches!(ca.value("ag"), Some("z-val")));

    rc = ca.parse(&argv6);
    assert!(matches!(rc, RC::Okay), "parsing failed");
    assert!(!ca.isset("alpha"));
    assert!(matches!(ca.value("alpha"), None));
    assert!(!ca.isset("beta"));
    assert!(matches!(ca.value("beta"), None));
    assert!(!ca.isset("gamma"));
    assert!(matches!(ca.value("gamma"), None));
    assert!(!ca.isset("delta"));
    assert!(matches!(ca.value("delta"), None));
    assert!(ca.isset("ag"));
    assert!(matches!(ca.value("ag"), Some("ag-val")));

    rc = ca.parse(&argv7);
    assert!(matches!(rc, RC::Okay), "parsing failed");
    assert!(!ca.isset("alpha"));
    assert!(matches!(ca.value("alpha"), None));
    assert!(!ca.isset("beta"));
    assert!(matches!(ca.value("beta"), None));
    assert!(!ca.isset("gamma"));
    assert!(matches!(ca.value("gamma"), None));
    assert!(!ca.isset("delta"));
    assert!(matches!(ca.value("delta"), None));
    assert!(!ca.isset("ag"));
    assert!(matches!(ca.value("ag"), None));
    assert!(ca.isset("ng"));
    assert!(matches!(ca.value("ng"), Some("ng-val")));
}

#[test]
fn auto_label_is_upper_case_long_name() {
    let mut ca = CheckArg::new("prog");
    ca.add_long("out-file", "where to write", ValueType::Required, None);
    ca.add_long("quiet", "say nothing", ValueType::NoValue, None);

    assert_eq!(
        ca.autohelp(),
        "\
Usage: prog [options]

Options:
       --out-file=OUT-FILE  where to write
       --quiet              say nothing\n"
    );
}

#[test]
fn reregistering_overrides() {
    let mut ca = CheckArg::new("prog");
    ca.add('x', "ex", "first", ValueType::NoValue, None);
    ca.add('x', "ex", "second", ValueType::Required, Some("V"));

    assert_eq!(
        ca.autohelp(),
        "\
Usage: prog [options]

Options:
   -x, --ex=V  second\n"
    );
    let argv = vec!["/prog", "-xvalue"];
    assert!(matches!(ca.parse(&argv), RC::Okay));
    assert_eq!(ca.value("ex"), Some("value"));
}
