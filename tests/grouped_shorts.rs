use checkarg::{CheckArg, ValueType, RC};

#[test]
fn grouped_short_options() {
    // long options cannot be grouped
    let argvs = vec![
        vec!["/test07", "-abcd"],
        vec!["/test07", "-ab", "-cd"],
        vec!["/test07", "-abc", "-d"],
        vec!["/test07", "-abc", "--delta"],
        vec!["/test07", "-ab", "--gamma", "-d"],
        vec!["/test07", "-ac", "--beta", "--delta"],
        vec!["/test07", "--alpha", "-bcd"],
    ];

    let mut ca = CheckArg::new("test07");
    ca.add('a', "alpha", "opt a", ValueType::NoValue, None);
    ca.add_cb('b', "beta", "opt b", |_, _, _| Ok(()), ValueType::NoValue, None);
    ca.add('c', "gamma", "opt gamma", ValueType::NoValue, None);
    ca.add_cb('d', "delta", "opt delta", |_, _, _| Ok(()), ValueType::NoValue, None);
    ca.add('e', "epsy", "opt e", ValueType::NoValue, None);

    for argv in argvs {
        let ret = ca.parse(&argv);

        assert!(matches!(ret, RC::Okay));

        assert!(ca.isset("alpha"));
        assert!(ca.isset("beta"));
        assert!(ca.isset("gamma"));
        assert!(ca.isset("delta"));
        assert!(!ca.isset("epsy"));
    }
}

#[test]
fn cluster_value_ends_cluster() {
    let argv = vec!["/bin", "-aiabc"];

    let mut ca = CheckArg::new("bin");
    ca.add('a', "alpha", "opt a", ValueType::NoValue, None);
    ca.add('b', "beta", "opt b", ValueType::NoValue, None);
    ca.add('i', "input", "input", ValueType::Required, None);

    let ret = ca.parse(&argv);

    assert!(matches!(ret, RC::Okay));
    assert!(ca.isset("alpha"));
    assert!(!ca.isset("beta"));
    assert_eq!(ca.value("input"), Some("abc"));
}

#[test]
fn unknown_short_in_cluster_reports_error() {
    let argv = vec!["/bin", "-axb"];

    let mut ca = CheckArg::new("bin");
    ca.add('a', "alpha", "opt a", ValueType::NoValue, None);
    ca.add('b', "beta", "opt b", ValueType::NoValue, None);

    let ret = ca.parse(&argv);

    assert!(matches!(ret, RC::InvOpt));
    // what came before the unknown character took effect, nothing after it
    assert!(ca.isset("alpha"));
    assert!(!ca.isset("beta"));
}
