use checkarg::{CheckArg, ValueType, RC};

fn triggering_help(option: &str) {
    let argv = vec!["/test01", option];

    let mut cb_ran = 0;
    let mut out = String::new();
    {
        let mut ca = CheckArg::new("test01");
        // a callback that records the help instead of printing it and exiting
        ca.add_cb(
            'h',
            "help",
            "show this help message and exit",
            |cx, _opt, _val| {
                cb_ran += 1;
                out = cx.autohelp();
                Ok(())
            },
            ValueType::NoValue,
            None,
        );
        ca.add('i', "input", "file to read from", ValueType::Required, Some(""));

        let rc = ca.parse(&argv);

        assert!(matches!(rc, RC::Okay), "parsing failed");
    }
    assert_eq!(cb_ran, 1, "callback did not run");

    assert_eq!(
        out,
        "\
Usage: test01 [options]

Options:
   -h, --help   show this help message and exit
   -i, --input  file to read from\n"
    );
}

#[test]
fn triggering_help_long_option() {
    triggering_help("--help")
}

#[test]
fn triggering_help_short_option() {
    triggering_help("-h")
}

fn setup_simple_ca() -> CheckArg<'static> {
    let mut ca = CheckArg::new("name");
    ca.add('i', "input", "file to read from", ValueType::Required, Some(""));
    ca
}

#[test]
fn correct_option_and_value() {
    let mut ca = setup_simple_ca();

    let argv = vec!["/usr/bin/name", "-i", "input.in"];

    let rc = ca.parse(&argv);

    assert!(matches!(rc, RC::Okay), "parsing failed");
    assert!(ca.isset("input"));
    assert!(matches!(ca.value("input"), Some(input) if input == "input.in"));
    assert_eq!(ca.value("input").unwrap(), "input.in");
}

#[test]
fn invalid_option() {
    let mut ca = setup_simple_ca();

    let argv = vec!["/usr/bin/name", "-x"];

    let rc = ca.parse(&argv);

    assert!(matches!(rc, RC::InvOpt), "parse should detect invalid option");
}

#[test]
fn missing_value() {
    let mut ca = setup_simple_ca();

    let argv = vec!["/usr/bin/name", "-i"];

    let rc = ca.parse(&argv);

    assert!(matches!(rc, RC::MissVal), "parse should detect missing value");
}
