use std::cell::RefCell;

use checkarg::{CheckArg, ValueType, RC};

fn value_setup<'a>(cb_option: &'a RefCell<String>, cb_value: &'a RefCell<String>) -> CheckArg<'a> {
    let mut ca = CheckArg::new("test06");
    ca.add('a', "alpha", "value opt a", ValueType::Required, None);
    ca.add_cb(
        'b',
        "beta",
        "value opt b",
        move |_, o, v| {
            *cb_option.borrow_mut() = o.to_string();
            *cb_value.borrow_mut() = v.to_string();
            Ok(())
        },
        ValueType::Required,
        None,
    );
    ca.add_long("gamma", "value long opt gamma", ValueType::Required, None);
    ca.add_long_cb(
        "delta",
        "value long opt delta",
        move |_, o, v| {
            *cb_option.borrow_mut() = o.to_string();
            *cb_value.borrow_mut() = v.to_string();
            Ok(())
        },
        ValueType::Required,
        None,
    );
    ca.add('e', "epsilon", "value opt e", ValueType::Required, None);
    ca
}

#[test]
fn short_value() {
    let options = vec!["alpha", "beta"];
    let cb_option = RefCell::new(String::from(""));
    let cb_value = RefCell::new(String::from(""));
    let mut ca = value_setup(&cb_option, &cb_value);

    for opt in options {
        let arg1 = format!("-{}", opt.chars().nth(0).unwrap());
        let arg2 = format!("val-{}", opt);
        let argv = vec!["/test06_value", &arg1, &arg2];

        let ret = ca.parse(&argv);

        assert!(matches!(ret, RC::Okay));

        assert!(!ca.isset("gamma"));
        assert!(!ca.isset("delta"));
        assert!(!ca.isset("epsilon"));

        assert_eq!(ca.value(opt).unwrap(), arg2);

        if opt == "beta" {
            assert_eq!(*cb_option.borrow(), "beta");
            assert_eq!(*cb_value.borrow(), arg2);
        }
    }
}

#[test]
fn short_value_combined() {
    let options = vec!["alpha", "beta"];
    let cb_option = RefCell::new(String::from(""));
    let cb_value = RefCell::new(String::from(""));
    let mut ca = value_setup(&cb_option, &cb_value);

    for opt in options {
        let arg2 = format!("val-{}", opt);
        let arg = format!("-{}{}", opt.chars().nth(0).unwrap(), arg2);
        let argv = vec!["/test06_value", &arg];

        let ret = ca.parse(&argv);

        assert!(matches!(ret, RC::Okay));

        assert!(!ca.isset("gamma"));
        assert!(!ca.isset("delta"));
        assert!(!ca.isset("epsilon"));

        assert_eq!(ca.value(opt).unwrap(), arg2);

        if opt == "beta" {
            assert_eq!(*cb_option.borrow(), "beta");
            assert_eq!(*cb_value.borrow(), arg2);
        }
    }
}

#[test]
fn long_value() {
    let options = vec!["alpha", "beta", "gamma", "delta"];
    let cb_option = RefCell::new(String::from(""));
    let cb_value = RefCell::new(String::from(""));
    let mut ca = value_setup(&cb_option, &cb_value);

    for opt in options {
        let arg1 = format!("--{}", opt);
        let arg2 = format!("val-{}", opt);
        let argv = vec!["/test06_value", &arg1, &arg2];

        let ret = ca.parse(&argv);

        assert!(matches!(ret, RC::Okay));

        assert!(!ca.isset("epsilon"));

        assert_eq!(ca.value(opt).unwrap(), arg2);

        if opt == "beta" || opt == "delta" {
            assert_eq!(*cb_option.borrow(), opt);
            assert_eq!(*cb_value.borrow(), arg2);
        }
    }
}

#[test]
fn long_value_combined() {
    let options = vec!["alpha", "beta", "gamma", "delta"];
    let cb_option = RefCell::new(String::from(""));
    let cb_value = RefCell::new(String::from(""));
    let mut ca = value_setup(&cb_option, &cb_value);

    for opt in options {
        let arg2 = format!("val-{}", opt);
        let arg = format!("--{}={}", opt, arg2);
        let argv = vec!["/test06_value", &arg];

        let ret = ca.parse(&argv);

        assert!(matches!(ret, RC::Okay));

        assert!(!ca.isset("epsilon"));

        assert_eq!(ca.value(opt).unwrap(), arg2);

        if opt == "beta" || opt == "delta" {
            assert_eq!(*cb_option.borrow(), opt);
            assert_eq!(*cb_value.borrow(), arg2);
        }
    }
}

fn required_setup() -> CheckArg<'static> {
    let mut ca = CheckArg::new("test06");
    ca.add('a', "alpha", "non-value opt a", ValueType::Required, None);
    ca.add_cb('b', "beta", "non-value opt b", |_, _, _| Ok(()), ValueType::Required, None);
    ca.add_long("gamma", "non-value long opt gamma", ValueType::Required, None);
    ca.add_long_cb("delta", "non-value long opt delta", |_, _, _| Ok(()), ValueType::Required, None);
    ca.add('e', "epsilon", "non-value opt e", ValueType::Required, None);
    ca
}

#[test]
fn value_missing_value() {
    let options = vec!["-a", "--alpha", "-b", "--beta", "--gamma", "--delta"];

    let mut ca = required_setup();

    for opt in options {
        let argv = vec!["/test06", opt];

        let ret = ca.parse(&argv);

        assert!(matches!(ret, RC::MissVal));
    }
}

#[test]
fn empty_value() {
    let options = vec!["-a", "--alpha", "-b", "--beta", "--gamma", "--delta"];

    let mut ca = required_setup();

    for opt in options {
        let argv = vec!["/test06", opt, ""];

        let ret = ca.parse(&argv);

        // an empty string is a value: no RC::MissVal
        assert!(matches!(ret, RC::Okay));
    }
}

#[test]
fn empty_value_combined() {
    // short options have no '=' form
    let options = vec!["--alpha=", "--beta=", "--gamma=", "--delta="];

    let mut ca = required_setup();

    for opt in options {
        let argv = vec!["/test06", opt];

        let ret = ca.parse(&argv);

        // an empty string is a value: no RC::MissVal
        assert!(matches!(ret, RC::Okay));
    }
}

#[test]
fn special_values() {
    let values = vec!["=test", "-test", "--test", "-", "--"];

    let mut ca = CheckArg::new("test06");
    ca.add('i', "input", "input file", ValueType::Required, None);

    for val in values {
        let arg3 = format!("--input={}", val);
        let arg4 = format!("-i{}", val);
        let options = vec![
            vec!["/test06", "--input", val],
            vec!["/test06", "-i", val],
            vec!["/test06", &arg3],
            vec!["/test06", &arg4],
        ];

        for argv in options {
            let ret = ca.parse(&argv);

            assert!(matches!(ret, RC::Okay));
            assert_eq!(ca.value("input").unwrap(), val);
        }
    }
}
