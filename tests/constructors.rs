use checkarg::{CheckArg, RC};

#[test]
fn constructor_simple() {
    let args = vec!["/usr/bin/name"];

    let mut ca = CheckArg::new("name");
    let rc = ca.parse(&args);

    assert!(matches!(rc, RC::Okay), "parsing failed");
    assert_eq!(ca.callname(), "/usr/bin/name", "callname() is wrong");
    assert_eq!(ca.usage(), "Usage: name [options]", "appname in usage() is wrong");
}
