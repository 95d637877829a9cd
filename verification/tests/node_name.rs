//! Node-name validation, against the real regular-expression engine.

use epoch_changes::run_cmd::is_node_name_valid;

#[test]
fn tests_node_name_good() {
    assert!(is_node_name_valid("short name").is_ok());
}

#[test]
fn tests_node_name_bad() {
    assert!(is_node_name_valid("long names are not very cool for the ui").is_err());
    assert!(is_node_name_valid("Dots.not.Ok").is_err());
    assert!(is_node_name_valid("http://visit.me").is_err());
    assert!(is_node_name_valid("https://visit.me").is_err());
    assert!(is_node_name_valid("www.visit.me").is_err());
    assert!(is_node_name_valid("email@domain").is_err());
}

#[test]
fn node_name_error_messages() {
    assert_eq!(
        is_node_name_valid("long names are not very cool for the ui"),
        Err("Node name too long")
    );
    assert_eq!(
        is_node_name_valid("Dots.not.Ok"),
        Err("Node name should not contain invalid chars such as '.' and '@'")
    );
    assert_eq!(
        is_node_name_valid("wwwsite"),
        Err("Node name should not contain urls")
    );
}
