//! The run command's option handling and the verify command's input
//! preparation.

use epoch_changes::run_cmd::{
    interface_str, parse_cors, parse_telemetry_endpoints, Cors, Keyring, OffchainWorkerEnabled,
    Roles, RunCmd, SharedParams,
};
use epoch_changes::verify_cmd::{KeyMaterial, VerifyCmd};

fn base_cmd() -> RunCmd {
    RunCmd {
        validator: false,
        sentry: false,
        no_grandpa: false,
        light: false,
        rpc_external: false,
        unsafe_rpc_external: false,
        ws_external: false,
        unsafe_ws_external: false,
        prometheus_external: false,
        rpc_port: None,
        ws_port: None,
        ws_max_connections: None,
        rpc_cors: None,
        prometheus_port: None,
        no_prometheus: false,
        name: None,
        no_telemetry: false,
        telemetry_endpoints: Vec::new(),
        offchain_worker: OffchainWorkerEnabled::WhenValidating,
        shared_params: SharedParams { dev: false },
        alice: false,
        bob: false,
        charlie: false,
        dave: false,
        eve: false,
        ferdie: false,
        one: false,
        two: false,
        force_authoring: false,
    }
}

#[test]
fn keyring_shortcut_flags_pick_the_identity() {
    let mut c = base_cmd();
    assert_eq!(c.get_keyring(), None);
    c.bob = true;
    assert_eq!(c.get_keyring(), Some(Keyring::Bob));
    c.alice = true;
    assert_eq!(c.get_keyring(), Some(Keyring::Alice));
}

#[test]
fn roles_follow_the_flags() {
    let mut c = base_cmd();
    assert_eq!(c.get_roles(false), Roles::Full);
    assert_eq!(c.get_roles(true), Roles::Authority);
    c.validator = true;
    assert_eq!(c.get_roles(false), Roles::Authority);
    c.light = true;
    assert_eq!(c.get_roles(false), Roles::Light);
}

#[test]
fn node_name_falls_back_and_validates() {
    let mut c = base_cmd();
    assert_eq!(c.get_node_name("generated").unwrap(), "generated");
    c.eve = true;
    assert_eq!(c.get_node_name("generated").unwrap(), "Eve");
    c.name = Some("Dots.not.Ok".to_string());
    assert!(c.get_node_name("generated").is_err());
}

#[test]
fn dev_key_seed_follows_keyring_and_dev_mode() {
    let mut c = base_cmd();
    assert_eq!(c.get_dev_key_seed(false), None);
    assert_eq!(c.get_dev_key_seed(true).unwrap(), "//Alice");
    c.ferdie = true;
    assert_eq!(c.get_dev_key_seed(false).unwrap(), "//Ferdie");
    c.ferdie = false;
    c.light = true;
    assert_eq!(c.get_dev_key_seed(true), None);
}

#[test]
fn telemetry_endpoints_prefer_explicit_ones() {
    let mut c = base_cmd();
    let fallback = vec![("ws://spec".to_string(), 1u8)];
    assert_eq!(c.get_telemetry_endpoints(Some(fallback.clone())), Some(fallback.clone()));
    c.telemetry_endpoints = vec![("ws://mine".to_string(), 5)];
    assert_eq!(
        c.get_telemetry_endpoints(Some(fallback.clone())),
        Some(vec![("ws://mine".to_string(), 5)])
    );
    c.no_telemetry = true;
    assert_eq!(c.get_telemetry_endpoints(Some(fallback)), None);
}

#[test]
fn prometheus_and_rpc_addresses() {
    let mut c = base_cmd();
    assert_eq!(c.get_prometheus_port(), Some(("127.0.0.1", 9615)));
    c.prometheus_external = true;
    c.prometheus_port = Some(7000);
    assert_eq!(c.get_prometheus_port(), Some(("0.0.0.0", 7000)));
    c.no_prometheus = true;
    assert_eq!(c.get_prometheus_port(), None);
    assert_eq!(c.get_rpc_http().unwrap(), Some(("127.0.0.1", 9933)));
    assert_eq!(c.get_rpc_ws().unwrap(), Some(("127.0.0.1", 9944)));
    c.rpc_external = true;
    c.validator = true;
    assert!(c.get_rpc_http().is_err());
}

#[test]
fn interface_string_refuses_external_validator() {
    assert!(interface_str(true, false, true).is_err());
    assert_eq!(interface_str(true, false, false).unwrap(), "0.0.0.0");
    assert_eq!(interface_str(false, true, true).unwrap(), "0.0.0.0");
    assert_eq!(interface_str(false, false, false).unwrap(), "127.0.0.1");
}

#[test]
fn rpc_cors_defaults() {
    let mut c = base_cmd();
    assert_eq!(c.get_rpc_cors(true), None);
    let list = c.get_rpc_cors(false).unwrap();
    assert_eq!(list.len(), 6);
    assert_eq!(list[0], "http://localhost:*");
    assert_eq!(list[5], "https://substrate-ui.parity.io");
    c.rpc_cors = Some(Cors::All);
    assert_eq!(c.get_rpc_cors(false), None);
    c.rpc_cors = Some(Cors::List(vec!["https://only.me".to_string()]));
    assert_eq!(c.get_rpc_cors(false), Some(vec!["https://only.me".to_string()]));
}

#[test]
fn offchain_worker_policy() {
    let mut c = base_cmd();
    assert!(c.get_offchain_worker(Roles::Authority));
    assert!(!c.get_offchain_worker(Roles::Full));
    c.offchain_worker = OffchainWorkerEnabled::Always;
    assert!(c.get_offchain_worker(Roles::Full));
    c.offchain_worker = OffchainWorkerEnabled::Never;
    assert!(!c.get_offchain_worker(Roles::Authority));
}

#[test]
fn telemetry_endpoint_parsing() {
    assert_eq!(
        parse_telemetry_endpoints("ws://telemetry").unwrap(),
        ("ws://telemetry".to_string(), 0)
    );
    assert_eq!(
        parse_telemetry_endpoints("ws://telemetry 3").unwrap(),
        ("ws://telemetry".to_string(), 3)
    );
    assert_eq!(
        parse_telemetry_endpoints("ws://telemetry +7").unwrap(),
        ("ws://telemetry".to_string(), 7)
    );
    assert!(parse_telemetry_endpoints("ws://telemetry 999").is_err());
    assert!(parse_telemetry_endpoints("ws://telemetry 2x").is_err());
    assert!(parse_telemetry_endpoints("ws://telemetry ").is_err());
}

#[test]
fn cors_parsing() {
    assert!(matches!(parse_cors("all").unwrap(), Cors::All));
    assert!(matches!(parse_cors("*").unwrap(), Cors::All));
    assert!(matches!(parse_cors("a,*,b").unwrap(), Cors::All));
    match parse_cors("https://a,https://b").unwrap() {
        Cors::List(l) => assert_eq!(l, vec!["https://a".to_string(), "https://b".to_string()]),
        Cors::All => panic!("expected a list"),
    }
    match parse_cors("").unwrap() {
        Cors::List(l) => assert_eq!(l, vec!["".to_string()]),
        Cors::All => panic!("expected a list"),
    }
}

#[test]
fn verify_command_prepares_inputs() {
    let cmd = VerifyCmd {
        sig: "0a0bff00".to_string(),
        uri: None,
        message: None,
        hex: false,
        shared_params: SharedParams { dev: false },
    };
    let q = cmd.prepare(4, "0xff00").unwrap();
    assert_eq!(q.signature, vec![0x0a, 0x0b, 0xff, 0x00]);
    match q.key {
        KeyMaterial::PublicBytes(b) => assert_eq!(b, vec![0xff, 0x00]),
        KeyMaterial::Uri(_) => panic!("expected raw bytes"),
    }
    let q2 = cmd.prepare(4, "//Alice").unwrap();
    match q2.key {
        KeyMaterial::Uri(u) => assert_eq!(u, "//Alice"),
        KeyMaterial::PublicBytes(_) => panic!("expected a URI"),
    }
    assert!(cmd.prepare(3, "0xff00").is_err());
    let bad = VerifyCmd {
        sig: "zz".to_string(),
        uri: None,
        message: None,
        hex: false,
        shared_params: SharedParams { dev: false },
    };
    assert!(bad.prepare(1, "x").is_err());
}
