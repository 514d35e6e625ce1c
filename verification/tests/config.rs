use anyst::config::default_log_level;
use anyst::config::normalize_config;
use anyst::config::read_remotes;
use anyst::config::Config;
use anyst::config::ConfigError;
use anyst::config::FilesFound;
use anyst::config::MissingFile;
use anyst::config::RawRemote;
use anyst::config::RawRemotes;
use anyst::config::RemoteEntry;
use anyst::config::TunnelConfig;

fn remote(addr: &str, password: &str) -> RemoteEntry {
    RemoteEntry { addr: addr.to_string(), password: password.to_string() }
}

fn tunnel(remotes: Vec<RemoteEntry>, password: &str) -> TunnelConfig {
    TunnelConfig {
        listen: "0.0.0.0:1017".to_string(),
        remotes,
        sni: String::new(),
        insecure: false,
        password: password.to_string(),
        cert: None,
        key: None,
    }
}

fn config(tunnels: Vec<TunnelConfig>) -> Config {
    Config { log_level: "debug".to_string(), tunnels }
}

const BOTH: FilesFound = FilesFound { cert: true, key: true };

#[test]
fn log_level_defaults_to_info() {
    assert_eq!(default_log_level(), "info");
}

#[test]
fn remotes_come_in_three_shapes() {
    let one = read_remotes(RawRemotes::One("a:1".to_string())).unwrap();
    assert_eq!(one.len(), 1);
    assert_eq!((one[0].addr.as_str(), one[0].password.as_str()), ("a:1", ""));
    let many = read_remotes(RawRemotes::Many(vec![
        RawRemote::Plain("a:1".to_string()),
        RawRemote::Full("b:2".to_string(), "pw".to_string()),
    ]))
    .unwrap();
    assert_eq!(many.len(), 2);
    assert_eq!((many[0].addr.as_str(), many[0].password.as_str()), ("a:1", ""));
    assert_eq!((many[1].addr.as_str(), many[1].password.as_str()), ("b:2", "pw"));
    assert!(read_remotes(RawRemotes::Many(vec![])).is_none());
}

#[test]
fn a_server_needs_both_files() {
    let mut t = tunnel(vec![remote("a:1", "pw")], "");
    assert!(!t.is_server());
    t.cert = Some("cert.pem".to_string());
    assert!(!t.is_server());
    t.key = Some("key.pem".to_string());
    assert!(t.is_server());
}

#[test]
fn first_remote_is_the_upstream() {
    let t = tunnel(vec![remote("one:1", "a"), remote("two:2", "b")], "");
    assert_eq!(t.remote(), "one:1");
}

#[test]
fn server_name_falls_back_to_the_host() {
    let mut t = tunnel(vec![remote("example.com:443", "a")], "");
    assert_eq!(t.server_name(), "example.com");
    t.remotes[0].addr = "[::1]:443".to_string();
    assert_eq!(t.server_name(), "[::1]");
    t.remotes[0].addr = "no-port".to_string();
    assert_eq!(t.server_name(), "");
    t.sni = "sni.example".to_string();
    assert_eq!(t.server_name(), "sni.example");
}

#[test]
fn empty_passwords_are_filled_from_the_tunnel() {
    let t = tunnel(vec![remote("a:1", ""), remote("b:2", "own")], "shared");
    let c = normalize_config(config(vec![t]), &[BOTH]).unwrap();
    assert_eq!(c.log_level, "debug");
    assert_eq!(c.tunnels[0].remotes[0].password, "shared");
    assert_eq!(c.tunnels[0].remotes[1].password, "own");
    assert_eq!(c.tunnels[0].remotes[1].addr, "b:2");
    assert_eq!(c.tunnels[0].listen, "0.0.0.0:1017");
}

#[test]
fn a_tunnel_without_remotes_is_invalid() {
    let good = tunnel(vec![remote("a:1", "pw")], "");
    let bad = tunnel(vec![], "shared");
    let e = normalize_config(config(vec![good, bad]), &[BOTH, BOTH]).unwrap_err();
    assert!(matches!(e, ConfigError::NoRemotes(1)));
    assert_eq!(e.message(), "tunnel[1]: at least one remote address is required");
}

#[test]
fn a_remote_without_any_password_is_invalid() {
    let t = tunnel(vec![remote("a:1", "pw"), remote("b:2", "")], "");
    let e = normalize_config(config(vec![t]), &[BOTH]).unwrap_err();
    assert!(matches!(e, ConfigError::NoPassword(0, 1)));
    assert_eq!(
        e.message(),
        "tunnel[0].remotes[1]: no password set (add `password:` to the remote entry or at tunnel level)"
    );
}

#[test]
fn a_server_without_its_files_is_invalid() {
    let mut t = tunnel(vec![remote("a:1", "pw")], "");
    t.cert = Some("c.pem".to_string());
    t.key = Some("k.pem".to_string());
    let none = FilesFound { cert: false, key: false };
    let e = normalize_config(config(vec![t.clone()]), &[none]).unwrap_err();
    assert!(matches!(&e, ConfigError::CertMissing(0, p) if p == "c.pem"));
    assert_eq!(e.message(), "tunnel[0]: certificate file not found: c.pem");
    let no_key = FilesFound { cert: true, key: false };
    let e = normalize_config(config(vec![t.clone()]), &[no_key]).unwrap_err();
    assert!(matches!(&e, ConfigError::KeyMissing(0, p) if p == "k.pem"));
    assert_eq!(e.message(), "tunnel[0]: key file not found: k.pem");
    assert!(normalize_config(config(vec![t.clone()]), &[BOTH]).is_ok());
    t.key = None;
    assert!(normalize_config(config(vec![t]), &[none]).is_ok());
}

#[test]
fn the_first_fault_decides() {
    let mut server = tunnel(vec![remote("a:1", "")], "");
    server.cert = Some("c.pem".to_string());
    server.key = Some("k.pem".to_string());
    let none = FilesFound { cert: false, key: false };
    let e = normalize_config(config(vec![server, tunnel(vec![], "")]), &[none, none]).unwrap_err();
    assert!(matches!(e, ConfigError::NoPassword(0, 0)));
}

#[test]
fn positions_are_spelled_in_decimal() {
    assert_eq!(
        ConfigError::NoPassword(0, 1203).message(),
        "tunnel[0].remotes[1203]: no password set (add `password:` to the remote entry or at tunnel level)"
    );
}

#[test]
fn completing_twice_changes_nothing() {
    let t = tunnel(vec![remote("a:1", ""), remote("b:2", "own")], "shared");
    let once = normalize_config(config(vec![t]), &[BOTH]).unwrap();
    let mut other = once.clone();
    other.tunnels[0].password = "ignored".to_string();
    let twice = normalize_config(other, &[BOTH]).unwrap();
    assert_eq!(twice.tunnels[0].remotes[0].password, "shared");
    assert_eq!(twice.tunnels[0].remotes[1].password, "own");
}

#[test]
fn a_server_is_told_what_it_lacks() {
    let mut t = tunnel(vec![remote("a:1", "x")], "");
    t.cert = None;
    t.key = None;
    assert_eq!(t.server_files(), Err(MissingFile::Cert));
    t.key = Some("k.pem".to_string());
    assert_eq!(t.server_files(), Err(MissingFile::Cert));
    assert!(!t.is_server());
    t.cert = Some("c.pem".to_string());
    assert_eq!(t.server_files(), Ok(("c.pem".to_string(), "k.pem".to_string())));
    assert!(t.is_server());
    t.key = None;
    assert_eq!(t.server_files(), Err(MissingFile::Key));
    assert_eq!(MissingFile::Cert.message(), "server mode requires `cert`");
    assert_eq!(MissingFile::Key.message(), "server mode requires `key`");
}
