use sftp_manager::creds::{
    remove_server_credentials, store_server_credentials, CredStore, StoredCredentials,
};
use sftp_manager::gateway::list_servers;
use sftp_manager::lifecycle::{
    apply_mutating_op, container_logs_result, container_status_result, create_server_command,
    create_server_conclude, list_files_denied, LifecycleOp, ServerConfig,
};
use sftp_manager::network::{
    clear_network_preference, get_current_ip_internal, get_network_info, set_network_preference,
    NetworkConfig, NetworkInterface,
};

fn creds(u: &str, p: &str, h: &str, c: &str) -> StoredCredentials {
    StoredCredentials {
        username: u.to_string(),
        password: p.to_string(),
        host_path: h.to_string(),
        container_path: c.to_string(),
    }
}

fn iface(name: &str, addr: &str, vpn: bool) -> NetworkInterface {
    NetworkInterface { name: name.to_string(), address: addr.to_string(), is_vpn: vpn }
}

#[test]
fn store_then_lookup() {
    let mut store = CredStore::new();
    store_server_credentials(&mut store, "srv", creds("u", "p", "/h", "/c"));
    let got = store.lookup("srv").unwrap();
    assert_eq!(got.username, "u");
    assert_eq!(got.password, "p");
    assert_eq!(got.host_path, "/h");
    assert_eq!(got.container_path, "/c");
}

#[test]
fn store_overwrites_same_name() {
    let mut store = CredStore::new();
    store_server_credentials(&mut store, "srv", creds("u1", "p1", "/h1", "/c1"));
    store_server_credentials(&mut store, "srv", creds("u2", "p2", "/h2", "/c2"));
    assert_eq!(store.lookup("srv").unwrap().username, "u2");
    assert_eq!(store.entries.len(), 1);
}

#[test]
fn remove_deletes_only_that_name() {
    let mut store = CredStore::new();
    store_server_credentials(&mut store, "a", creds("u", "p", "/h", "/c"));
    store_server_credentials(&mut store, "b", creds("v", "q", "/i", "/d"));
    remove_server_credentials(&mut store, "a");
    assert!(store.lookup("a").is_none());
    assert!(store.lookup("b").is_some());
}

#[test]
fn remove_missing_name_is_harmless() {
    let mut store = CredStore::new();
    remove_server_credentials(&mut store, "ghost");
    assert!(store.lookup("ghost").is_none());
}

#[test]
fn preference_setting_ip_clears_interface() {
    let mut config = NetworkConfig::default();
    set_network_preference(&mut config, None, Some("eth0".to_string()));
    assert_eq!(config.preferred_interface.as_deref(), Some("eth0"));
    set_network_preference(&mut config, Some("10.0.0.5".to_string()), None);
    assert_eq!(config.preferred_ip.as_deref(), Some("10.0.0.5"));
    assert!(config.preferred_interface.is_none());
}

#[test]
fn preference_setting_interface_clears_ip() {
    let mut config = NetworkConfig::default();
    set_network_preference(&mut config, Some("10.0.0.5".to_string()), None);
    set_network_preference(&mut config, None, Some("eth0".to_string()));
    assert_eq!(config.preferred_interface.as_deref(), Some("eth0"));
    assert!(config.preferred_ip.is_none());
}

#[test]
fn preference_clear_is_pristine() {
    let mut config = NetworkConfig::default();
    set_network_preference(&mut config, Some("10.0.0.5".to_string()), None);
    clear_network_preference(&mut config);
    assert!(config.preferred_ip.is_none());
    assert!(config.preferred_interface.is_none());
}

#[test]
fn binding_prefers_explicit_address_over_non_vpn_default() {
    let ifs = vec![
        iface("All Interfaces", "0.0.0.0", false),
        iface("eth0", "192.168.1.5", false),
        iface("wg0", "10.0.0.5", true),
    ];
    let config = NetworkConfig {
        preferred_interface: None,
        preferred_ip: Some("10.0.0.5".to_string()),
    };
    let (ip, name, vpn) = get_current_ip_internal(&ifs, &config);
    assert_eq!(ip, "10.0.0.5");
    assert_eq!(name.as_deref(), Some("wg0"));
    assert!(vpn);
}

#[test]
fn binding_falls_back_to_interface_name() {
    let ifs = vec![iface("eth0", "192.168.1.5", false), iface("eth1", "192.168.2.5", false)];
    let config = NetworkConfig {
        preferred_interface: Some("eth1".to_string()),
        preferred_ip: Some("1.2.3.4".to_string()),
    };
    let (ip, name, _) = get_current_ip_internal(&ifs, &config);
    assert_eq!(ip, "192.168.2.5");
    assert_eq!(name.as_deref(), Some("eth1"));
}

#[test]
fn binding_prefers_non_vpn_without_preference() {
    let ifs = vec![iface("wg0", "10.8.0.2", true), iface("eth0", "192.168.1.5", false)];
    let config = NetworkConfig::default();
    let (ip, name, vpn) = get_current_ip_internal(&ifs, &config);
    assert_eq!(ip, "192.168.1.5");
    assert_eq!(name.as_deref(), Some("eth0"));
    assert!(!vpn);
}

#[test]
fn binding_takes_first_interface_when_all_vpn() {
    let ifs = vec![iface("wg0", "10.8.0.2", true), iface("tun0", "10.9.0.2", true)];
    let config = NetworkConfig::default();
    let (ip, name, vpn) = get_current_ip_internal(&ifs, &config);
    assert_eq!(ip, "10.8.0.2");
    assert_eq!(name.as_deref(), Some("wg0"));
    assert!(vpn);
}

#[test]
fn binding_empty_list_is_loopback() {
    let ifs: Vec<NetworkInterface> = vec![];
    let config = NetworkConfig::default();
    let (ip, name, vpn) = get_current_ip_internal(&ifs, &config);
    assert_eq!(ip, "127.0.0.1");
    assert!(name.is_none());
    assert!(!vpn);
}

#[test]
fn network_info_reports_preference_and_interfaces() {
    let ifs = vec![iface("eth0", "192.168.1.5", false)];
    let config = NetworkConfig {
        preferred_interface: None,
        preferred_ip: Some("192.168.1.5".to_string()),
    };
    let info = get_network_info(&config, ifs);
    assert_eq!(info.current_ip, "192.168.1.5");
    assert_eq!(info.current_interface.as_deref(), Some("eth0"));
    assert_eq!(info.preferred_ip.as_deref(), Some("192.168.1.5"));
    assert!(info.preferred_interface.is_none());
    assert_eq!(info.interfaces.len(), 1);
}

#[test]
fn list_servers_joins_store_and_runtime() {
    let mut store = CredStore::new();
    store_server_credentials(&mut store, "alpha", creds("u", "p", "/h", "/c"));
    let output =
        "alpha|Up 2 hours|0.0.0.0:2222->22/tcp\nbeta|Exited (0) 3 days ago|\ngarbage\n"
            .to_string();
    let servers = list_servers(&Some(output), &store);
    assert_eq!(servers.len(), 2);
    assert_eq!(servers[0].name, "alpha");
    assert_eq!(servers[0].status, "running");
    assert_eq!(servers[0].port, 2222);
    assert_eq!(servers[0].username, "u");
    assert_eq!(servers[0].password, "p");
    assert_eq!(servers[1].name, "beta");
    assert_eq!(servers[1].status, "stopped");
    assert_eq!(servers[1].port, 0);
    assert_eq!(servers[1].username, "");
    assert!(servers[1].created_at.is_none());
}

#[test]
fn list_servers_empty_or_failed_runtime() {
    let store = CredStore::new();
    assert!(list_servers(&None, &store).is_empty());
    assert!(list_servers(&Some("   \n".to_string()), &store).is_empty());
}

#[test]
fn denied_op_reports_fixed_message_and_keeps_store() {
    let mut store = CredStore::new();
    store_server_credentials(&mut store, "srv", creds("u", "p", "/h", "/c"));
    let r = apply_mutating_op(
        LifecycleOp::Remove,
        "srv",
        false,
        Ok(String::new()),
        &mut store,
    );
    assert!(!r.success);
    assert_eq!(r.error.as_deref(), Some("Not an SFTP container (atmoz/sftp)"));
    assert!(store.lookup("srv").is_some());
}

#[test]
fn stop_twice_succeeds_both_times() {
    let mut store = CredStore::new();
    store_server_credentials(&mut store, "srv", creds("u", "p", "/h", "/c"));
    let r1 = apply_mutating_op(LifecycleOp::Stop, "srv", true, Ok("srv".to_string()), &mut store);
    let r2 = apply_mutating_op(LifecycleOp::Stop, "srv", true, Ok("srv".to_string()), &mut store);
    assert!(r1.success && r1.error.is_none());
    assert!(r2.success && r2.error.is_none());
    assert!(store.lookup("srv").is_some());
}

#[test]
fn failed_command_passes_error_through() {
    let mut store = CredStore::new();
    let r = apply_mutating_op(
        LifecycleOp::Start,
        "srv",
        true,
        Err("no such container".to_string()),
        &mut store,
    );
    assert!(!r.success);
    assert_eq!(r.error.as_deref(), Some("no such container"));
}

#[test]
fn successful_remove_deletes_credentials() {
    let mut store = CredStore::new();
    store_server_credentials(&mut store, "srv", creds("u", "p", "/h", "/c"));
    let r = apply_mutating_op(LifecycleOp::Remove, "srv", true, Ok(String::new()), &mut store);
    assert!(r.success);
    assert!(store.lookup("srv").is_none());
}

#[test]
fn failed_remove_keeps_credentials() {
    let mut store = CredStore::new();
    store_server_credentials(&mut store, "srv", creds("u", "p", "/h", "/c"));
    let r = apply_mutating_op(
        LifecycleOp::Remove,
        "srv",
        true,
        Err("runtime busy".to_string()),
        &mut store,
    );
    assert!(!r.success);
    assert!(store.lookup("srv").is_some());
}

fn sample_config() -> ServerConfig {
    ServerConfig {
        name: "files".to_string(),
        port: 2222,
        host_path: "C:\\share\\data".to_string(),
        container_path: "/home/u/data".to_string(),
        username: "u".to_string(),
        password: "secret".to_string(),
    }
}

#[test]
fn create_command_builds_exact_arguments() {
    let ifs = vec![iface("eth0", "192.168.1.5", false)];
    let net = NetworkConfig::default();
    let cmd = create_server_command(&sample_config(), &ifs, &net);
    assert_eq!(cmd.name, "files");
    assert_eq!(cmd.port_mapping, "192.168.1.5:2222:22");
    assert_eq!(cmd.volume_mapping, "C:/share/data:/home/u/data");
    assert_eq!(cmd.user_config, "u:secret:1001");
}

#[test]
fn create_success_persists_credentials_and_reports_running() {
    let mut store = CredStore::new();
    let r = create_server_conclude(sample_config(), Ok("abc123".to_string()), &mut store);
    assert!(r.success);
    assert!(r.error.is_none());
    let server = r.server.unwrap();
    assert_eq!(server.name, "files");
    assert_eq!(server.status, "running");
    assert_eq!(server.port, 2222);
    assert_eq!(server.username, "u");
    let stored = store.lookup("files").unwrap();
    assert_eq!(stored.password, "secret");
    assert_eq!(stored.host_path, "C:\\share\\data");
}

#[test]
fn create_failure_persists_nothing() {
    let mut store = CredStore::new();
    let r = create_server_conclude(
        sample_config(),
        Err("name already in use".to_string()),
        &mut store,
    );
    assert!(!r.success);
    assert!(r.server.is_none());
    assert_eq!(r.error.as_deref(), Some("name already in use"));
    assert!(store.lookup("files").is_none());
}

#[test]
fn create_then_list_shows_new_server_and_remove_hides_it() {
    let mut store = CredStore::new();
    let r = create_server_conclude(sample_config(), Ok("abc123".to_string()), &mut store);
    assert!(r.success);
    let listing = "files|Up 1 second|192.168.1.5:2222->22/tcp\n".to_string();
    let servers = list_servers(&Some(listing), &store);
    assert_eq!(servers.len(), 1);
    assert_eq!(servers[0].name, "files");
    assert_eq!(servers[0].status, "running");
    assert_eq!(servers[0].username, "u");
    assert_eq!(servers[0].password, "secret");

    let r = apply_mutating_op(LifecycleOp::Remove, "files", true, Ok(String::new()), &mut store);
    assert!(r.success);
    let servers = list_servers(&Some("".to_string()), &store);
    assert!(servers.is_empty());
    assert!(store.lookup("files").is_none());
}

#[test]
fn status_sentinels() {
    assert_eq!(container_status_result(false, &Some("running".to_string())), "not sftp");
    assert_eq!(container_status_result(true, &Some("running\n".to_string())), "running");
    assert_eq!(container_status_result(true, &None), "not created");
}

#[test]
fn logs_denial_and_passthrough() {
    assert_eq!(container_logs_result(false, Ok("x".to_string())), "Not an SFTP container");
    assert_eq!(container_logs_result(true, Ok("log text".to_string())), "log text");
    assert_eq!(container_logs_result(true, Err("oops".to_string())), "oops");
}

#[test]
fn file_listing_denial() {
    let r = list_files_denied();
    assert_eq!(r.unwrap_err(), "Not an SFTP container");
}
