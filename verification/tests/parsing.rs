use sftp_manager::gateway::{extract_port, is_sftp_container};
use sftp_manager::listing::list_files_from_listing;
use sftp_manager::network::{
    get_local_ip, is_vpn_interface, list_network_interfaces_internal,
};

#[test]
fn port_parse_example() {
    assert_eq!(extract_port("0.0.0.0:2222->22/tcp"), 2222);
}

#[test]
fn port_parse_no_arrow() {
    assert_eq!(extract_port("0.0.0.0:2222 22/tcp"), 0);
}

#[test]
fn port_parse_no_colon() {
    assert_eq!(extract_port("2222->22/tcp"), 0);
}

#[test]
fn port_parse_non_numeric() {
    assert_eq!(extract_port("0.0.0.0:abc->22/tcp"), 0);
}

#[test]
fn port_parse_arrow_before_colon() {
    assert_eq!(extract_port("ab->cd:22/tcp"), 0);
}

#[test]
fn port_parse_too_large() {
    assert_eq!(extract_port("0.0.0.0:70000->22/tcp"), 0);
}

#[test]
fn port_parse_empty() {
    assert_eq!(extract_port(""), 0);
}

#[test]
fn ownership_gate_exact_image() {
    assert!(is_sftp_container(&Some("atmoz/sftp\n".to_string())));
}

#[test]
fn ownership_gate_tagged_image() {
    assert!(is_sftp_container(&Some("atmoz/sftp:latest".to_string())));
}

#[test]
fn ownership_gate_other_image() {
    assert!(!is_sftp_container(&Some("nginx".to_string())));
}

#[test]
fn ownership_gate_prefix_is_not_enough() {
    assert!(!is_sftp_container(&Some("atmoz/sftpd".to_string())));
}

#[test]
fn ownership_gate_missing_container() {
    assert!(!is_sftp_container(&None));
}

#[test]
fn vpn_names_detected() {
    assert!(is_vpn_interface("wg0"));
    assert!(is_vpn_interface("tun0"));
    assert!(is_vpn_interface("ZeroTier One"));
    assert!(is_vpn_interface("TAILSCALE0"));
    assert!(is_vpn_interface("my-vpn-adapter"));
}

#[test]
fn ordinary_names_not_vpn() {
    assert!(!is_vpn_interface("eth0"));
    assert!(!is_vpn_interface("enp3s0"));
    assert!(!is_vpn_interface("wlan0"));
}

#[test]
fn listing_parse_example_line() {
    let output = "total 8\ndrwxr-xr-x 2 root root 4096 Jan 1 00:00 uploads\n".to_string();
    let entries = list_files_from_listing(Ok(output), "/data").unwrap();
    assert_eq!(entries.len(), 1);
    assert_eq!(entries[0].name, "uploads");
    assert_eq!(entries[0].path, "/data/uploads");
    assert!(entries[0].is_dir);
    assert_eq!(entries[0].size, 4096);
}

#[test]
fn listing_skips_dot_entries() {
    let output = "total 20\ndrwxr-xr-x 4 root root 4096 Jan 1 00:00 .\ndrwxr-xr-x 9 root root 4096 Jan 1 00:00 ..\n-rw-r--r-- 1 root root  120 Jan 1 00:00 notes.txt\n".to_string();
    let entries = list_files_from_listing(Ok(output), "/data").unwrap();
    assert_eq!(entries.len(), 1);
    assert_eq!(entries[0].name, "notes.txt");
    assert!(!entries[0].is_dir);
    assert_eq!(entries[0].size, 120);
}

#[test]
fn listing_sorts_directories_first_then_name_case_insensitive() {
    let output = "total 24\n-rw-r--r-- 1 root root 10 Jan 1 00:00 Beta.txt\ndrwxr-xr-x 2 root root 4096 Jan 1 00:00 zeta\n-rw-r--r-- 1 root root 10 Jan 1 00:00 alpha.txt\ndrwxr-xr-x 2 root root 4096 Jan 1 00:00 Alpha\n".to_string();
    let entries = list_files_from_listing(Ok(output), "/data").unwrap();
    let names: Vec<&str> = entries.iter().map(|e| e.name.as_str()).collect();
    assert_eq!(names, vec!["Alpha", "zeta", "alpha.txt", "Beta.txt"]);
}

#[test]
fn listing_name_with_spaces() {
    let output =
        "total 8\n-rw-r--r-- 1 root root 55 Jan 1 00:00 my report final.pdf\n".to_string();
    let entries = list_files_from_listing(Ok(output), "/data").unwrap();
    assert_eq!(entries[0].name, "my report final.pdf");
    assert_eq!(entries[0].path, "/data/my report final.pdf");
}

#[test]
fn listing_root_path_join() {
    let output = "total 8\ndrwxr-xr-x 2 root root 4096 Jan 1 00:00 uploads\n".to_string();
    let entries = list_files_from_listing(Ok(output), "/").unwrap();
    assert_eq!(entries[0].path, "/uploads");
}

#[test]
fn listing_trailing_slash_path_join() {
    let output = "total 8\ndrwxr-xr-x 2 root root 4096 Jan 1 00:00 uploads\n".to_string();
    let entries = list_files_from_listing(Ok(output), "/data/").unwrap();
    assert_eq!(entries[0].path, "/data/uploads");
}

#[test]
fn listing_unparseable_size_defaults_to_zero() {
    let output = "total 8\n-rw-r--r-- 1 root root big Jan 1 00:00 odd\n".to_string();
    let entries = list_files_from_listing(Ok(output), "/data").unwrap();
    assert_eq!(entries[0].size, 0);
}

#[test]
fn listing_short_lines_skipped() {
    let output = "total 8\ngarbage line\n\n".to_string();
    let entries = list_files_from_listing(Ok(output), "/data").unwrap();
    assert!(entries.is_empty());
}

#[test]
fn listing_error_passes_through() {
    let r = list_files_from_listing(Err("no such container".to_string()), "/data");
    assert_eq!(r.unwrap_err(), "no such container");
}

#[test]
fn interfaces_parse_address_listing() {
    let output = "1: lo: <LOOPBACK,UP,LOWER_UP> mtu 65536\n    inet 127.0.0.1/8 scope host lo\n2: eth0: <BROADCAST,MULTICAST,UP,LOWER_UP> mtu 1500\n    inet 192.168.1.5/24 brd 192.168.1.255 scope global dynamic eth0\n3: wg0: <POINTOPOINT,NOARP,UP,LOWER_UP> mtu 1420\n    inet 10.8.0.2/24 scope global wg0\n".to_string();
    let ifs = list_network_interfaces_internal(&Some(output));
    assert_eq!(ifs.len(), 3);
    assert_eq!(ifs[0].name, "All Interfaces");
    assert_eq!(ifs[0].address, "0.0.0.0");
    assert!(!ifs[0].is_vpn);
    assert_eq!(ifs[1].name, "eth0");
    assert_eq!(ifs[1].address, "192.168.1.5");
    assert!(!ifs[1].is_vpn);
    assert_eq!(ifs[2].name, "wg0");
    assert_eq!(ifs[2].address, "10.8.0.2");
    assert!(ifs[2].is_vpn);
}

#[test]
fn interfaces_unavailable_utility_leaves_synthetic_entry() {
    let ifs = list_network_interfaces_internal(&None);
    assert_eq!(ifs.len(), 1);
    assert_eq!(ifs[0].address, "0.0.0.0");
}

#[test]
fn interfaces_unparseable_output_leaves_synthetic_entry() {
    let ifs = list_network_interfaces_internal(&Some("### nothing useful ###".to_string()));
    assert_eq!(ifs.len(), 1);
}

#[test]
fn local_ip_takes_first_token() {
    let ip = get_local_ip(&Some("192.168.1.7 10.0.0.3 \n".to_string()));
    assert_eq!(ip, "192.168.1.7");
}

#[test]
fn local_ip_skips_loopback() {
    let ip = get_local_ip(&Some("127.0.0.1\n".to_string()));
    assert_eq!(ip, "127.0.0.1");
}

#[test]
fn local_ip_fallback_when_utility_fails() {
    assert_eq!(get_local_ip(&None), "127.0.0.1");
}
