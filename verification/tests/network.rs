use hoot::network::{detect_join_urls, is_wsl2_version_string, wsl2_network_warning, BindAddress, Ipv4};

fn v4(a: u8, b: u8, c: u8, d: u8) -> Ipv4 {
    Ipv4 { a, b, c, d }
}

#[test]
fn explicit_loopback_bind_is_not_advertised_as_lan_accessible() {
    let urls = detect_join_urls(BindAddress::V4(v4(127, 0, 0, 1)), 8123, None, &vec![]);
    assert_eq!(urls, vec!["http://127.0.0.1:8123"]);
}

#[test]
fn configured_public_url_takes_precedence() {
    let urls = detect_join_urls(
        BindAddress::V4(v4(127, 0, 0, 1)),
        8123,
        Some("http://hoot.local:8123/"),
        &vec![],
    );
    assert_eq!(urls[0], "http://hoot.local:8123");
}

#[test]
fn wsl2_kernel_version_string_is_detected() {
    let version = "Linux version 6.6.87.2-microsoft-standard-WSL2 (root@439a258ad544) \
         (gcc (GCC) 11.2.0, GNU ld (GNU Binutils) 2.37) #1 SMP PREEMPT_DYNAMIC";
    assert!(is_wsl2_version_string(version));
}

#[test]
fn generic_linux_kernel_version_string_is_not_detected() {
    let version = "Linux version 6.1.0-13-amd64 (debian-kernel@lists.debian.org) (gcc-12) #1 SMP";
    assert!(!is_wsl2_version_string(version));
}

#[test]
fn unspecified_bind_lists_private_interfaces_first_without_loopback_or_repeats() {
    let interfaces = vec![
        v4(8, 8, 8, 8),
        v4(127, 0, 0, 1),
        v4(192, 168, 1, 20),
        v4(10, 0, 0, 5),
        v4(192, 168, 1, 20),
        v4(172, 20, 0, 1),
    ];
    let urls = detect_join_urls(BindAddress::V4(v4(0, 0, 0, 0)), 8080, None, &interfaces);
    assert_eq!(
        urls,
        vec![
            "http://10.0.0.5:8080",
            "http://172.20.0.1:8080",
            "http://192.168.1.20:8080",
            "http://8.8.8.8:8080",
        ]
    );
}

#[test]
fn ipv6_bind_also_scans_interfaces() {
    let urls = detect_join_urls(BindAddress::V6, 9000, None, &vec![v4(192, 168, 0, 7)]);
    assert_eq!(urls, vec!["http://192.168.0.7:9000"]);
}

#[test]
fn explicit_lan_bind_is_used_as_it_is() {
    let urls = detect_join_urls(BindAddress::V4(v4(192, 168, 3, 4)), 80, None, &vec![v4(10, 1, 1, 1)]);
    assert_eq!(urls, vec!["http://192.168.3.4:80"]);
}

#[test]
fn no_interface_falls_back_to_loopback() {
    let urls = detect_join_urls(BindAddress::V4(v4(0, 0, 0, 0)), 8080, None, &vec![v4(127, 0, 0, 1)]);
    assert_eq!(urls, vec!["http://127.0.0.1:8080"]);
}

#[test]
fn public_url_is_not_repeated_and_keeps_its_place() {
    let urls = detect_join_urls(
        BindAddress::V4(v4(10, 0, 0, 2)),
        8080,
        Some("http://10.0.0.2:8080///"),
        &vec![],
    );
    assert_eq!(urls, vec!["http://10.0.0.2:8080"]);
}

#[test]
fn wsl2_warning_only_without_public_url() {
    let wsl = Some("Linux version 5.15.90.1-microsoft-standard-WSL2");
    let warning = wsl2_network_warning(None, wsl).unwrap();
    assert!(warning.starts_with("This server is running inside WSL2."));
    assert!(warning.contains("HOOT_PUBLIC_URL=http://<that-ip>:8080"));
    assert_eq!(wsl2_network_warning(Some("http://10.0.0.2:8080"), wsl), None);
    assert_eq!(wsl2_network_warning(None, Some("Linux version 6.1.0-13-amd64")), None);
    assert_eq!(wsl2_network_warning(None, None), None);
}

#[test]
fn wsl_detection_ignores_case() {
    assert!(is_wsl2_version_string("... MICROSOFT ..."));
    assert!(is_wsl2_version_string("wSl"));
    assert!(!is_wsl2_version_string("Linux"));
}
