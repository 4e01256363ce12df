use twinz::address::{platform_of_separator, Platform, TwinzAddress};

#[test]
fn namespace_resolves_per_platform() {
    let a = TwinzAddress::Namespace("main".to_string());
    assert_eq!(a.resolve(), "/tmp/twinz.main.sock");
    assert_eq!(a.resolve_on(Platform::Unix), "/tmp/twinz.main.sock");
    assert_eq!(a.resolve_on(Platform::Windows), r"\\.\pipe\twinz.main");
    assert_eq!(a.resolve_on(Platform::Other), "main");
}

#[test]
fn identity_and_pid_resolve() {
    let a = TwinzAddress::Identity { name: "n".to_string(), id: "7".to_string() };
    assert_eq!(a.resolve(), "/tmp/twinz.n.7.sock");
    assert_eq!(a.resolve_on(Platform::Windows), r"\\.\pipe\twinz.n.7");
    assert_eq!(a.resolve_on(Platform::Other), "n.7");
    let p = TwinzAddress::Pid(1234);
    assert_eq!(p.resolve(), "/tmp/twinz.pid.1234.sock");
    assert_eq!(p.resolve_on(Platform::Windows), r"\\.\pipe\twinz.pid.1234");
    assert_eq!(p.resolve_on(Platform::Other), "pid.1234");
    let path = TwinzAddress::Path("/var/run/x.sock".to_string());
    assert_eq!(path.resolve(), "/var/run/x.sock");
}

#[test]
fn parses_addresses() {
    assert_eq!(TwinzAddress::parse("twinz://main"), TwinzAddress::Namespace("main".to_string()));
    assert_eq!(
        TwinzAddress::parse("twinz://twinz://x"),
        TwinzAddress::Namespace("x".to_string())
    );
    assert_eq!(TwinzAddress::parse(r"\\.\pipe\twinz.pid.42"), TwinzAddress::Pid(42));
    assert_eq!(
        TwinzAddress::parse("/tmp/twinz.pid.42.sock"),
        TwinzAddress::Path("/tmp/twinz.pid.42.sock".to_string())
    );
    assert_eq!(TwinzAddress::parse("/tmp/a.sock"), TwinzAddress::Path("/tmp/a.sock".to_string()));
    let via_from_str: TwinzAddress = "twinz://svc".parse().unwrap();
    assert_eq!(via_from_str, TwinzAddress::Namespace("svc".to_string()));
}

#[test]
fn windows_pid_pipe_reads_back() {
    for pid in [0u32, 1, 99, 4_294_967_295] {
        let pipe = TwinzAddress::Pid(pid).resolve_on(Platform::Windows);
        assert_eq!(TwinzAddress::parse(&pipe), TwinzAddress::Pid(pid));
    }
}

#[test]
fn namespace_url_resolves_to_socket() {
    let a = TwinzAddress::parse("twinz://orders");
    assert_eq!(a.resolve(), "/tmp/twinz.orders.sock");
}

#[test]
fn the_path_separator_picks_the_platform() {
    assert_eq!(platform_of_separator('\\'), Platform::Windows);
    assert_eq!(platform_of_separator('/'), Platform::Unix);
    let a = TwinzAddress::parse("main");
    let native = platform_of_separator(std::path::MAIN_SEPARATOR);
    assert_eq!(a.resolve(), a.resolve_on(native));
}
