use voxelproxy::address::split_host_port;

fn split(input: &str) -> (&str, u16) {
    let (n, port) = split_host_port(input, 25565);
    (&input[..n], port)
}

#[test]
fn host_without_port_gets_default() {
    assert_eq!(split("mc.example.org"), ("mc.example.org", 25565));
    assert_eq!(split(""), ("", 25565));
}

#[test]
fn host_with_port() {
    assert_eq!(split("mc.example.org:25570"), ("mc.example.org", 25570));
    assert_eq!(split("127.0.0.1:1"), ("127.0.0.1", 1));
    assert_eq!(split("host:+80"), ("host", 80));
    assert_eq!(split("host:0065535"), ("host", 65535));
}

#[test]
fn bad_port_keeps_whole_input() {
    assert_eq!(split("host:65536"), ("host:65536", 25565));
    assert_eq!(split("host:"), ("host:", 25565));
    assert_eq!(split("host:+"), ("host:+", 25565));
    assert_eq!(split("host:8a"), ("host:8a", 25565));
    assert_eq!(split("host:-1"), ("host:-1", 25565));
}

#[test]
fn ipv6_is_not_split() {
    assert_eq!(split("::1"), ("::1", 25565));
    assert_eq!(split("[::1]:25570"), ("[::1]:25570", 25565));
    assert_eq!(split("a:b:80"), ("a:b:80", 25565));
}
