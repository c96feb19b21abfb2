use ws_framer::{WsUrl, WsUrlOwned};

#[test]
fn validate_ws_url_parse() {
    assert_eq!(
        WsUrl::from_str("ws://127.0.0.1"),
        Some(WsUrl { host: "127.0.0.1", ip: "127.0.0.1", port: 80, path: "/", secure: false })
    );

    assert_eq!(
        WsUrl::from_str("wss://127.0.0.1"),
        Some(WsUrl { host: "127.0.0.1", ip: "127.0.0.1", port: 443, path: "/", secure: true })
    );

    assert_eq!(
        WsUrl::from_str("ws://127.0.0.1:4321"),
        Some(WsUrl {
            host: "127.0.0.1:4321",
            ip: "127.0.0.1",
            port: 4321,
            path: "/",
            secure: false
        })
    );

    assert_eq!(
        WsUrl::from_str("wss://127.0.0.1:4321"),
        Some(WsUrl {
            host: "127.0.0.1:4321",
            ip: "127.0.0.1",
            port: 4321,
            path: "/",
            secure: true
        })
    );

    assert_eq!(
        WsUrl::from_str("ws://127.0.0.1:4321/cxz/ewq"),
        Some(WsUrl {
            host: "127.0.0.1:4321",
            ip: "127.0.0.1",
            port: 4321,
            path: "/cxz/ewq",
            secure: false
        })
    );

    assert_eq!(
        WsUrl::from_str("wss://127.0.0.1:4321/cxz/ewq"),
        Some(WsUrl {
            host: "127.0.0.1:4321",
            ip: "127.0.0.1",
            port: 4321,
            path: "/cxz/ewq",
            secure: true
        })
    );

    assert_eq!(
        WsUrl::from_str("ws://127.0.0.1/cxz/ewq"),
        Some(WsUrl {
            host: "127.0.0.1",
            ip: "127.0.0.1",
            port: 80,
            path: "/cxz/ewq",
            secure: false
        })
    );

    assert_eq!(
        WsUrl::from_str("wss://127.0.0.1/cxz/ewq"),
        Some(WsUrl {
            host: "127.0.0.1",
            ip: "127.0.0.1",
            port: 443,
            path: "/cxz/ewq",
            secure: true
        })
    );

    assert_eq!(WsUrl::from_str("wsc://127.0.0.1/cxz/ewq"), None);
    assert_eq!(WsUrl::from_str("ws://127.0.0.1:4321:123/cxz/ewq"), None);
}

#[test]
fn ws_url_owned_copies_fields() {
    let url = WsUrl::from_str("wss://example.test:9001/chat").unwrap();
    let owned = WsUrlOwned::new(&url);
    assert_eq!(owned.host, "example.test:9001");
    assert_eq!(owned.ip, "example.test");
    assert_eq!(owned.port, 9001);
    assert_eq!(owned.path, "/chat");
    assert!(owned.secure);
}

#[test]
fn ws_url_bad_port_falls_back_to_default() {
    let url = WsUrl::from_str("ws://h:abc").unwrap();
    assert_eq!(url.port, 80);
    assert_eq!(url.host, "h:abc");
    assert_eq!(url.ip, "h");
}
