//! Tests of the server core: route registration and dispatch, the static
//! cache, the connection registry, and the default settings.

use rust_net::socket::build_200;
use rust_net::{
    FileType, Outcome, Server, Settings, Sockets, SocketSettings, StaticFiles,
    StaticFilesSettings,
};

type Ctx = u32;
type Conn = ();
type Handler = fn(&mut Ctx, &mut Conn, Vec<u8>);

fn handler_one(ctx: &mut Ctx, _conn: &mut Conn, _data: Vec<u8>) {
    *ctx += 1;
}

fn handler_two(ctx: &mut Ctx, _conn: &mut Conn, _data: Vec<u8>) {
    *ctx += 2;
}

fn no_static_settings() -> Settings {
    Settings {
        address: [127, 0, 0, 1],
        port: 3000,
        socket: SocketSettings { max_payloads: 5 },
        static_files: None,
    }
}

fn cached_settings() -> Settings {
    Settings {
        address: [127, 0, 0, 1],
        port: 3000,
        socket: SocketSettings { max_payloads: 5 },
        static_files: Some(StaticFilesSettings {
            root_path: "public".to_string(),
            enable_cache: true,
        }),
    }
}

fn on_demand_settings() -> Settings {
    Settings {
        address: [127, 0, 0, 1],
        port: 3000,
        socket: SocketSettings { max_payloads: 5 },
        static_files: Some(StaticFilesSettings {
            root_path: "public".to_string(),
            enable_cache: false,
        }),
    }
}

#[test]
fn default_settings_values() {
    let s = Settings::default();
    assert_eq!(s.address, [127, 0, 0, 1]);
    assert_eq!(s.port, 3000);
    assert_eq!(s.socket.max_payloads, 5);
    let sf = s.static_files.expect("static files configured by default");
    assert_eq!(sf.root_path, "public");
    assert!(!sf.enable_cache);
}

#[test]
fn get_route_dispatch_builds_success_frame() {
    let mut server: Server<Ctx, Conn, Handler> = Server::new(no_static_settings(), 0);
    server.add_get_route("test", handler_one);
    let data = b"GET /test HTTP/1.1\r\n\r\n".to_vec();
    match server.dispatch(&data) {
        Outcome::Handler(h) => {
            assert!(h == handler_one as Handler);
            let frame = build_200(b"Test");
            assert_eq!(
                frame,
                b"HTTP/1.1 200 OK\r\nContent-Length: 4\r\n\r\nTest".to_vec()
            );
        }
        _ => panic!("expected the registered GET handler"),
    }
}

#[test]
fn reregistering_a_path_overwrites_its_handler() {
    let mut server: Server<Ctx, Conn, Handler> = Server::new(no_static_settings(), 0);
    server.add_get_route("p", handler_one);
    server.add_get_route("p", handler_two);
    let data = b"GET /p HTTP/1.1\r\n\r\n".to_vec();
    match server.dispatch(&data) {
        Outcome::Handler(h) => assert!(h == handler_two as Handler),
        _ => panic!("expected the last-registered handler"),
    }
}

#[test]
fn missing_route_is_not_found() {
    let server: Server<Ctx, Conn, Handler> = Server::new(no_static_settings(), 0);
    let data = b"GET /missing HTTP/1.1\r\n\r\n".to_vec();
    assert!(matches!(server.dispatch(&data), Outcome::NotFound));
}

#[test]
fn missing_route_and_cache_miss_is_not_found() {
    let mut server: Server<Ctx, Conn, Handler> = Server::new(cached_settings(), 0);
    if let Some(sf) = &mut server.static_files {
        sf.add_entry(b"present.html".to_vec(), b"<p>x</p>".to_vec());
    }
    let data = b"GET /missing HTTP/1.1\r\n\r\n".to_vec();
    assert!(matches!(server.dispatch(&data), Outcome::NotFound));
}

#[test]
fn post_route_dispatch() {
    let mut server: Server<Ctx, Conn, Handler> = Server::new(no_static_settings(), 0);
    server.add_post_route("p", handler_one);
    let data = b"POST /p HTTP/1.1\r\n\r\n".to_vec();
    match server.dispatch(&data) {
        Outcome::Handler(h) => assert!(h == handler_one as Handler),
        _ => panic!("expected the registered POST handler"),
    }
}

#[test]
fn options_dispatches_through_post_table() {
    let mut server: Server<Ctx, Conn, Handler> = Server::new(no_static_settings(), 0);
    server.add_post_route("p", handler_one);
    let data = b"OPTIONS /p HTTP/1.1\r\n\r\n".to_vec();
    match server.dispatch(&data) {
        Outcome::Handler(h) => assert!(h == handler_one as Handler),
        _ => panic!("expected OPTIONS to reach the POST handler"),
    }
}

#[test]
fn unrecognized_method_is_ignored() {
    let server: Server<Ctx, Conn, Handler> = Server::new(no_static_settings(), 0);
    assert!(matches!(
        server.dispatch(&b"DELETE /x HTTP/1.1\r\n\r\n".to_vec()),
        Outcome::Ignore
    ));
    assert!(matches!(server.dispatch(&Vec::new()), Outcome::Ignore));
}

#[test]
fn empty_get_path_serves_default_document() {
    let mut server: Server<Ctx, Conn, Handler> = Server::new(cached_settings(), 0);
    if let Some(sf) = &mut server.static_files {
        sf.add_entry(b"index.html".to_vec(), b"<h1>home</h1>".to_vec());
    }
    let data = b"GET / HTTP/1.1\r\n\r\n".to_vec();
    match server.dispatch(&data) {
        Outcome::File(t, content) => {
            assert_eq!(t, FileType::Html);
            assert_eq!(content, b"<h1>home</h1>".to_vec());
        }
        _ => panic!("expected the cached default document"),
    }
}

#[test]
fn cached_file_round_trips_through_file_frame() {
    let mut server: Server<Ctx, Conn, Handler> = Server::new(cached_settings(), 0);
    if let Some(sf) = &mut server.static_files {
        sf.add_entry(b"h.txt".to_vec(), b"hello".to_vec());
    }
    let data = b"GET /h.txt HTTP/1.1\r\n\r\n".to_vec();
    match server.dispatch(&data) {
        Outcome::File(t, content) => {
            assert_eq!(t, FileType::Text);
            assert_eq!(content, b"hello".to_vec());
            let frame = rust_net::socket::build_file(&(t, content.clone()));
            let expected =
                b"HTTP/1.1 200 OK\r\nAccess-Control-Allow-Origin: *\r\nContent-Type: text/plain\r\nContent-Length: 5\r\n\r\nhello"
                    .to_vec();
            assert_eq!(frame, expected);
            assert!(frame.ends_with(&content));
        }
        _ => panic!("expected the cached file"),
    }
}

#[test]
fn cache_miss_falls_through_to_get_route() {
    let mut server: Server<Ctx, Conn, Handler> = Server::new(cached_settings(), 0);
    if let Some(sf) = &mut server.static_files {
        sf.add_entry(b"a.html".to_vec(), b"x".to_vec());
    }
    server.add_get_route("dynamic", handler_one);
    let data = b"GET /dynamic HTTP/1.1\r\n\r\n".to_vec();
    match server.dispatch(&data) {
        Outcome::Handler(h) => assert!(h == handler_one as Handler),
        _ => panic!("expected the GET route on a cache miss"),
    }
}

#[test]
fn disabled_cache_asks_for_a_disk_read() {
    let mut server: Server<Ctx, Conn, Handler> = Server::new(on_demand_settings(), 0);
    server.add_get_route("dynamic", handler_one);
    let data = b"GET /dynamic HTTP/1.1\r\n\r\n".to_vec();
    let path = match server.dispatch(&data) {
        Outcome::TryDisk(path) => {
            assert_eq!(path, b"dynamic".to_vec());
            path
        }
        _ => panic!("expected a disk read request"),
    };
    // A file the disk read found is served.
    match server.dispatch_after_read(&path, Some((FileType::Png, b"img".to_vec()))) {
        Outcome::File(t, content) => {
            assert_eq!(t, FileType::Png);
            assert_eq!(content, b"img".to_vec());
        }
        _ => panic!("expected the file read from disk"),
    }
    // A failed disk read falls through to the GET routes.
    match server.dispatch_after_read(&path, None) {
        Outcome::Handler(h) => assert!(h == handler_one as Handler),
        _ => panic!("expected the GET route after a failed read"),
    }
    // Neither route nor file yields not-found.
    let other = b"gone".to_vec();
    assert!(matches!(
        server.dispatch_after_read(&other, None),
        Outcome::NotFound
    ));
}

#[test]
fn cache_build_is_order_independent() {
    let forward = vec![
        (b"a.html".to_vec(), b"<p>a</p>".to_vec()),
        (b"b.css".to_vec(), b"b{}".to_vec()),
        (b"c".to_vec(), b"raw".to_vec()),
    ];
    let backward = vec![
        (b"c".to_vec(), b"raw".to_vec()),
        (b"b.css".to_vec(), b"b{}".to_vec()),
        (b"a.html".to_vec(), b"<p>a</p>".to_vec()),
    ];
    let first = StaticFiles::build("public".to_string(), &forward);
    let second = StaticFiles::build("public".to_string(), &backward);
    for path in [b"a.html".as_slice(), b"b.css".as_slice(), b"c".as_slice()] {
        let x = first.get(path).expect("entry in first build");
        let y = second.get(path).expect("entry in second build");
        assert_eq!(x.0, y.0);
        assert_eq!(x.1, y.1);
    }
    assert_eq!(first.get(b"a.html").unwrap().0, FileType::Html);
    assert_eq!(first.get(b"b.css").unwrap().0, FileType::Css);
    assert_eq!(first.get(b"c").unwrap().0, FileType::Unknown);
    assert!(first.get(b"missing").is_none());
}

#[test]
fn cache_disabled_lookup_is_none() {
    let mut sf = StaticFiles::new("public".to_string(), false);
    sf.add_entry(b"a.html".to_vec(), b"x".to_vec());
    assert!(sf.get(b"a.html").is_none());
}

#[test]
fn registry_tokens_start_at_one_and_count_up() {
    let mut sockets: Sockets<&'static str> = Sockets::new(SocketSettings { max_payloads: 5 });
    assert_eq!(sockets.max_payloads(), 5);
    let t1 = sockets.insert("first");
    let t2 = sockets.insert("second");
    assert_eq!(t1, 1);
    assert_eq!(t2, 2);
}

#[test]
fn removed_token_is_unreachable() {
    let mut sockets: Sockets<&'static str> = Sockets::new(SocketSettings { max_payloads: 5 });
    let t1 = sockets.insert("first");
    let t2 = sockets.insert("second");
    assert_eq!(sockets.remove(t2), Some("second"));
    assert_eq!(sockets.remove(t2), None);
    assert_eq!(sockets.remove(t1), Some("first"));
    assert_eq!(sockets.remove(t1), None);
    // A token is reused only after removal has reduced the live count.
    let t3 = sockets.insert("third");
    assert_eq!(t3, 1);
}

#[test]
fn absent_token_removal_is_a_no_op() {
    let mut sockets: Sockets<u8> = Sockets::new(SocketSettings { max_payloads: 5 });
    assert_eq!(sockets.remove(7), None);
    let t = sockets.insert(42);
    assert_eq!(sockets.remove(7), None);
    assert_eq!(sockets.remove(t), Some(42));
}

#[test]
fn short_get_payload_uses_default_document_path() {
    let mut server: Server<Ctx, Conn, Handler> = Server::new(no_static_settings(), 0);
    server.add_get_route("index.html", handler_one);
    let data = b"G".to_vec();
    match server.dispatch(&data) {
        Outcome::Handler(h) => assert!(h == handler_one as Handler),
        _ => panic!("expected the default-document route"),
    }
}
