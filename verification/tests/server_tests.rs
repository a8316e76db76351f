use miniz_oxide::inflate::decompress_to_vec;
use zhtta::pages::{HTTP_OK, HTTP_OK_BIN_DEFLATE, HTTP_OK_DEFLATE};
use zhtta::peer::PeerAddr;
use zhtta::server::{Action, Event, WebServer};

fn server() -> WebServer {
    WebServer::new("127.0.0.1".to_string(), 4414, "./www".to_string())
}

fn connection(peer: &str, request: &str) -> Event {
    let mut buf = vec![0u8; 500];
    buf[..request.len()].copy_from_slice(request.as_bytes());
    Event::Connection { peer_name: peer.as_bytes().to_vec(), request: buf }
}

fn inspected(peer: &str, path: &str, found: bool, is_dir: bool) -> Event {
    Event::Inspected {
        peer_name: peer.as_bytes().to_vec(),
        path: path.as_bytes().to_vec(),
        found,
        is_dir,
        size: 10,
    }
}

#[test]
fn new_server_keeps_its_address() {
    let s = server();
    assert_eq!(s.ip(), "127.0.0.1");
    assert_eq!(s.port(), 4414);
    assert_eq!(s.www_dir(), "./www");
}

#[test]
fn counter_page_counts_visitors() {
    let mut s = server();
    let e = connection("10.0.0.1:1", "GET /x HTTP/1.1\r\n");
    assert!(s.admits(&e));
    let _ = s.run(e);
    let actions = s.run(connection("10.0.0.1:2", "GET / HTTP/1.1\r\n"));
    assert_eq!(actions.len(), 1);
    match &actions[0] {
        Action::Send { response } => {
            let head = HTTP_OK_DEFLATE.as_bytes();
            let page = String::from_utf8(decompress_to_vec(&response[head.len()..]).unwrap()).unwrap();
            assert!(page.contains("<h2>Visitor count: 2</h2>"));
        },
        _ => panic!("expected the counter page"),
    }
}

#[test]
fn short_request_closes_connection() {
    let mut s = server();
    let actions = s.run(connection("10.0.0.1:1", "GARBAGE"));
    assert!(matches!(actions[0], Action::Close));
}

#[test]
fn invalid_utf8_is_counted_then_dropped() {
    let mut s = server();
    let mut bad = b"GET / HTTP/1.1".to_vec();
    bad.push(0xff);
    let e2 = Event::Connection { peer_name: b"10.0.0.1:1".to_vec(), request: bad };
    assert!(s.admits(&e2));
    assert!(matches!(s.run(e2)[0], Action::Close));
    let actions = s.run(connection("10.0.0.1:2", "GET / HTTP/1.1\r\n"));
    match &actions[0] {
        Action::Send { response } => {
            let head = HTTP_OK_DEFLATE.as_bytes();
            let page = String::from_utf8(decompress_to_vec(&response[head.len()..]).unwrap()).unwrap();
            assert!(page.contains("<h2>Visitor count: 2</h2>"));
        },
        _ => panic!("expected the counter page"),
    }
}

#[test]
fn other_paths_are_looked_up() {
    let mut s = server();
    let actions = s.run(connection("10.0.0.1:1", "GET /a/b.html HTTP/1.1\r\n"));
    match &actions[0] {
        Action::Inspect { peer_name, path } => {
            assert_eq!(peer_name, &b"10.0.0.1:1".to_vec());
            assert_eq!(path, &b"./a/b.html".to_vec());
        },
        _ => panic!("expected a look-up"),
    }
}

#[test]
fn missing_and_dynamic_files() {
    let mut s = server();
    let actions = s.run(inspected("10.0.0.1:1", "/www/none.html", false, false));
    match &actions[0] {
        Action::Send { response } => assert!(response.ends_with(b"Cannot open: /www/none.html")),
        _ => panic!("expected the error page"),
    }
    let actions = s.run(inspected("10.0.0.1:1", "/www/d.shtml", true, false));
    assert!(matches!(&actions[0], Action::RunDynamic { path } if path == &b"/www/d.shtml".to_vec()));
}

#[test]
fn responders_are_limited_and_waiting_request_follows() {
    let mut s = server();
    let mut served = Vec::new();
    for i in 0..5 {
        let peer = format!("10.0.0.{}:100", i);
        let path = format!("/www/f{}.bin", i);
        let e = inspected(&peer, &path, true, false);
        assert!(s.admits(&e));
        let actions = s.run(e);
        assert!(matches!(&actions[0], Action::Hold { peer_name } if peer_name == &peer.as_bytes().to_vec()));
        for a in &actions[1..] {
            match a {
                Action::Serve { request } => served.push(String::from_utf8(request.path.clone()).unwrap()),
                _ => panic!("expected responders"),
            }
        }
    }
    // Four responders start (three, then one more while three run); the fifth request waits.
    assert_eq!(served, vec!["/www/f0.bin", "/www/f1.bin", "/www/f2.bin", "/www/f3.bin"]);
    assert!(s.admits(&Event::ResponderFinished));
    let actions = s.run(Event::ResponderFinished);
    assert_eq!(actions.len(), 1);
    assert!(matches!(&actions[0], Action::Serve { request } if request.path == b"/www/f4.bin".to_vec()));
}

#[test]
fn finishing_with_nothing_waiting_starts_nothing() {
    let mut s = server();
    let _ = s.run(inspected("10.0.0.1:1", "/www/a.bin", true, false));
    assert!(s.admits(&Event::ResponderFinished));
    let actions = s.run(Event::ResponderFinished);
    assert!(actions.is_empty());
    assert!(!s.admits(&Event::ResponderFinished));
}

#[test]
fn short_peer_name_is_held_but_never_served() {
    let mut s = server();
    let actions = s.run(inspected("", "/www/a.bin", true, false));
    assert_eq!(actions.len(), 1);
    assert!(matches!(&actions[0], Action::Hold { peer_name } if peer_name.is_empty()));
    assert!(!s.admits(&Event::ResponderFinished));
}

#[test]
fn static_files_are_cached_compressed() {
    let mut s = server();
    let path = b"/www/index.html".to_vec();
    assert_eq!(s.respond_with_static_file(&path), None);
    let content = b"<html>hello hello hello hello</html>".to_vec();
    let first = s.respond_with_file_contents(path.clone(), &content);
    let mut expected = HTTP_OK.as_bytes().to_vec();
    expected.extend_from_slice(&content);
    assert_eq!(first, expected);
    let second = s.respond_with_static_file(&path).unwrap();
    let head = HTTP_OK_DEFLATE.as_bytes();
    assert_eq!(&second[..head.len()], head);
    assert_eq!(decompress_to_vec(&second[head.len()..]).unwrap(), content);
    let bin = b"/www/a.bin".to_vec();
    let _ = s.respond_with_file_contents(bin.clone(), b"xyz");
    let cached = s.respond_with_static_file(&bin).unwrap();
    assert!(cached.starts_with(HTTP_OK_BIN_DEFLATE.as_bytes()));
}

#[test]
fn peer_names() {
    assert_eq!(WebServer::get_peer_name(None), Vec::<u8>::new());
    assert_eq!(
        WebServer::get_peer_name(Some(PeerAddr::V4(128, 143, 0, 7, 4414))),
        b"128.143.0.7:4414".to_vec()
    );
    assert_eq!(
        WebServer::get_peer_name(Some(PeerAddr::V6(b"::1".to_vec(), 80))),
        b"[::1]:80".to_vec()
    );
}
