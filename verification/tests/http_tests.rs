use zhtta::http::{counter_requested, file_extension, parse_request_path, route_request, Route};

fn buffer(request: &[u8]) -> Vec<u8> {
    let mut buf = vec![0u8; 500];
    buf[..request.len()].copy_from_slice(request);
    buf
}

#[test]
fn request_path_is_second_field() {
    let buf = buffer(b"GET /index.html HTTP/1.1\r\nHost: x\r\n\r\n");
    assert_eq!(parse_request_path(&buf), Some(b"./index.html".to_vec()));
}

#[test]
fn request_with_two_fields_is_dropped() {
    let buf = buffer(b"GET /index.html");
    assert_eq!(parse_request_path(&buf), None);
    assert_eq!(parse_request_path(b""), None);
}

#[test]
fn root_request_is_counter() {
    let buf = buffer(b"GET / HTTP/1.1\r\n\r\n");
    let path = parse_request_path(&buf).unwrap();
    assert_eq!(path, b"./".to_vec());
    assert!(counter_requested(&path));
    assert!(!counter_requested(b"./a"));
}

#[test]
fn extension_of_file_name() {
    assert_eq!(file_extension(b"/srv/www/page.shtml"), Some(b"shtml".to_vec()));
    assert_eq!(file_extension(b"/srv/www/a.tar.gz"), Some(b"gz".to_vec()));
    assert_eq!(file_extension(b"/srv/www/.hidden"), None);
    assert_eq!(file_extension(b"/srv/www/noext"), None);
    assert_eq!(file_extension(b"/srv/w.w/noext"), None);
    assert_eq!(file_extension(b"/srv/www/.."), None);
    assert_eq!(file_extension(b"/srv/www/trailing."), Some(b"".to_vec()));
}

#[test]
fn routes() {
    assert!(matches!(route_request(b"/www/x.html", false, false), Route::Missing));
    assert!(matches!(route_request(b"/www/dir", true, true), Route::Missing));
    assert!(matches!(route_request(b"/www/x.shtml", true, false), Route::Dynamic));
    assert!(matches!(route_request(b"/www/x.shtmlx", true, false), Route::Static));
    assert!(matches!(route_request(b"/www/x.html", true, false), Route::Static));
}
