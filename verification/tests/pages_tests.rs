use miniz_oxide::inflate::decompress_to_vec;
use zhtta::codec::deflate_bytes;
use zhtta::pages::{
    counter_page_html, dynamic_page_accepted, dynamic_page_commands, render_dynamic_page,
    static_file_headers, COUNTER_STYLE, HTTP_BAD, HTTP_OK, HTTP_OK_BIN, HTTP_OK_BIN_DEFLATE,
    HTTP_OK_DEFLATE,
};
use zhtta::server::WebServer;

fn expected_counter_page(count: usize) -> String {
    format!(
        "{}<h1>Greetings, Krusty!</h1>\n                     <h2>Visitor count: {}</h2></body></html>\r\n",
        COUNTER_STYLE, count
    )
}

#[test]
fn counter_page_text() {
    assert_eq!(counter_page_html(7), expected_counter_page(7).into_bytes());
    assert!(COUNTER_STYLE.starts_with("<doctype !html><html><head><title>Hello, Rust!</title>\n"));
    assert!(COUNTER_STYLE.ends_with("</style></head>\n             <body>"));
}

#[test]
fn counter_response_is_compressed_page() {
    let r = WebServer::respond_with_counter_page(42);
    let head = HTTP_OK_DEFLATE.as_bytes();
    assert_eq!(&r[..head.len()], head);
    let body = &r[head.len()..];
    let page = expected_counter_page(42).into_bytes();
    assert_ne!(body, &page[..]);
    assert_eq!(decompress_to_vec(body).unwrap(), page);
}

#[test]
fn deflate_round_trips() {
    let data = b"aaaaaaaaaaaaaaaaaaaaaaaaaaaaaaaaaaaaaaaaaaaaaaaaaaaaaaaaaaaa".to_vec();
    let packed = deflate_bytes(&data);
    assert!(packed.len() < data.len());
    assert_eq!(decompress_to_vec(&packed).unwrap(), data);
}

#[test]
fn error_page_text() {
    let r = WebServer::respond_with_error_page(b"/srv/www/missing.html");
    let expected = format!("{}Cannot open: /srv/www/missing.html", HTTP_BAD);
    assert_eq!(r, expected.into_bytes());
    assert_eq!(HTTP_BAD, "HTTP/1.1 404 Not Found\r\n\r\n");
}

#[test]
fn static_headers_by_kind() {
    assert_eq!(static_file_headers(b"/a/index.html", false), HTTP_OK);
    assert_eq!(static_file_headers(b"/a/index.html", true), HTTP_OK_DEFLATE);
    assert_eq!(static_file_headers(b"/a/pic.png", false), HTTP_OK_BIN);
    assert_eq!(static_file_headers(b"/a/pic.png", true), HTTP_OK_BIN_DEFLATE);
}

#[test]
fn page_without_directives_is_sent_as_it_is() {
    let content = b"<html>no directives --> here</html>";
    assert!(dynamic_page_accepted(content));
    assert!(dynamic_page_commands(content).is_empty());
    let outputs: Vec<Vec<u8>> = Vec::new();
    assert_eq!(render_dynamic_page(content, &outputs), content.to_vec());
}

#[test]
fn exec_directive_is_replaced_by_output() {
    let content = b"<p>Date: <!--#exec cmd=\"date\" -->tail dropped</p><!--#echo var=\"x\" -->gone";
    assert!(dynamic_page_accepted(content));
    assert_eq!(dynamic_page_commands(content), vec![b"date".to_vec()]);
    let outputs = vec![b"Mon".to_vec()];
    assert_eq!(render_dynamic_page(content, &outputs), b"<p>Date: Mon".to_vec());
}

#[test]
fn pieces_without_close_are_copied() {
    let content = b"a<!--b<!--#exec cmd=\"ls -l\"-->c";
    assert!(dynamic_page_accepted(content));
    assert_eq!(dynamic_page_commands(content), vec![b"ls -l".to_vec()]);
    let outputs = vec![b"OUT".to_vec()];
    assert_eq!(render_dynamic_page(content, &outputs), b"abOUT".to_vec());
}

#[test]
fn unreadable_pages_are_refused() {
    // A directive shorter than ten bytes.
    assert!(!dynamic_page_accepted(b"x<!--short-->y"));
    // An exec directive without a quote.
    assert!(!dynamic_page_accepted(b"x<!--#exec cmd=ls-->y"));
    // Not UTF-8.
    assert!(!dynamic_page_accepted(&[0x66, 0xff, 0x66]));
    // A tenth byte inside a character.
    assert!(!dynamic_page_accepted("x<!--123456789\u{e9}-->".as_bytes()));
    // Not UTF-8 matters even without directives.
    assert!(!dynamic_page_accepted(&[0xc3]));
}

#[test]
fn dynamic_response_is_compressed_body() {
    let content = b"<!--#exec cmd=\"whoami\"-->";
    let outputs = vec![b"root\n".to_vec()];
    let r = WebServer::respond_with_dynamic_page(content, &outputs);
    let head = HTTP_OK_DEFLATE.as_bytes();
    assert_eq!(&r[..head.len()], head);
    assert_eq!(decompress_to_vec(&r[head.len()..]).unwrap(), b"root\n".to_vec());
}
