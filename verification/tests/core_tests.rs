//! Tests of the byte-level helpers: request-line scanning, extensions and
//! MIME classification, percent-space decoding, response frames, and the
//! payload body extractors.

use rust_net::response::Response;
use rust_net::socket::{absorb_read, build_200, build_400, build_404, build_500, build_file};
use rust_net::static_files::decode_spaces;
use rust_net::{get_extension, read_data_until_space, FileType};

#[test]
fn path_token_stops_at_space() {
    let data = b"GET /abc def".to_vec();
    assert_eq!(read_data_until_space(&data, 5), b"abc");
}

#[test]
fn path_token_runs_to_end_without_space() {
    let data = b"GET /abc".to_vec();
    assert_eq!(read_data_until_space(&data, 5), b"abc");
}

#[test]
fn path_token_empty_when_start_out_of_range() {
    let data = b"GET".to_vec();
    assert_eq!(read_data_until_space(&data, 5), b"");
    assert_eq!(read_data_until_space(&data, 3), b"");
}

#[test]
fn extension_after_last_dot() {
    assert_eq!(get_extension(b"index.html"), b"html");
    assert_eq!(get_extension(b"archive.tar.gz"), b"gz");
    assert_eq!(get_extension(b".png"), b"png");
}

#[test]
fn extension_empty_cases() {
    assert_eq!(get_extension(b""), b"");
    assert_eq!(get_extension(b"x"), b"");
    assert_eq!(get_extension(b"name."), b"");
    assert_eq!(get_extension(b"noext"), b"");
}

#[test]
fn uppercase_extension_is_unknown() {
    assert_eq!(get_extension(b"image.PNG"), b"PNG");
    assert_eq!(FileType::get(b"image.PNG"), FileType::Unknown);
}

#[test]
fn extension_table_is_exact() {
    assert_eq!(FileType::get(b"a.html"), FileType::Html);
    assert_eq!(FileType::get(b"a.txt"), FileType::Text);
    assert_eq!(FileType::get(b"a.css"), FileType::Css);
    assert_eq!(FileType::get(b"a.js"), FileType::Js);
    assert_eq!(FileType::get(b"a.pdf"), FileType::Pdf);
    assert_eq!(FileType::get(b"a.json"), FileType::Json);
    assert_eq!(FileType::get(b"a.zip"), FileType::Zip);
    assert_eq!(FileType::get(b"a.gif"), FileType::Gif);
    assert_eq!(FileType::get(b"a.jpg"), FileType::Jpeg);
    assert_eq!(FileType::get(b"a.jpeg"), FileType::Jpeg);
    assert_eq!(FileType::get(b"a.png"), FileType::Png);
    assert_eq!(FileType::get(b"a.svg"), FileType::Svg);
    assert_eq!(FileType::get(b"a.xml"), FileType::Xml);
    assert_eq!(FileType::get(b"a.mpeg"), FileType::Mpeg);
    assert_eq!(FileType::get(b"a.mp4"), FileType::Mp4);
    assert_eq!(FileType::get(b"a.ico"), FileType::Ico);
    assert_eq!(FileType::get(b"a.exe"), FileType::Unknown);
    assert_eq!(FileType::get(b"plain"), FileType::Unknown);
}

#[test]
fn mime_strings() {
    assert_eq!(FileType::Html.to_bytes(), b"text/html");
    assert_eq!(FileType::Text.to_bytes(), b"text/plain");
    assert_eq!(FileType::Css.to_bytes(), b"text/css");
    assert_eq!(FileType::Js.to_bytes(), b"application/javascript");
    assert_eq!(FileType::Pdf.to_bytes(), b"application/pdf");
    assert_eq!(FileType::Json.to_bytes(), b"application/json");
    assert_eq!(FileType::Zip.to_bytes(), b"application/zip");
    assert_eq!(FileType::Gif.to_bytes(), b"image/gif");
    assert_eq!(FileType::Jpeg.to_bytes(), b"image/jpeg");
    assert_eq!(FileType::Png.to_bytes(), b"image/png");
    assert_eq!(FileType::Svg.to_bytes(), b"image/svg+xml");
    assert_eq!(FileType::Xml.to_bytes(), b"text/xml");
    assert_eq!(FileType::Mpeg.to_bytes(), b"video/mpeg");
    assert_eq!(FileType::Mp4.to_bytes(), b"video/mp4");
    assert_eq!(FileType::Ico.to_bytes(), b"image/x-icon");
    assert_eq!(FileType::Unknown.to_bytes(), b"unknown");
}

#[test]
fn percent_twenty_becomes_space() {
    assert_eq!(decode_spaces(b"my%20file.txt"), b"my file.txt");
    assert_eq!(decode_spaces(b"%20%20"), b"  ");
    assert_eq!(decode_spaces(b"a%2"), b"a%2");
    assert_eq!(decode_spaces(b"%%200"), b"% 0");
    assert_eq!(decode_spaces(b""), b"");
}

#[test]
fn success_frame_exact_bytes() {
    assert_eq!(
        build_200(b"Test"),
        b"HTTP/1.1 200 OK\r\nContent-Length: 4\r\n\r\nTest".to_vec()
    );
}

#[test]
fn success_frame_empty_body() {
    assert_eq!(
        build_200(b""),
        b"HTTP/1.1 200 OK\r\nContent-Length: 0\r\n\r\n".to_vec()
    );
}

#[test]
fn success_frame_multidigit_length() {
    let body = [b'x'; 123];
    let frame = build_200(&body);
    let mut expected = b"HTTP/1.1 200 OK\r\nContent-Length: 123\r\n\r\n".to_vec();
    expected.extend_from_slice(&body);
    assert_eq!(frame, expected);
}

#[test]
fn bad_request_frame_exact_bytes() {
    assert_eq!(
        build_400(b"oops"),
        b"HTTP/1.1 400 BadRequest\r\nContent-Length: 4\r\n\r\noops".to_vec()
    );
}

#[test]
fn server_error_frame_exact_bytes() {
    assert_eq!(
        build_500(b"bad"),
        b"HTTP/1.1 500 BadRequest\r\nContent-Length: 3\r\n\r\nbad".to_vec()
    );
}

#[test]
fn not_found_frame_exact_bytes() {
    assert_eq!(build_404(), b"HTTP/1.1 404 NotFound\r\n\r\n".to_vec());
}

#[test]
fn file_frame_exact_bytes() {
    let file = (FileType::Html, b"<p>hi</p>".to_vec());
    assert_eq!(
        build_file(&file),
        b"HTTP/1.1 200 OK\r\nAccess-Control-Allow-Origin: *\r\nContent-Type: text/html\r\nContent-Length: 9\r\n\r\n<p>hi</p>"
            .to_vec()
    );
}

#[test]
fn absorb_read_appends_and_decides() {
    let mut acc: Vec<u8> = b"ab".to_vec();
    // A full chunk with iterations to spare: not done.
    assert!(!absorb_read(&mut acc, b"cd", 0, 5, 2));
    assert_eq!(acc, b"abcd".to_vec());
    // A short read drains the socket: done.
    assert!(absorb_read(&mut acc, b"e", 1, 5, 2));
    assert_eq!(acc, b"abcde".to_vec());
    // The iteration cap is reached: done even on a full chunk.
    let mut acc2: Vec<u8> = Vec::new();
    assert!(absorb_read(&mut acc2, b"xy", 4, 5, 2));
    assert_eq!(acc2, b"xy".to_vec());
}

#[test]
fn body_is_last_line() {
    let payload = b"POST /x HTTP/1.1\r\nHeader: y\r\n\r\nhello".to_vec();
    assert_eq!(payload.get_body(), b"hello");
}

#[test]
fn body_of_empty_payload_is_empty() {
    let payload: Vec<u8> = Vec::new();
    assert_eq!(payload.get_body(), b"");
    assert_eq!(payload.get_body_formated(), Vec::<Vec<u8>>::new());
}

#[test]
fn body_fields_come_right_to_left() {
    let payload = b"POST /x HTTP/1.1\r\n\r\na|b|c".to_vec();
    let fields = payload.get_body_formated();
    assert_eq!(fields, vec![b"c".to_vec(), b"b".to_vec(), b"a".to_vec()]);
}

#[test]
fn body_single_field() {
    let payload = b"X\nvalue".to_vec();
    assert_eq!(payload.get_body_formated(), vec![b"value".to_vec()]);
}

#[test]
fn header_body_value_between_token_and_line_end() {
    let payload = b"POST /x HTTP/1.1\r\nBody: a|b|c\r\n\r\ntail".to_vec();
    assert_eq!(payload.get_header_body(), b"a|b|c");
    let fields = payload.get_header_body_formated();
    assert_eq!(fields, vec![b"c".to_vec(), b"b".to_vec(), b"a".to_vec()]);
}

#[test]
fn header_body_absent() {
    let payload = b"POST /x HTTP/1.1\r\n\r\ndata".to_vec();
    assert_eq!(payload.get_header_body(), b"");
    assert_eq!(payload.get_header_body_formated(), Vec::<Vec<u8>>::new());
}

#[test]
fn header_body_token_found_from_index_one() {
    let found = b"xBody: a\r\n\r\n".to_vec();
    assert_eq!(found.get_header_body(), b"a");
    let at_start = b"Body: a\r\n\r\n".to_vec();
    assert_eq!(at_start.get_header_body(), b"");
}
