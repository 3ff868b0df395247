use seacoller::http_parser::{parse, HttpMethod, HttpParseError};
use seacoller::http_server::{Dispatch, HttpResponse, HttpServer, HttpStatusCode};

#[test]
fn test_parse() {
    let request_buffer = b"GET / HTTP/1.1\r\nHost: localhost:3000\r\n\r\n";
    let request = parse(request_buffer).unwrap();
    assert_eq!(request.method, HttpMethod::GET);
    assert_eq!(request.path, "/");
    assert_eq!(request.version, "HTTP/1.1");
    assert_eq!(request.get_header("Host").unwrap(), "localhost:3000");
    assert_eq!(request.body, None);
    let request_buffer = b"POST / HTTP/1.1\r\nHost: localhost:3000\r\nContent-Type: application/json\r\nContent-Length: 20\r\n\r\n{\"name\":\"John\"}";
    let request = parse(request_buffer).unwrap();
    assert_eq!(request.method, HttpMethod::POST);
    assert_eq!(request.path, "/");
    assert_eq!(request.version, "HTTP/1.1");
    assert_eq!(request.get_header("Host").unwrap(), "localhost:3000");
    assert_eq!(request.get_header("Content-Type").unwrap(), "application/json");
    assert_eq!(request.get_header("Content-Length").unwrap(), "20");
    assert_eq!(request.body, Some("{\"name\":\"John\"}".to_string()));
    let request_buffer = b"PUT / HTTP/1.1\r\nHost: localhost:3000\r\nContent-Type: application/json\r\nContent-Length: 20\r\n\r\n{\"name\":\"John\"}";
    let request = parse(request_buffer).unwrap();
    assert_eq!(request.method, HttpMethod::PUT);
    assert_eq!(request.path, "/");
    assert_eq!(request.version, "HTTP/1.1");
    assert_eq!(request.get_header("Host").unwrap(), "localhost:3000");
    assert_eq!(request.get_header("Content-Type").unwrap(), "application/json");
    assert_eq!(request.get_header("Content-Length").unwrap(), "20");
    assert_eq!(request.body, Some("{\"name\":\"John\"}".to_string()));
    let request_buffer = b"DELETE / HTTP/1.1\r\nHost: localhost:3000\r\nContent-Type: application/json\r\nContent-Length: 22\r\n\r\n{\n\"name\":\"John\"\n}";
    let request = parse(request_buffer).unwrap();
    assert_eq!(request.method, HttpMethod::DELETE);
    assert_eq!(request.path, "/");
    assert_eq!(request.version, "HTTP/1.1");
    assert_eq!(request.get_header("Host").unwrap(), "localhost:3000");
    assert_eq!(request.get_header("Content-Type").unwrap(), "application/json");
    assert_eq!(request.get_header("Content-Length").unwrap(), "22");
    assert_eq!(request.body, Some("{\n\"name\":\"John\"\n}".to_string()));
    let request_buffer = b"GET / HTTP/1.1\r\n\r\n";
    let request = parse(request_buffer).unwrap();
    assert_eq!(request.method, HttpMethod::GET);
    assert_eq!(request.path, "/");
    assert_eq!(request.version, "HTTP/1.1");
    assert_eq!(request.headers.len(), 0);
    assert_eq!(request.body, None);
    let request_buffer = b"GET /?name=John HTTP/1.1\r\n\r\n";
    let request = parse(request_buffer).unwrap();
    assert_eq!(request.method, HttpMethod::GET);
    assert_eq!(request.path, "/");
    assert_eq!(request.version, "HTTP/1.1");
    assert_eq!(request.get_param("name").unwrap(), "John");
    assert_eq!(request.headers.len(), 0);
    assert_eq!(request.body, None);
    let request_buffer = b"GET /?name=John&age=30 HTTP/1.1\r\n\r\n";
    let request = parse(request_buffer).unwrap();
    assert_eq!(request.method, HttpMethod::GET);
    assert_eq!(request.path, "/");
    assert_eq!(request.version, "HTTP/1.1");
    assert_eq!(request.get_param("name").unwrap(), "John");
    assert_eq!(request.get_param("age").unwrap(), "30");
    assert_eq!(request.headers.len(), 0);
    assert_eq!(request.body, None);
}

#[test]
fn parse_errors_cookies_and_json_bodies() {
    assert!(matches!(parse(b"FETCH / HTTP/1.1\r\n\r\n"), Err(HttpParseError::InvalidMethod)));
    assert!(matches!(parse(b"GET /\r\n\r\n"), Err(HttpParseError::InvalidMethod)));
    assert!(matches!(parse(b""), Err(HttpParseError::InvalidMethod)));
    let r = parse(b"OPTIONS /a?x HTTP/1.0\r\nCookie: a = 1; b=2\r\nContent-Type: text/application/json\r\n\r\n\0body\0\0").unwrap();
    assert_eq!(r.method, HttpMethod::OPTIONS);
    assert_eq!(r.path, "/a");
    assert_eq!(r.get_param("x").unwrap(), "");
    assert_eq!(r.get_cookie("a").unwrap(), "1");
    assert_eq!(r.get_cookie("b").unwrap(), "2");
    assert!(r.get_cookie("c").is_none());
    assert!(r.body_is_json());
    assert_eq!(r.get_body().unwrap(), "body");
    let r = parse(b"GET / HTTP/1.1\r\nHost: a\r\nHost: b\r\n\r\n").unwrap();
    assert_eq!(r.headers.len(), 1);
    assert_eq!(r.get_header("Host").unwrap(), "b");
    assert!(!r.body_is_json());
}

#[test]
fn responses_and_their_bytes() {
    let r = HttpResponse::ok();
    assert_eq!(r.status(), HttpStatusCode::OK);
    assert_eq!(r.header("Access-Control-Allow-Origin").unwrap(), "*");
    assert!(r.body().is_none());
    assert_eq!(
        HttpResponse::serialize_response(HttpResponse::ok()),
        b"HTTP/1.1 200 OK\r\nAccess-Control-Allow-Origin:*\r\n\r\n\r\n".to_vec()
    );
    let j = HttpResponse::new_from_json(HttpStatusCode::Created, "{}".to_string());
    assert_eq!(j.header("Content-Length").unwrap(), "4");
    assert_eq!(j.header("Content-Type").unwrap(), "application/json");
    assert_eq!(
        HttpResponse::serialize_response(j),
        b"HTTP/1.1 201 Created\r\nContent-Type:application/json\r\nContent-Length:4\r\nAccess-Control-Allow-Origin:*\r\n\r\n\r\n{}".to_vec()
    );
    let nf = HttpResponse::new_not_found("<p>gone</p>".to_string());
    assert_eq!(nf.status(), HttpStatusCode::NotFound);
    assert_eq!(nf.header("Content-Length").unwrap(), "11");
    assert_eq!(nf.header("Content-Type").unwrap(), "text/html");
    let ie = HttpResponse::new_internal_error("é".to_string());
    assert_eq!(ie.header("Content-Length").unwrap(), "2");
    let dropped = HttpResponse::new(HttpStatusCode::Accepted, Some("ignored".to_string()));
    assert!(dropped.body().is_none());
}

#[test]
fn status_codes_and_phrases() {
    assert_eq!(HttpStatusCode::ImATeapot.code(), 418);
    assert_eq!(HttpStatusCode::ImATeapot.reason_phrase(), "I'm a Teapot");
    assert_eq!(HttpStatusCode::NetworkAuthenticationRequired.code(), 511);
    assert_eq!(HttpStatusCode::Continue.code(), 100);
    assert_eq!(HttpStatusCode::NonAuthoritativeInformation.reason_phrase(), "Non-Authoritative Information");
    assert!(HttpStatusCode::OK < HttpStatusCode::NotFound);
}

fn handler_a(_: u8) -> u8 {
    1
}

fn handler_b(_: u8) -> u8 {
    2
}

#[test]
fn routes_lead_to_handlers() {
    let mut server: HttpServer<fn(u8) -> u8> = HttpServer::new_localhost(8080);
    assert_eq!(server.port(), 8080);
    assert_eq!(server.host(), "127.0.0.1");
    server.add_route(HttpMethod::GET, "/a", handler_a);
    server.add_route(HttpMethod::POST, "/a/b", handler_b);
    assert_eq!((server.route(HttpMethod::GET, "/a").unwrap())(0), 1);
    assert!(server.route(HttpMethod::POST, "/a").is_none());
    assert!(server.route(HttpMethod::PUT, "/a").is_none());
    match server.dispatch(b"GET /a HTTP/1.1\r\n\r\n") {
        Dispatch::Handle(h, req) => {
            assert_eq!(h(0), 1);
            assert_eq!(req.path, "/a");
        }
        _ => panic!("expected a handler"),
    }
    assert!(matches!(server.dispatch(b"GET /zzz HTTP/1.1\r\n\r\n"), Dispatch::NotFound));
    assert!(matches!(server.dispatch(b"NOPE /a HTTP/1.1\r\n\r\n"), Dispatch::InternalError));
}
