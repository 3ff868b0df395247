use seacoller::database_api::{
    collection_created_response, create_collection_request, default_internal_error_response, get_collection_name, get_login_args, get_signup_args, get_user_id,
    internal_error_response, invalid_request_response, ok_response, response_from_string,
};
use seacoller::http_parser::parse;
use seacoller::http_server::{HttpResponse, HttpStatusCode};
use seacoller::json::{JsonData, JsonObject, JsonSerializer};
use seacoller::user_system::UserType;

fn text(response: HttpResponse) -> String {
    String::from_utf8(HttpResponse::serialize_response(response)).unwrap()
}

#[test]
fn message_responses() {
    let r = response_from_string(HttpStatusCode::Created, "done");
    assert_eq!(r.status(), HttpStatusCode::Created);
    assert_eq!(r.body().unwrap(), "{\n\t\"message\": \"done\"\n}");
    assert_eq!(r.header("Content-Type").unwrap(), "application/json");
    assert_eq!(r.header("Content-Length").unwrap(), "24");
    assert_eq!(invalid_request_response("bad").status(), HttpStatusCode::BadRequest);
    assert_eq!(internal_error_response("oops").status(), HttpStatusCode::OK);
    assert_eq!(
        default_internal_error_response().body().unwrap(),
        "{\n\t\"message\": \"Internal Server Error\"\n}"
    );
    assert_eq!(
        text(ok_response()),
        "HTTP/1.1 200 OK\r\nAccess-Control-Allow-Origin:*\r\n\r\n\r\n"
    );
}

#[test]
fn request_arguments() {
    let request = parse(b"POST /login?username=bob&password=secret HTTP/1.1\r\n\r\n").unwrap();
    assert_eq!(get_login_args(&request), Some(("bob".to_string(), "secret".to_string())));
    let request = parse(b"POST /login?username=bob HTTP/1.1\r\n\r\n").unwrap();
    assert_eq!(get_login_args(&request), None);

    let request = parse(b"GET /c?user_id=340282366920938463463374607431768211455 HTTP/1.1\r\n\r\n").unwrap();
    assert_eq!(get_user_id(&request).ok(), Some(u128::MAX));
    let request = parse(b"GET /c?user_id=+17 HTTP/1.1\r\n\r\n").unwrap();
    assert_eq!(get_user_id(&request).ok(), Some(17));
    let request = parse(b"GET /c?user_id=x17 HTTP/1.1\r\n\r\n").unwrap();
    let err = get_user_id(&request).err().unwrap();
    assert_eq!(err.status(), HttpStatusCode::BadRequest);
    assert_eq!(
        err.body().unwrap(),
        "{\n\t\"message\": \"Invalid Arguments: User Id Missing In Cookie\"\n}"
    );
    let request = parse(b"GET /c?user_id=340282366920938463463374607431768211456 HTTP/1.1\r\n\r\n").unwrap();
    assert!(get_user_id(&request).is_err());

    let request = parse(b"GET /c?collection_name=books HTTP/1.1\r\n\r\n").unwrap();
    assert_eq!(get_collection_name(&request).ok(), Some("books".to_string()));
    let request = parse(b"GET /c HTTP/1.1\r\n\r\n").unwrap();
    assert_eq!(get_collection_name(&request).err().unwrap().status(), HttpStatusCode::BadRequest);
}

#[test]
fn signup_arguments() {
    let permissions = UserType::User.get_permissions();
    let mut body = JsonObject::new();
    body.insert("username".to_string(), JsonData::from_string("bob".to_string()));
    body.insert("password".to_string(), JsonData::from_string("secret".to_string()));
    body.insert("permissions".to_string(), JsonData::from_object(permissions.to_json()));
    let text = JsonSerializer::serialize(body);
    let mut request = b"POST /register HTTP/1.1\r\nContent-Type: application/json\r\n\r\n".to_vec();
    request.extend_from_slice(text.as_bytes());
    let request = parse(&request).unwrap();
    let (username, password, read) = get_signup_args(&request).unwrap();
    assert_eq!(username, "bob");
    assert_eq!(password, "secret");
    assert_eq!(read, permissions);

    let request = parse(b"POST /register HTTP/1.1\r\n\r\n{\"username\": \"bob\"}").unwrap();
    assert!(get_signup_args(&request).is_none());
    let request = parse(b"POST /register HTTP/1.1\r\n\r\n").unwrap();
    assert!(get_signup_args(&request).is_none());
}

#[test]
fn collection_creation_requests() {
    let request = parse(
        b"POST /collection?user_id=7 HTTP/1.1\r\nContent-Type: application/json\r\n\r\n{\"collection_name\": \"people\"}",
    )
    .unwrap();
    match create_collection_request(&request) {
        Ok((name, template, user)) => {
            assert_eq!(name, "people");
            assert!(template.is_none());
            assert_eq!(user, 7);
        }
        Err(_) => panic!("the request should read"),
    }
    let request = parse(b"POST /collection?user_id=7 HTTP/1.1\r\n\r\n").unwrap();
    let refused = create_collection_request(&request).err().unwrap();
    assert_eq!(refused.status(), HttpStatusCode::BadRequest);
    assert_eq!(refused.body().unwrap(), "{\n\t\"message\": \"Collection structure was not found\"\n}");
    let request = parse(
        b"POST /collection HTTP/1.1\r\nContent-Type: application/json\r\n\r\n{\"collection_name\": \"people\"}",
    )
    .unwrap();
    let refused = create_collection_request(&request).err().unwrap();
    assert_eq!(
        refused.body().unwrap(),
        "{\n\t\"message\": \"Invalid Arguments: User Id Missing In Cookie\"\n}"
    );
    let request = parse(
        b"POST /collection?user_id=1 HTTP/1.1\r\nContent-Type: application/json\r\n\r\n{\"collection_name\": \"p\", \"collection_structure\": 5}",
    )
    .unwrap();
    let refused = create_collection_request(&request).err().unwrap();
    assert_eq!(
        refused.body().unwrap(),
        "{\n\t\"message\": \"Collection structure was not formatted correctly\"\n}"
    );
    let request = parse(
        b"POST /collection?user_id=1 HTTP/1.1\r\nContent-Type: application/json\r\n\r\nnot json",
    )
    .unwrap();
    let refused = create_collection_request(&request).err().unwrap();
    assert_eq!(refused.status(), HttpStatusCode::BadRequest);
    assert_eq!(refused.body().unwrap(), "{\n\t\"message\": \"Body was Not Proper Json\"\n}");
    assert_eq!(collection_created_response(Some(true)).status(), HttpStatusCode::OK);
    assert_eq!(
        collection_created_response(None).body().unwrap(),
        "{\n\t\"message\": \"Db was not created\"\n}"
    );
}
