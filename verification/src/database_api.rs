use crate::http_parser::{assoc_get, names_json, HttpRequest, RequestModel};
use crate::http_server::{content_headers, open_origin, HttpResponse, HttpStatusCode, ResponseModel};
use crate::json::{
    entry_text, join, lemma_insert_entry_last, lookup, object_text, parse_int, parse_object,
    parse_u128, quoted, render_entries, render_value, tabs, without_quotes, JsonData,
    JsonDeserializer, JsonObject, JsonSerializer, JsonType, Outcome,
};
use crate::user_system::{permissions_from_entries, PermissionsModel, UserPermissions};
use crate::validation_json::{property_view, props_from, ConstraintView, JsonValidationProperty, ValidationJson};
use crate::text::chars_of;
use vstd::prelude::*;
use vstd::utf8::encode_utf8;

verus! {

/// The JSON text of a message: an object whose one entry `message` is the message as a
/// string, written at depth zero.
pub open spec fn message_json(m: Seq<char>) -> Seq<char> {
    seq!['{', '\n', '\t'] + quoted("message"@) + seq![':', ' '] + quoted(m) + seq!['\n', '}']
}

/// A response with a message as its JSON body.
pub open spec fn message_response(status: HttpStatusCode, m: Seq<char>) -> ResponseModel {
    ResponseModel {
        status: status,
        headers: content_headers("application/json"@, encode_utf8(message_json(m)).len() + 2int),
        body: Some(message_json(m)),
    }
}

/// A response with `message` as its JSON body.
pub fn response_from_string(status_code: HttpStatusCode, message: &str) -> (r: HttpResponse)
    ensures
        r@ == message_response(status_code, message@),
{
    let mut json = JsonObject::new();
    let key = "message".to_owned();
    let value = JsonData::from_string(message.to_owned());
    let ghost entry = (key@, value@);
    proof {
        lemma_insert_entry_last(Seq::empty(), key@, value@);
        assert(Seq::<(Seq<char>, (Seq<char>, JsonType))>::empty().push(entry) =~= seq![entry]);
    }
    json.insert(key, value);
    let ghost es = json@;
    proof {
        assert(es == seq![entry]);
        assert(es.drop_last() =~= Seq::<(Seq<char>, (Seq<char>, JsonType))>::empty());
        assert(es.last() == entry);
        assert(render_value(entry.1, 1, true) == Some(quoted(message@)));
        let ts = seq![entry_text("message"@, quoted(message@), 0, true)];
        let none = Seq::<(Seq<char>, (Seq<char>, JsonType))>::empty();
        assert(render_entries(none, 0, true) == Some(Seq::<Seq<char>>::empty()));
        assert(Seq::<Seq<char>>::empty().push(entry_text("message"@, quoted(message@), 0, true)) =~= ts);
        assert(render_entries(es, 0, true) == Some(ts));
        assert(join(ts, seq![',', '\n']) == ts[0]);
        assert(tabs(-1) =~= Seq::<char>::empty());
        assert(tabs(1) =~= seq!['\t']);
        assert(object_text(ts, 0, true) =~= message_json(message@));
    }
    let text = JsonSerializer::serialize(json);
    HttpResponse::new_from_json(status_code, text)
}

/// The response the store gives for an internal error: a message, with the success status.
pub fn internal_error_response(msg: &str) -> (r: HttpResponse)
    ensures
        r@ == message_response(HttpStatusCode::OK, msg@),
{
    response_from_string(HttpStatusCode::OK, msg)
}

/// The response for an internal error with the standard message.
pub fn default_internal_error_response() -> (r: HttpResponse)
    ensures
        r@ == message_response(HttpStatusCode::OK, "Internal Server Error"@),
{
    internal_error_response("Internal Server Error")
}

/// The response for a request that is not valid: a message, with the bad-request status.
pub fn invalid_request_response(msg: &str) -> (r: HttpResponse)
    ensures
        r@ == message_response(HttpStatusCode::BadRequest, msg@),
{
    response_from_string(HttpStatusCode::BadRequest, msg)
}

/// An empty success response.
pub fn ok_response() -> (r: HttpResponse)
    ensures
        r@ == (ResponseModel { status: HttpStatusCode::OK, headers: seq![open_origin()], body: None }),
{
    HttpResponse::new(HttpStatusCode::OK, None)
}

/// The user name and password a login request names in its parameters.
pub fn get_login_args(http_request: &HttpRequest) -> (r: Option<(String, String)>)
    ensures
        match (
            assoc_get(http_request@.params, "username"@),
            assoc_get(http_request@.params, "password"@),
        ) {
            (Some(u), Some(p)) => r matches Some((a, b)) && a@ == u && b@ == p,
            _ => r is None,
        },
{
    let username = match http_request.get_param("username") {
        Some(u) => u.to_owned(),
        None => {
            return None;
        },
    };
    let password = match http_request.get_param("password") {
        Some(p) => p.to_owned(),
        None => {
            return None;
        },
    };
    Some((username, password))
}

/// The user number a request names in its parameter `user_id`; a bad-request response
/// where it names none or one that is not a number.
pub fn get_user_id(http_request: &HttpRequest) -> (r: Result<u128, HttpResponse>)
    ensures
        match assoc_get(http_request@.params, "user_id"@) {
            Some(t) if parse_int(t, 0, u128::MAX as int) is Some => r == Ok::<u128, HttpResponse>(
                parse_int(t, 0, u128::MAX as int).unwrap() as u128,
            ),
            _ => r matches Err(e) && e@ == message_response(
                HttpStatusCode::BadRequest,
                "Invalid Arguments: User Id Missing In Cookie"@,
            ),
        },
{
    if let Some(user_id) = http_request.get_param("user_id") {
        let chars = chars_of(user_id);
        if let Some(ret) = parse_u128(chars.as_slice()) {
            return Ok(ret);
        }
    }
    Err(invalid_request_response("Invalid Arguments: User Id Missing In Cookie"))
}

/// The collection a request names in its parameter `collection_name`; a bad-request
/// response where it names none.
pub fn get_collection_name(http_request: &HttpRequest) -> (r: Result<String, HttpResponse>)
    ensures
        match assoc_get(http_request@.params, "collection_name"@) {
            Some(t) => r matches Ok(s) && s@ == t,
            None => r matches Err(e) && e@ == message_response(
                HttpStatusCode::BadRequest,
                "Invalid Arguments: Collection Name Missing"@,
            ),
        },
{
    if let Some(collection_name) = http_request.get_param("collection_name") {
        return Ok(collection_name.to_owned());
    }
    Err(invalid_request_response("Invalid Arguments: Collection Name Missing"))
}

/// Whether reading the arguments of a sign-up request runs without panicking: its body
/// reads as an object, and where it names a user and a password, its permissions member
/// reads as permissions.
pub open spec fn signup_readable(body: Option<Seq<char>>) -> bool {
    match body {
        None => true,
        Some(b) => !(parse_object(b) is Panics) && match parse_object(b) {
            Outcome::Done(e) => (lookup(e, "username"@) is Some && lookup(e, "password"@) is Some)
                ==> match lookup(e, "permissions"@) {
                Some(d) => d.1 == JsonType::Object ==> !(parse_object(d.0) is Panics) && match parse_object(
                    d.0,
                ) {
                    Outcome::Done(pe) => permissions_from_entries(pe) is Some,
                    _ => true,
                },
                None => true,
            },
            _ => true,
        },
    }
}

/// The user name, password and permissions a sign-up request's JSON body names: its
/// `username` and `password` without their quotes, and its `permissions` object read as
/// permissions; nothing where one is missing or does not read.
pub open spec fn signup_args(body: Option<Seq<char>>) -> Option<(Seq<char>, Seq<char>, PermissionsModel)> {
    match body {
        None => None,
        Some(b) => match parse_object(b) {
            Outcome::Done(e) => match (lookup(e, "username"@), lookup(e, "password"@), lookup(e, "permissions"@)) {
                (Some(u), Some(p), Some(d)) => if d.1 != JsonType::Object {
                    None
                } else {
                    match parse_object(d.0) {
                        Outcome::Done(pe) => match permissions_from_entries(pe) {
                            Some(Ok(m)) => Some((without_quotes(u.0), without_quotes(p.0), m)),
                            _ => None,
                        },
                        _ => None,
                    }
                },
                _ => None,
            },
            _ => None,
        },
    }
}

/// The user name, password and permissions a sign-up request names in its body (see
/// [`signup_args`]).
pub fn get_signup_args(http_request: &HttpRequest) -> (r: Option<(String, String, UserPermissions)>)
    requires
        signup_readable(http_request@.body),
    ensures
        match signup_args(http_request@.body) {
            Some((u, p, m)) => r matches Some((a, b, c)) && a@ == u && b@ == p && c@ == m,
            None => r is None,
        },
{
    let body = match http_request.get_body() {
        Some(b) => b.clone(),
        None => {
            return None;
        },
    };
    let body = match JsonDeserializer::deserialize(body) {
        Ok(o) => o,
        Err(_) => {
            return None;
        },
    };
    let username = match body.get(&"username".to_owned()) {
        Some(u) => u.as_string(),
        None => {
            return None;
        },
    };
    let password = match body.get(&"password".to_owned()) {
        Some(p) => p.as_string(),
        None => {
            return None;
        },
    };
    let permissions = match body.get(&"permissions".to_owned()) {
        Some(d) => d,
        None => {
            return None;
        },
    };
    let permissions = match permissions.as_object() {
        Ok(o) => o,
        Err(_) => {
            return None;
        },
    };
    match UserPermissions::from_json(permissions) {
        Ok(p) => Some((username, password, p)),
        Err(_) => None,
    }
}


/// Whether a request's `Content-Type` header names JSON.
pub open spec fn json_request(req: RequestModel) -> bool {
    match assoc_get(req.headers, "Content-Type"@) {
        Some(v) => names_json(v),
        None => false,
    }
}

/// Whether the template a request to create a collection gives can be read without
/// failing outright: a structure given as an object reads as an object whose every entry
/// can be looked at as a property (reading a template fails outright otherwise).
pub open spec fn collection_request_readable(req: RequestModel) -> bool {
    json_request(req) ==> match req.body {
        None => true,
        Some(b) => match parse_object(b) {
            Outcome::Done(e) => match lookup(e, "collection_structure"@) {
                Some(d) => d.1 == JsonType::Object ==> !(parse_object(d.0) is Panics) && match parse_object(
                    d.0,
                ) {
                    Outcome::Done(se) => props_from(se) is Some,
                    _ => true,
                },
                None => true,
            },
            _ => true,
        },
    }
}

/// What a request to create a collection asks for, as name, template (its properties) and
/// user, or the response that refuses it.
pub open spec fn collection_request(req: RequestModel) -> Result<
    (Seq<char>, Option<Seq<(Seq<char>, JsonType, Seq<ConstraintView>)>>, u128),
    ResponseModel,
> {
    if !json_request(req) {
        Err(message_response(HttpStatusCode::BadRequest, "Collection structure was not found"@))
    } else if req.body is None {
        Err(message_response(HttpStatusCode::BadRequest, "Body was Not Proper Json"@))
    } else {
        match parse_object(req.body.unwrap()) {
            Outcome::Done(e) => match lookup(e, "collection_name"@) {
                None => Err(message_response(HttpStatusCode::BadRequest, "Collection name was not found"@)),
                Some(n) => match assoc_get(req.params, "user_id"@) {
                    Some(t) if parse_int(t, 0, u128::MAX as int) is Some => {
                        let uid = parse_int(t, 0, u128::MAX as int).unwrap() as u128;
                        match lookup(e, "collection_structure"@) {
                            None => Ok((without_quotes(n.0), None, uid)),
                            Some(d) => if d.1 != JsonType::Object {
                                Err(structure_refused())
                            } else {
                                match parse_object(d.0) {
                                    Outcome::Done(se) => match props_from(se) {
                                        Some(Ok(ps)) => Ok((without_quotes(n.0), Some(ps), uid)),
                                        _ => Err(structure_refused()),
                                    },
                                    _ => Err(structure_refused()),
                                }
                            },
                        }
                    },
                    _ => Err(
                        message_response(
                            HttpStatusCode::BadRequest,
                            "Invalid Arguments: User Id Missing In Cookie"@,
                        ),
                    ),
                },
            },
            _ => Err(message_response(HttpStatusCode::BadRequest, "Body was Not Proper Json"@)),
        }
    }
}

/// The response refusing a collection structure that does not read as a template.
pub open spec fn structure_refused() -> ResponseModel {
    message_response(HttpStatusCode::BadRequest, "Collection structure was not formatted correctly"@)
}

/// Reads a request to create a collection: its name, its template if one is given, and the
/// user asking; or the response refusing it (a body that is not a JSON object is refused
/// as improper JSON).
pub fn create_collection_request(req: &HttpRequest) -> (r: Result<
    (String, Option<ValidationJson>, u128),
    HttpResponse,
>)
    requires
        collection_request_readable(req@),
    ensures
        match collection_request(req@) {
            Ok((n, t, u)) => r matches Ok((name, template, user)) && name@ == n && user == u && match t {
                None => template is None,
                Some(ps) => template matches Some(v) && v@.map_values(
                    |p: JsonValidationProperty| property_view(p),
                ) == ps,
            },
            Err(m) => r matches Err(e) && e@ == m,
        },
{
    if !req.body_is_json() {
        return Err(invalid_request_response("Collection structure was not found"));
    }
    let body = match req.get_body() {
        Some(b) => b.clone(),
        None => {
            return Err(invalid_request_response("Body was Not Proper Json"));
        },
    };
    let body = match JsonDeserializer::read_object(body) {
        Ok(o) => o,
        Err(_) => {
            return Err(invalid_request_response("Body was Not Proper Json"));
        },
    };
    let name = match body.get(&"collection_name".to_owned()) {
        Some(n) => n.as_string(),
        None => {
            return Err(invalid_request_response("Collection name was not found"));
        },
    };
    let user_id = match get_user_id(req) {
        Ok(u) => u,
        Err(e) => {
            return Err(e);
        },
    };
    match body.get(&"collection_structure".to_owned()) {
        None => Ok((name, None, user_id)),
        Some(d) => {
            let refused = "Collection structure was not formatted correctly";
            match d.as_object() {
                Ok(o) => match ValidationJson::from_json(o) {
                    Ok(v) => Ok((name, Some(v), user_id)),
                    Err(_) => Err(invalid_request_response(refused)),
                },
                Err(_) => Err(invalid_request_response(refused)),
            }
        },
    }
}

/// The response to a request to create a collection, from what the database answered:
/// `None` when there is no database, else whether it created the collection.
pub fn collection_created_response(created: Option<bool>) -> (r: HttpResponse)
    ensures
        match created {
            None => r@ == message_response(HttpStatusCode::OK, "Db was not created"@),
            Some(true) => r@ == (ResponseModel {
                status: HttpStatusCode::OK,
                headers: seq![open_origin()],
                body: None,
            }),
            Some(false) => r@ == message_response(HttpStatusCode::OK, "Internal Server Error"@),
        },
{
    match created {
        None => internal_error_response("Db was not created"),
        Some(true) => ok_response(),
        Some(false) => default_internal_error_response(),
    }
}
} // verus!
