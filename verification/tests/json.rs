use seacoller::json::{
    JsonArray, JsonData, JsonDeserializer, JsonError, JsonObject, JsonSerializer, JsonType,
};

#[test]
fn test_create_json() {
    let mut json = JsonObject::new();
    println!("json is: \n{}", JsonSerializer::serialize(json.copy()));
    json.insert("name".to_string(), JsonData::from_string("John".to_string()));
    json.insert("age".to_string(), JsonData::from_int(30));
    json.insert("city".to_string(), JsonData::from_string("New York".to_string()));
    println!("json is: \n{}", JsonSerializer::serialize(json.copy()));
}

#[test]
fn test_easy_json_decode() {
    let json_data = r#"
        {
            "name": "John",
            "age": 30,
            "city": "New York"
        }
        "#
    .to_string();

    let json = JsonDeserializer::deserialize(json_data);
    println!("{:?}", json);
    assert_ne!(json, Err(JsonError::ParseError));

    println!("json is: \n{}", JsonSerializer::serialize(json.unwrap()));
}

#[test]
fn test_hard_json_decode() {
    let json_data = r#"
        {
            "string_key": "This is a string",
            "number_key": 42.5,
            "boolean_key": true,
            "null_key": null,
            "array_key": [1, 2, 3, "four", null, {"nested_key": "nested_value"}],
            "object_key": {
                "inner_string_key": "Hello, world!",
                "inner_number_key": 123,
                "inner_boolean_key": false,
                "inner_null_key": null,
                "inner_array_key": [true, false, "inner_string", {"deep_key": "deep_value"}]
            }
        }
        "#
    .to_string();

    let json = JsonDeserializer::deserialize(json_data);

    assert_ne!(json, Err(JsonError::ParseError));
    let json = json.unwrap();
    let _vector: JsonArray = json.get(&"array_key".to_string()).unwrap().as_array().unwrap();
    let number = json.get(&"number_key".to_string()).unwrap();
    assert_eq!(number.get_type(), JsonType::Float);
    let float: f32 = number.get_data().parse::<f32>().unwrap();
    let object = json.get(&"object_key".to_string()).unwrap().as_object().unwrap();
    let int = object.get(&"inner_number_key".to_string()).unwrap().as_int().unwrap();
    let boolean = json.get(&"boolean_key".to_string()).unwrap().as_bool().unwrap();
    let string = json.get(&"string_key".to_string()).unwrap().as_string();
    let null = json.get(&"null_key".to_string()).unwrap().is_null();

    assert_eq!(float, 42.5);
    assert_eq!(int, 123);
    assert_eq!(boolean, true);
    assert_eq!(string, "This is a string");
    assert!(null);

    println!("json is \n{}", JsonSerializer::serialize(json))
}

#[test]
fn test_array_test() {
    let array = vec![1u8, 2, 3, 4, 5];
    let json: JsonData = JsonData::from_u8_vec(array);
    println!("json is \n{}", json.as_string());
}

#[test]
fn test_single_json() {
    let mut json = JsonObject::new();
    json.insert("test".to_string(), JsonData::from_string("test".to_string()));
    println!("json is: \n{}", JsonSerializer::serialize(json.copy()));
}

#[test]
fn test_empty_array() {
    let mut json = JsonObject::new();
    let json_arr = JsonArray::new();
    let json_arr_internal: JsonData = JsonData::from_array(json_arr);
    println!("json is: \n{}", json_arr_internal.get_data());
    json.insert("test".to_string(), json_arr_internal);

    println!("json is: \n{}", JsonSerializer::serialize(json));
}

#[test]
fn serialize_writes_entries_in_key_order() {
    let mut json = JsonObject::new();
    json.insert("name".to_string(), JsonData::from_string("John".to_string()));
    json.insert("age".to_string(), JsonData::from_int(30));
    assert_eq!(
        JsonSerializer::serialize(json.copy()),
        "{\n\t\"age\": 30,\n\t\"name\": \"John\"\n}"
    );
    assert_eq!(JsonSerializer::serialize(JsonObject::new()), "{}");
}

#[test]
fn serialize_nested_object_and_array() {
    let mut inner = JsonObject::new();
    inner.insert("k".to_string(), JsonData::from_boolean(true));
    let mut json = JsonObject::new();
    json.insert("o".to_string(), JsonData::from_object(inner));
    json.insert("a".to_string(), JsonData::from_u8_vec(vec![1, 2]));
    assert_eq!(
        JsonSerializer::serialize(json),
        "{\n\t\"a\": [1,2],\n\t\"o\": {\n\t\t\t\"k\": true\n\t}\n}"
    );
    let arr = vec![JsonData::from_int(-4), JsonData::new_null(), JsonData::from_string("x".to_string())];
    assert_eq!(JsonSerializer::serialize_array(arr), "[-4,null,\"x\"]");
    assert_eq!(JsonSerializer::serialize_array(JsonArray::new()), "[]");
}

#[test]
fn to_json_string_of_scalars_is_their_text() {
    assert_eq!(JsonData::from_int(17).to_json_string(3, true), "17");
    assert_eq!(JsonData::from_boolean(false).to_json_string(0, false), "false");
    assert_eq!(JsonData::from_string("s".to_string()).to_json_string(0, false), "\"s\"");
}

#[test]
fn int_and_bool_values_read_back() {
    for v in [-2147483648i32, -1, 0, 7, 2147483647] {
        let d = JsonData::from_int(v);
        assert_eq!(d.get_type(), JsonType::Integer);
        assert_eq!(d.as_int(), Ok(v));
    }
    assert_eq!(JsonData::from_boolean(true).as_bool(), Ok(true));
    assert_eq!(JsonData::from_boolean(false).as_bool(), Ok(false));
    assert_eq!(JsonData::from_string("abc".to_string()).as_string(), "abc");
    assert_eq!(JsonData::from_string("abc".to_string()).as_int(), Err(JsonError::ParseError));
    assert_eq!(JsonData::from_u128(340282366920938463463374607431768211455).get_data(), "340282366920938463463374607431768211455");
}

#[test]
fn insert_then_get_and_replace() {
    let mut json = JsonObject::new();
    assert_eq!(json.insert("a".to_string(), JsonData::from_int(1)), None);
    assert_eq!(json.insert("b".to_string(), JsonData::from_int(2)), None);
    let old = json.insert("a".to_string(), JsonData::from_int(3));
    assert_eq!(old.unwrap().as_int(), Ok(1));
    assert_eq!(json.len(), 2);
    assert_eq!(json.get(&"a".to_string()).unwrap().as_int(), Ok(3));
    assert_eq!(json.get(&"b".to_string()).unwrap().as_int(), Ok(2));
    assert!(json.get(&"c".to_string()).is_none());
}

#[test]
fn type_inference_from_text() {
    assert_eq!(JsonType::get_type(&"null".to_string()), Ok(JsonType::Null));
    assert_eq!(JsonType::get_type(&"true".to_string()), Ok(JsonType::Boolean));
    assert_eq!(JsonType::get_type(&"-12".to_string()), Ok(JsonType::Integer));
    assert_eq!(JsonType::get_type(&"1.5e3".to_string()), Ok(JsonType::Float));
    assert_eq!(JsonType::get_type(&"[1]".to_string()), Ok(JsonType::Array));
    assert_eq!(JsonType::get_type(&"\"x\"".to_string()), Ok(JsonType::String));
    assert_eq!(JsonType::get_type(&"{}".to_string()), Ok(JsonType::Object));
    assert_eq!(JsonType::get_type(&"hello".to_string()), Err(JsonError::ParseError));
    assert_eq!(JsonType::get_type(&"".to_string()), Err(JsonError::ParseError));
}

#[test]
fn deserialize_errors_and_arrays() {
    assert_eq!(JsonDeserializer::deserialize("".to_string()), Err(JsonError::ParseError));
    assert_eq!(JsonDeserializer::deserialize("{}".to_string()).unwrap().len(), 0);
    let arr = JsonDeserializer::deserialize_array(&"[1,\"two\",null]".to_string()).unwrap();
    assert_eq!(arr.len(), 3);
    assert_eq!(arr[0].as_int(), Ok(1));
    assert_eq!(arr[1].as_string(), "two");
    assert!(arr[2].is_null());
    assert_eq!(JsonDeserializer::deserialize_array(&"[]".to_string()).unwrap().len(), 0);
}

#[test]
fn bytes_value_reads_back() {
    let d = JsonData::from_u8_vec(vec![0, 127, 255]);
    assert_eq!(d.get_data(), "[0,127,255]");
    assert_eq!(d.as_u8_vec(), Ok(vec![0, 127, 255]));
    assert_eq!(JsonData::from_int(5).as_u8_vec(), Ok(vec![]));
    let bad = JsonData::new("[256]".to_string(), JsonType::Array);
    assert_eq!(bad.as_u8_vec(), Err(JsonError::ParseError));
}

#[test]
fn plain_documents_read_back() {
    let mut json = JsonObject::new();
    json.insert("name".to_string(), JsonData::from_string("John".to_string()));
    json.insert("age".to_string(), JsonData::from_int(30));
    json.insert("city".to_string(), JsonData::from_string("New York".to_string()));
    json.insert("admin".to_string(), JsonData::from_boolean(false));
    json.insert("boss".to_string(), JsonData::new_null());
    let text = JsonSerializer::serialize(json.copy());
    let back = JsonDeserializer::deserialize(text).unwrap();
    assert!(back.same_as(&json));
    assert_eq!(back.get(&"city".to_string()).unwrap().as_string(), "New York");
    assert_eq!(back.get(&"age".to_string()).unwrap().as_int().unwrap(), 30);
    assert!(back.get(&"boss".to_string()).unwrap().is_null());

    let empty = JsonDeserializer::deserialize(JsonSerializer::serialize(JsonObject::new())).unwrap();
    assert!(empty.is_empty());
}
