use seacoller::json::{JsonData, JsonDeserializer, JsonObject, JsonType};
use seacoller::validation_json::{
    JsonConstraint, JsonValidationError, JsonValidationProperty, Order, ValidationJson,
};

#[test]
fn test_validate() {
    let mut gender_vp = JsonValidationProperty::new("gender".to_string(), JsonType::Boolean);
    let mut age_vp = JsonValidationProperty::new("age".to_string(), JsonType::Integer);
    age_vp
        .constraint(JsonConstraint::ValueConstraint(JsonData::from_int(15), Order::Greater))
        .constraint(JsonConstraint::Unique);
    gender_vp.constraint(JsonConstraint::Nullable);
    let mut template = ValidationJson::new();
    template
        .add(gender_vp)
        .add(JsonValidationProperty::new("name".to_string(), JsonType::String))
        .add(age_vp);
    let mut json1 = JsonObject::new();
    json1.insert("gender".to_string(), JsonData::new_null());
    json1.insert("name".to_string(), JsonData::from_string("adolf".to_string()));
    json1.insert("age".to_string(), JsonData::from_int(17));

    assert!(template.validate(&json1).is_ok());

    let mut json2 = JsonObject::new();
    json2.insert("gender".to_string(), JsonData::new_null());
    json2.insert("name".to_string(), JsonData::from_string("adolf".to_string()));
    json2.insert("age".to_string(), JsonData::from_int(11));

    assert!(template.validate(&json2).is_err());

    let mut json3 = JsonObject::new();
    json3.insert("gender".to_string(), JsonData::from_boolean(false));
    json3.insert("name".to_string(), JsonData::from_string("adolf".to_string()));
    json3.insert("age".to_string(), JsonData::from_int(17));

    template.validate(&json3).expect("had an error");

    let mut json4 = JsonObject::new();
    json4.insert("gender".to_string(), JsonData::from_boolean(false));
    json4.insert("age".to_string(), JsonData::from_int(17));

    assert_eq!(
        template.validate(&json4).unwrap_err(),
        JsonValidationError::MissingProperty("name".to_string())
    );
}

#[test]
fn test_from_json_object() {
    let json = r#"
        {
            "age": {
                    "constraints": {
                            "value constraint": {
                                    "order": "=",
                                    "value": {
                                            "data": 15,
                                            "type": "int"
                                    }
                            },
                            "unique": true
                    },
                    "type": "int"
            },
            "name": {
                    "constraints": {},
                    "type": "string"
            },
            "gender": {
                    "type": "bool",
                    "constraints": {
                            "nullable": true
                    }
            }
        }
        "#;
    let json = JsonDeserializer::deserialize(json.to_string()).unwrap();
    let template = ValidationJson::from_json(json).unwrap();
    assert_eq!(template.get_all_props().len(), 3);

    let prop = template.get_all_props().iter().find(|x| x.name == "name");
    assert_ne!(prop, None);
    let prop = prop.unwrap();
    assert_eq!(prop.data_type, JsonType::String);

    let prop = template.get_all_props().iter().find(|x| x.name == "gender");
    assert_ne!(prop, None);
    let prop = prop.unwrap();
    assert_eq!(prop.data_type, JsonType::Boolean);
    assert_eq!(prop.constraints.len(), 1);
    assert!(prop.constraints.contains(&JsonConstraint::Nullable));

    let prop = template.get_all_props().iter().find(|x| x.name == "age");
    assert_ne!(prop, None);
    let prop = prop.unwrap();
    assert_eq!(prop.data_type, JsonType::Integer);
    assert_eq!(prop.constraints.len(), 2);
    assert!(prop
        .constraints
        .contains(&JsonConstraint::ValueConstraint(JsonData::from_int(15), Order::Equal)));
    assert!(prop.constraints.contains(&JsonConstraint::Unique));
}

fn one_prop_template(p: JsonValidationProperty) -> ValidationJson {
    let mut t = ValidationJson::new();
    t.add(p);
    t
}

#[test]
fn validation_errors_name_the_failure() {
    let mut p = JsonValidationProperty::new("n".to_string(), JsonType::String);
    p.constraint(JsonConstraint::ValueConstraint(JsonData::from_string("m".to_string()), Order::Less));
    let t = one_prop_template(p);
    let mut ok = JsonObject::new();
    ok.insert("n".to_string(), JsonData::from_string("a".to_string()));
    assert_eq!(t.validate(&ok), Ok(()));
    let mut too_big = JsonObject::new();
    too_big.insert("n".to_string(), JsonData::from_string("z".to_string()));
    assert_eq!(
        t.validate(&too_big),
        Err(JsonValidationError::ValueDoesNotMeetConstraint(
            JsonData::from_string("z".to_string()),
            JsonData::from_string("m".to_string()),
            Order::Less
        ))
    );
    let mut wrong = JsonObject::new();
    wrong.insert("n".to_string(), JsonData::from_int(3));
    assert_eq!(
        t.validate(&wrong),
        Err(JsonValidationError::IncorrectType("n".to_string(), JsonType::Integer, JsonType::String))
    );
}

#[test]
fn any_admits_every_type_and_rules_are_kept_once() {
    let mut p = JsonValidationProperty::new("v".to_string(), JsonType::Integer);
    p.constraint(JsonConstraint::Any).constraint(JsonConstraint::Any).constraint(JsonConstraint::Unique);
    assert_eq!(p.constraints.len(), 2);
    let t = one_prop_template(p);
    let mut doc = JsonObject::new();
    doc.insert("v".to_string(), JsonData::from_boolean(true));
    assert_eq!(t.validate(&doc), Ok(()));
    assert_eq!(t.get_all_unique_props().len(), 1);
}

#[test]
fn array_and_object_values_compare() {
    let mut p = JsonValidationProperty::new("a".to_string(), JsonType::Array);
    p.constraint(JsonConstraint::ValueConstraint(JsonData::from_u8_vec(vec![1, 2]), Order::Greater));
    let t = one_prop_template(p);
    let mut doc = JsonObject::new();
    doc.insert("a".to_string(), JsonData::from_u8_vec(vec![1, 3]));
    assert_eq!(t.validate(&doc), Ok(()));
    let mut doc = JsonObject::new();
    doc.insert("a".to_string(), JsonData::from_u8_vec(vec![1]));
    assert!(t.validate(&doc).is_err());
    let mut q = JsonValidationProperty::new("i".to_string(), JsonType::Integer);
    q.constraint(JsonConstraint::ValueConstraint(JsonData::from_int(5), Order::Equal));
    let t = one_prop_template(q);
    let mut doc = JsonObject::new();
    doc.insert("i".to_string(), JsonData::from_int(5));
    assert_eq!(t.validate(&doc), Ok(()));
}
