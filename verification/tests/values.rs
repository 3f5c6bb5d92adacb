use kabina::value::object_get;
use kabina::{Number, Value};

fn text(s: &str) -> Value {
    Value::String(String::from(s))
}

#[test]
fn scalars_of_a_value() {
    assert_eq!(text("a").as_str(), Some("a"));
    assert_eq!(Value::Null.as_str(), None);
    assert_eq!(Value::Number(Number::PosInt(7)).as_u64(), Some(7));
    assert_eq!(Value::Number(Number::NegInt(-7)).as_u64(), None);
    assert_eq!(Value::Number(Number::Float(0)).as_u64(), None);
    assert_eq!(text("7").as_u64(), None);
}

#[test]
fn the_field_of_an_object() {
    let fields = vec![
        (String::from("a"), text("first")),
        (String::from("b"), Value::Null),
        (String::from("a"), text("second")),
    ];
    assert_eq!(object_get(&fields, "a"), Some(&text("first")));
    assert_eq!(object_get(&fields, "b"), Some(&Value::Null));
    assert_eq!(object_get(&fields, "c"), None);
}

#[test]
fn sameness_of_values() {
    let a = Value::Array(vec![text("x"), Value::Object(vec![(String::from("k"), Value::Bool(true))])]);
    let b = Value::Array(vec![text("x"), Value::Object(vec![(String::from("k"), Value::Bool(true))])]);
    let c = Value::Array(vec![text("x"), Value::Object(vec![(String::from("k"), Value::Bool(false))])]);
    let d = Value::Array(vec![text("x")]);
    assert!(a.same(&b));
    assert!(!a.same(&c));
    assert!(!a.same(&d));
    assert!(!a.same(&Value::Null));
    assert!(a.clone().same(&a));
    assert_eq!(a.clone(), a);
}
