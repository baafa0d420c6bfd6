use tailcall_template::{JqError, JsonLikeHelper, JsonNumber, JsonObject, JsonValue, PathError, PathOpt};

fn s(x: &str) -> JsonValue {
    JsonValue::String(x.to_string())
}

fn num(i: i64) -> JsonValue {
    if i >= 0 {
        JsonValue::Number(JsonNumber::PosInt(i as u64))
    } else {
        JsonValue::Number(JsonNumber::NegInt(i))
    }
}

fn arr(items: Vec<JsonValue>) -> JsonValue {
    JsonValue::Array(items)
}

fn obj(pairs: Vec<(&str, JsonValue)>) -> JsonValue {
    let mut o = JsonObject::new();
    for (k, v) in pairs {
        o.insert_key(k.to_string(), v);
    }
    JsonValue::Object(o)
}

fn h(v: JsonValue) -> JsonLikeHelper {
    JsonLikeHelper(v)
}

fn keys(v: &JsonValue) -> Vec<String> {
    match v {
        JsonValue::Object(o) => o.entries().iter().map(|e| e.0.clone()).collect(),
        _ => panic!("not an object"),
    }
}

#[test]
fn index_object_by_key() {
    let v = obj(vec![("a", num(1)), ("b", num(2))]);
    assert_eq!(h(v).index(&h(s("b"))), Ok(h(num(2))));
}

#[test]
fn index_object_missing_key_is_null() {
    let v = obj(vec![("a", num(1))]);
    assert_eq!(h(v).index(&h(s("z"))), Ok(h(JsonValue::Null)));
}

#[test]
fn index_object_with_non_string_fails() {
    let v = obj(vec![("a", num(1))]);
    assert_eq!(h(v).index(&h(num(0))), Err(JqError::KeyNotString));
    let v = obj(vec![("a", num(1))]);
    assert_eq!(h(v).index(&h(JsonValue::Bool(true))), Err(JqError::KeyNotString));
}

#[test]
fn index_array_by_position() {
    let v = arr(vec![s("x"), s("y"), s("z")]);
    assert_eq!(h(v).index(&h(num(2))), Ok(h(s("z"))));
    let v = arr(vec![s("x")]);
    assert_eq!(h(v).index(&h(num(1))), Ok(h(JsonValue::Null)));
}

#[test]
fn index_array_with_non_unsigned_fails() {
    let v = arr(vec![s("x")]);
    assert_eq!(h(v).index(&h(num(-1))), Err(JqError::IndexNotU64));
    let v = arr(vec![s("x")]);
    let float = JsonValue::Number(JsonNumber::Float(1.0f64.to_bits()));
    assert_eq!(h(v).index(&h(float)), Err(JqError::IndexNotU64));
}

#[test]
fn index_scalar_fails() {
    assert_eq!(h(num(3)).index(&h(num(0))), Err(JqError::NotObjectOrArray));
    assert_eq!(h(s("ab")).index(&h(num(0))), Err(JqError::NotObjectOrArray));
}

#[test]
fn values_of_array_object_and_scalar() {
    let v = arr(vec![num(1), num(2)]);
    assert_eq!(h(v).values(), Ok(vec![h(num(1)), h(num(2))]));
    let v = obj(vec![("b", num(2)), ("a", num(1))]);
    assert_eq!(h(v).values(), Ok(vec![h(num(2)), h(num(1))]));
    assert_eq!(h(JsonValue::Null).values(), Err(JqError::NotObjectOrArray));
}

#[test]
fn range_of_array() {
    let v = arr(vec![num(0), num(1), num(2), num(3), num(4)]);
    let r = h(v).range(Some(&h(num(1))), Some(&h(num(3))));
    assert_eq!(r, Ok(h(arr(vec![num(1), num(2)]))));
}

#[test]
fn range_with_negative_and_large_bounds() {
    let v = arr(vec![num(0), num(1), num(2), num(3), num(4)]);
    let r = h(v).range(Some(&h(num(-2))), Some(&h(num(100))));
    assert_eq!(r, Ok(h(arr(vec![num(3), num(4)]))));
    let v = arr(vec![num(0), num(1), num(2)]);
    let r = h(v).range(Some(&h(num(2))), Some(&h(num(1))));
    assert_eq!(r, Ok(h(arr(vec![]))));
}

#[test]
fn range_of_string_counts_characters() {
    let r = h(s("h\u{e9}llo")).range(Some(&h(num(1))), Some(&h(num(3))));
    assert_eq!(r, Ok(h(s("\u{e9}l"))));
    let r = h(s("abc")).range(Some(&h(num(-1))), Some(&h(num(3))));
    assert_eq!(r, Ok(h(s("c"))));
}

#[test]
fn range_needs_integer_bounds() {
    let v = arr(vec![num(0)]);
    assert_eq!(h(v).range(None, Some(&h(num(1)))), Err(JqError::FromNotNumber));
    let v = arr(vec![num(0)]);
    assert_eq!(h(v).range(Some(&h(num(0))), None), Err(JqError::UptoNotNumber));
    let v = arr(vec![num(0)]);
    assert_eq!(h(v).range(Some(&h(s("x"))), Some(&h(s("y")))), Err(JqError::FromNotNumber));
    assert_eq!(
        h(s("abc")).range(Some(&h(num(0))), Some(&h(JsonValue::Null))),
        Err(JqError::UptoNotNumber)
    );
}

#[test]
fn range_of_other_values_fails() {
    let r = h(obj(vec![])).range(Some(&h(num(0))), Some(&h(num(1))));
    assert_eq!(r, Err(JqError::NotObjectOrArray));
    let r = h(JsonValue::Null).range(None, None);
    assert_eq!(r, Err(JqError::NotObjectOrArray));
}

fn replace_with(v: JsonValue) -> impl Fn(JsonLikeHelper) -> Option<Result<JsonLikeHelper, String>> {
    move |_old| Some(Ok(JsonLikeHelper(match &v {
        JsonValue::Number(n) => JsonValue::Number(*n),
        JsonValue::Bool(b) => JsonValue::Bool(*b),
        JsonValue::String(t) => JsonValue::String(t.clone()),
        _ => JsonValue::Null,
    })))
}

#[test]
fn map_index_rebinds_existing_key_in_place() {
    let v = obj(vec![("a", num(1)), ("b", num(2)), ("c", num(3))]);
    let r = h(v).map_index(&h(s("b")), PathOpt::Essential, replace_with(num(20)));
    let r = r.unwrap();
    assert_eq!(keys(&r.0), vec!["a", "b", "c"]);
    assert_eq!(r.index(&h(s("b"))), Ok(h(num(20))));
}

#[test]
fn map_index_sees_old_value() {
    let v = obj(vec![("a", num(1))]);
    let r = h(v).map_index(&h(s("a")), PathOpt::Essential, |old: JsonLikeHelper| {
        Some(Ok::<_, String>(JsonLikeHelper(arr(vec![old.0]))))
    });
    assert_eq!(r.unwrap().index(&h(s("a"))), Ok(h(arr(vec![num(1)]))));
}

#[test]
fn map_index_adds_new_key_at_end() {
    let v = obj(vec![("a", num(1))]);
    let r = h(v).map_index(&h(s("z")), PathOpt::Essential, |old: JsonLikeHelper| {
        assert_eq!(old, JsonLikeHelper(JsonValue::Null));
        Some(Ok::<_, String>(JsonLikeHelper(JsonValue::Bool(true))))
    });
    let r = r.unwrap();
    assert_eq!(keys(&r.0), vec!["a", "z"]);
}

#[test]
fn map_index_without_output_removes_key() {
    let v = obj(vec![("a", num(1)), ("b", num(2))]);
    let r = h(v).map_index(&h(s("a")), PathOpt::Essential, |_old: JsonLikeHelper| {
        None::<Result<JsonLikeHelper, String>>
    });
    let r = r.unwrap();
    assert_eq!(keys(&r.0), vec!["b"]);
    assert_eq!(r.index(&h(s("a"))), Ok(h(JsonValue::Null)));
}

#[test]
fn map_index_passes_exception_on() {
    let v = obj(vec![("a", num(1))]);
    let r = h(v).map_index(&h(s("a")), PathOpt::Optional, |_old: JsonLikeHelper| {
        Some(Err::<JsonLikeHelper, String>("boom".to_string()))
    });
    assert!(matches!(r, Err(PathError::Raised(e)) if e == "boom"));
}

#[test]
fn map_index_bad_key_depends_on_opt() {
    let v = obj(vec![("a", num(1))]);
    let r = h(v).map_index(&h(num(0)), PathOpt::Essential, replace_with(num(5)));
    assert!(matches!(r, Err(PathError::Failed(JqError::KeyNotString))));
    let v = obj(vec![("a", num(1))]);
    let r = h(v).map_index(&h(num(0)), PathOpt::Optional, replace_with(num(5)));
    assert_eq!(r.unwrap(), h(obj(vec![("a", num(1))])));
}

#[test]
fn map_index_updates_array_element() {
    let v = arr(vec![num(1), num(2), num(3)]);
    let r = h(v).map_index(&h(num(1)), PathOpt::Essential, replace_with(s("x")));
    assert_eq!(r.unwrap(), h(arr(vec![num(1), s("x"), num(3)])));
}

#[test]
fn map_index_without_output_removes_element() {
    let v = arr(vec![num(1), num(2), num(3)]);
    let r = h(v).map_index(&h(num(0)), PathOpt::Essential, |_old: JsonLikeHelper| {
        None::<Result<JsonLikeHelper, String>>
    });
    assert_eq!(r.unwrap(), h(arr(vec![num(2), num(3)])));
}

#[test]
fn map_index_out_of_bounds_depends_on_opt() {
    let v = arr(vec![num(1)]);
    let r = h(v).map_index(&h(num(5)), PathOpt::Essential, replace_with(num(0)));
    assert!(matches!(r, Err(PathError::Failed(JqError::IndexOutOfBounds(5)))));
    let v = arr(vec![num(1)]);
    let r = h(v).map_index(&h(num(5)), PathOpt::Optional, replace_with(num(0)));
    assert_eq!(r.unwrap(), h(arr(vec![num(1)])));
    let v = arr(vec![num(1)]);
    let r = h(v).map_index(&h(s("a")), PathOpt::Essential, replace_with(num(0)));
    assert!(matches!(r, Err(PathError::Failed(JqError::IndexNotU64))));
}

#[test]
fn map_index_on_scalar_depends_on_opt() {
    let r = h(num(7)).map_index(&h(num(0)), PathOpt::Essential, replace_with(num(0)));
    assert!(matches!(r, Err(PathError::Failed(JqError::NotObjectOrArray))));
    let r = h(num(7)).map_index(&h(num(0)), PathOpt::Optional, replace_with(num(0)));
    assert_eq!(r.unwrap(), h(num(7)));
}

#[test]
fn map_range_splices_outputs() {
    let v = arr(vec![num(0), num(1), num(2), num(3)]);
    let r = h(v).map_range(Some(&h(num(1))), Some(&h(num(3))), PathOpt::Essential, |slice: JsonLikeHelper| {
        assert_eq!(slice, JsonLikeHelper(arr(vec![num(1), num(2)])));
        Ok::<_, String>(vec![JsonLikeHelper(s("a")), JsonLikeHelper(s("b")), JsonLikeHelper(s("c"))])
    });
    assert_eq!(r.unwrap(), h(arr(vec![num(0), s("a"), s("b"), s("c"), num(3)])));
}

#[test]
fn map_range_open_bounds() {
    let v = arr(vec![num(0), num(1), num(2)]);
    let r = h(v).map_range(None, Some(&h(s("x"))), PathOpt::Essential, |_slice: JsonLikeHelper| {
        Ok::<_, String>(vec![])
    });
    assert_eq!(r.unwrap(), h(arr(vec![])));
    let v = arr(vec![num(0), num(1), num(2)]);
    let r = h(v).map_range(Some(&h(num(-1))), None, PathOpt::Essential, |_slice: JsonLikeHelper| {
        Ok::<_, String>(vec![JsonLikeHelper(num(9))])
    });
    assert_eq!(r.unwrap(), h(arr(vec![num(0), num(1), num(9)])));
}

#[test]
fn map_range_exception_and_non_array() {
    let v = arr(vec![num(0)]);
    let r = h(v).map_range(None, None, PathOpt::Essential, |_slice: JsonLikeHelper| {
        Err::<Vec<JsonLikeHelper>, String>("no".to_string())
    });
    assert!(matches!(r, Err(PathError::Raised(e)) if e == "no"));
    let r = h(s("abc")).map_range(None, None, PathOpt::Essential, |_slice: JsonLikeHelper| {
        Ok::<_, String>(vec![])
    });
    assert!(matches!(r, Err(PathError::Failed(JqError::NotArray))));
    let r = h(s("abc")).map_range(None, None, PathOpt::Optional, |_slice: JsonLikeHelper| {
        Ok::<_, String>(vec![])
    });
    assert_eq!(r.unwrap(), h(s("abc")));
}

fn first_none_for_two(v: JsonLikeHelper) -> Option<Result<JsonLikeHelper, String>> {
    match v.0 {
        JsonValue::Number(JsonNumber::PosInt(2)) => None,
        JsonValue::Number(JsonNumber::PosInt(n)) => Some(Ok(JsonLikeHelper(JsonValue::Number(JsonNumber::PosInt(n * 10))))),
        _ => Some(Err("not a number".to_string())),
    }
}

fn all_twice(v: JsonLikeHelper) -> Result<Vec<JsonLikeHelper>, String> {
    match v.0 {
        JsonValue::Number(n) => Ok(vec![
            JsonLikeHelper(JsonValue::Number(n)),
            JsonLikeHelper(JsonValue::Number(n)),
        ]),
        _ => Err("not a number".to_string()),
    }
}

#[test]
fn map_values_of_array_collects_all_outputs() {
    let v = arr(vec![num(1), num(2)]);
    let r = h(v).map_values(PathOpt::Essential, first_none_for_two, all_twice);
    assert_eq!(r.unwrap(), h(arr(vec![num(1), num(1), num(2), num(2)])));
}

#[test]
fn map_values_of_object_keeps_first_output() {
    let v = obj(vec![("a", num(1)), ("b", num(2)), ("c", num(3))]);
    let r = h(v).map_values(PathOpt::Essential, first_none_for_two, all_twice);
    let r = r.unwrap();
    assert_eq!(keys(&r.0), vec!["a", "c"]);
    assert_eq!(r.values(), Ok(vec![h(num(10)), h(num(30))]));
}

#[test]
fn map_values_stops_at_exception() {
    let v = arr(vec![num(1), s("x"), num(2)]);
    let r = h(v).map_values(PathOpt::Essential, first_none_for_two, all_twice);
    assert!(matches!(r, Err(PathError::Raised(e)) if e == "not a number"));
    let v = obj(vec![("a", s("x"))]);
    let r = h(v).map_values(PathOpt::Optional, first_none_for_two, all_twice);
    assert!(matches!(r, Err(PathError::Raised(_))));
}

#[test]
fn map_values_of_scalar_depends_on_opt() {
    let r = h(JsonValue::Bool(false)).map_values(PathOpt::Essential, first_none_for_two, all_twice);
    assert!(matches!(r, Err(PathError::Failed(JqError::NotObjectOrArray))));
    let r = h(JsonValue::Bool(false)).map_values(PathOpt::Optional, first_none_for_two, all_twice);
    assert_eq!(r.unwrap(), h(JsonValue::Bool(false)));
}

#[test]
fn truthiness() {
    assert!(!h(JsonValue::Null).as_bool());
    assert!(!h(JsonValue::Bool(false)).as_bool());
    assert!(h(JsonValue::Bool(true)).as_bool());
    assert!(h(num(0)).as_bool());
    assert!(h(s("")).as_bool());
    assert!(h(arr(vec![])).as_bool());
}

#[test]
fn text_of_values() {
    assert_eq!(h(s("hi")).as_str(), Some("hi"));
    assert_eq!(h(JsonValue::Bool(true)).as_str(), Some("true"));
    assert_eq!(h(JsonValue::Bool(false)).as_str(), Some("false"));
    assert_eq!(h(num(1)).as_str(), None);
    assert_eq!(h(JsonValue::Null).as_str(), None);
}

fn add_ints(x: JsonNumber, y: JsonNumber) -> JsonNumber {
    match (x, y) {
        (JsonNumber::PosInt(a), JsonNumber::PosInt(b)) => JsonNumber::PosInt(a.wrapping_add(b)),
        _ => JsonNumber::Float(0),
    }
}

#[test]
fn add_values() {
    assert_eq!(h(JsonValue::Null).add(h(JsonValue::Null), add_ints), Ok(h(JsonValue::Null)));
    assert_eq!(h(num(2)).add(h(num(3)), add_ints), Ok(h(num(5))));
    assert_eq!(h(s("ab")).add(h(s("cd")), add_ints), Ok(h(s("abcd"))));
    assert_eq!(
        h(arr(vec![num(1)])).add(h(arr(vec![num(2), num(3)])), add_ints),
        Ok(h(arr(vec![num(1), num(2), num(3)])))
    );
}

#[test]
fn add_objects_right_wins() {
    let l = obj(vec![("a", num(1)), ("b", num(2))]);
    let r = obj(vec![("b", num(20)), ("c", num(30))]);
    let m = h(l).add(h(r), add_ints).unwrap();
    assert_eq!(keys(&m.0), vec!["a", "b", "c"]);
    assert_eq!(m.values(), Ok(vec![h(num(1)), h(num(20)), h(num(30))]));
}

#[test]
fn add_mismatch_fails() {
    assert_eq!(h(JsonValue::Null).add(h(num(1)), add_ints), Err(JqError::AddMismatch));
    assert_eq!(h(s("a")).add(h(num(1)), add_ints), Err(JqError::AddMismatch));
    assert_eq!(h(arr(vec![])).add(h(obj(vec![])), add_ints), Err(JqError::AddMismatch));
}

#[test]
fn from_map_builds_object_last_binding_wins() {
    let pairs = vec![
        (h(s("a")), h(num(1))),
        (h(s("b")), h(num(2))),
        (h(s("a")), h(num(3))),
    ];
    let r = JsonLikeHelper::from_map(pairs).unwrap();
    assert_eq!(keys(&r.0), vec!["a", "b"]);
    assert_eq!(r.values(), Ok(vec![h(num(3)), h(num(2))]));
}

#[test]
fn from_map_needs_string_keys() {
    let pairs = vec![(h(s("a")), h(num(1))), (h(num(1)), h(num(2)))];
    assert_eq!(JsonLikeHelper::from_map(pairs), Err(JqError::KeyNotString));
    assert_eq!(JsonLikeHelper::from_map(vec![]), Ok(h(obj(vec![]))));
}

#[test]
fn conversions() {
    assert_eq!(JsonLikeHelper::from(true), h(JsonValue::Bool(true)));
    assert_eq!(JsonLikeHelper::from(-4isize), h(num(-4)));
    assert_eq!(JsonLikeHelper::from(4isize), h(num(4)));
    assert_eq!(JsonLikeHelper::from("x".to_string()), h(s("x")));
    assert_eq!(JsonLikeHelper::from(num(1)), h(num(1)));
    assert_eq!(JsonLikeHelper::from_items(vec![h(num(1)), h(s("a"))]), h(arr(vec![num(1), s("a")])));
    let w = h(num(8));
    assert_eq!(*w, num(8));
}

#[test]
fn number_accessors() {
    assert_eq!(num(5).as_i64(), Some(5));
    assert_eq!(num(-5).as_i64(), Some(-5));
    assert_eq!(num(-5).as_u64(), None);
    assert_eq!(JsonValue::Number(JsonNumber::PosInt(u64::MAX)).as_i64(), None);
    assert_eq!(JsonValue::Number(JsonNumber::PosInt(u64::MAX)).as_u64(), Some(u64::MAX));
    assert_eq!(JsonValue::Number(JsonNumber::Float(2.5f64.to_bits())).as_i64(), None);
    assert!(JsonValue::Null.is_null());
    assert!(!num(0).is_null());
}

#[test]
fn error_messages() {
    assert_eq!(JqError::KeyNotString.message(), "Key cannot be converted to String");
    assert_eq!(JqError::IndexNotU64.message(), "Index cannot be converted to u64");
    assert_eq!(JqError::NotObjectOrArray.message(), "Value is not object or array");
    assert_eq!(JqError::FromNotNumber.message(), "From is not a Number");
    assert_eq!(JqError::UptoNotNumber.message(), "Upto is not a Number");
    assert_eq!(JqError::FromNotIsize.message(), "From cannot be converted to isize");
    assert_eq!(JqError::UptoNotIsize.message(), "Upto cannot be converted to isize");
    assert_eq!(JqError::IndexOutOfBounds(-3).message(), "index -3 out of bounds");
    assert_eq!(JqError::IndexOutOfBounds(42).message(), "index 42 out of bounds");
    assert_eq!(JqError::RangeNotParsed.message(), "Failed to parse range");
    assert_eq!(JqError::NotArray.message(), "Value is not array");
    assert_eq!(JqError::AddMismatch.message(), "Cannot add values of different types");
}

#[test]
fn errors_become_engine_errors() {
    let e: jaq_core::Error<String> = JqError::NotArray.into_jaq_error();
    assert_eq!(e.to_string(), "Value is not array");
    let e: jaq_core::Error<String> = JqError::IndexOutOfBounds(7).into_jaq_error();
    assert_eq!(e.to_string(), "index 7 out of bounds");
}

#[test]
fn path_opt_fail() {
    let r: Result<i32, PathError<String>> = PathOpt::Optional.fail(3, JqError::NotArray);
    assert!(matches!(r, Ok(3)));
    let r: Result<i32, PathError<String>> = PathOpt::Essential.fail(3, JqError::NotArray);
    assert!(matches!(r, Err(PathError::Failed(JqError::NotArray))));
}

#[test]
fn path_errors_become_engine_exceptions() {
    let failed: PathError<jaq_core::Exn<'static, String>> = PathError::Failed(JqError::NotArray);
    let exn = failed.into_exn();
    assert!(format!("{:?}", exn).contains("Value is not array"));
}

#[test]
fn out_of_bounds_message_digits() {
    assert_eq!(JqError::IndexOutOfBounds(0).message(), "index 0 out of bounds");
    assert_eq!(JqError::IndexOutOfBounds(10).message(), "index 10 out of bounds");
    assert_eq!(JqError::IndexOutOfBounds(isize::MAX).message(), format!("index {} out of bounds", isize::MAX));
    assert_eq!(JqError::IndexOutOfBounds(isize::MIN).message(), format!("index {} out of bounds", isize::MIN));
}
