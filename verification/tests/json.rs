//! JSON values and their text.

use okf_memory::json::{to_string, Value};
use okf_memory::json_parse::{parse, MAX_DEPTH};
use okf_memory::number::Number;

#[test]
fn ida_y_vuelta_basica() {
    let casos = [
        r#"null"#,
        r#"true"#,
        r#"[1,2,3]"#,
        r#"{"a":1,"b":[true,null],"c":"hola"}"#,
        r#""líneas\ncon\ttabs y ñ""#,
    ];
    for caso in casos {
        let v = parse(caso).unwrap_or_else(|e| panic!("{caso}: {e:?}"));
        let out = to_string(&v);
        let v2 = parse(&out).unwrap();
        assert_eq!(v, v2, "no estable: {caso}");
    }
}

#[test]
fn escapes_unicode() {
    let v = parse(r#""ñ 🦀""#).unwrap();
    assert_eq!(v, Value::String("ñ 🦀".to_string()));
    assert!(parse(r#""\ud800""#).is_err(), "subrogado alto suelto");
    assert!(parse(r#""\udc00""#).is_err(), "subrogado bajo suelto");
}

#[test]
fn rechaza_json_invalido() {
    for malo in [
        "", "{", "[1,", r#"{"a"}"#, "01", "1.", "1e", "tru", "{}extra",
        "\"sin cerrar", "[1 2]", "nan", "-",
    ] {
        assert!(parse(malo).is_err(), "debería rechazar {malo:?}");
    }
}

#[test]
fn limite_de_profundidad() {
    let profundo = "[".repeat(MAX_DEPTH + 2) + &"]".repeat(MAX_DEPTH + 2);
    let err = parse(&profundo).unwrap_err();
    assert!(err.message.contains("profundo"));
}

#[test]
fn numeros_enteros_estables() {
    let v = parse("42").unwrap();
    assert_eq!(to_string(&v), "42");
    assert_eq!(v.as_u64(), Some(42));
    assert_eq!(parse("1.5").unwrap().as_u64(), None);
    assert_eq!(parse("-1").unwrap().as_u64(), None);
}

#[test]
fn objetos_deterministas() {
    let v = parse(r#"{"z":1,"a":2}"#).unwrap();
    assert_eq!(to_string(&v), r#"{"a":2,"z":1}"#);
}

#[test]
fn claves_duplicadas_gana_la_ultima() {
    let v = parse(r#"{"a":1,"a":2}"#).unwrap();
    assert_eq!(v.get("a"), Some(&Value::Number(Number::from_u64(2))));
}
