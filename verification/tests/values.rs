//! Exact texts of values, and what is wrong with bad ones.

use okf_memory::json::{arr, n, obj, s, to_string, Value};
use okf_memory::json_parse::parse;
use okf_memory::model::{ConceptId, ContentId};
use okf_memory::number::Number;
use okf_memory::sha256::sha256;

#[test]
fn numeros_con_texto_exacto() {
    for (given, written) in [
        ("0", "0"),
        ("-0", "0"),
        ("1.50", "1.5"),
        ("-12e3", "-12000"),
        ("5e-3", "0.005"),
        ("123.456", "123.456"),
        ("1e-400", "0"),
        ("9007199254740993", "9007199254740992"),
        ("9007199254740995", "9007199254740996"),
        ("0.1000000000000000055511151231257827", "0.1"),
        ("1125899906842624.25", "1125899906842624.3"),
        ("5e-324", &format!("{}", 5e-324)),
        ("1.7976931348623157e308", &format!("{}", f64::MAX)),
    ] {
        let v = parse(given).unwrap();
        assert_eq!(to_string(&v), written, "{given}");
        assert_eq!(parse(written).unwrap(), v);
    }
    assert!(parse("1e400").unwrap_err().message.contains("fuera de rango"));
    assert_eq!(parse("9007199254740992").unwrap().as_u64(), Some(9007199254740992));
    assert_eq!(parse("9007199254740993").unwrap().as_u64(), Some(9007199254740992));
    assert_eq!(parse("9007199254740994").unwrap().as_u64(), None);
    assert_eq!(parse("2251799813685249.3").unwrap().as_u64(), None);
    assert_eq!(parse("-0").unwrap().as_u64(), Some(0));
    assert_eq!(parse("-0").unwrap(), parse("0").unwrap());
    assert_ne!(parse("-1").unwrap(), parse("1").unwrap());
    assert_eq!(Number::from_i64(-32600).text(), "-32600");
    assert_eq!(Number::from_ratio(1, 3).text(), "0.3333333333333333");
    assert_eq!(Number::from_ratio(2, 3).text(), "0.6666666666666666");
    assert_eq!(Number::from_ratio(1, 4).text(), "0.25");
    assert_eq!(Number::from_ratio(0, 0).text(), "0");
    assert_eq!(Number::from_u64(u64::MAX).text(), format!("{}", u64::MAX as f64));
    assert_eq!(Number::from_i64(i64::MIN).text(), format!("{}", i64::MIN as f64));
}

/// What a double is written as: without a fraction where it has none.
fn written(x: f64) -> String {
    if x.fract() == 0.0 && x.abs() < 9007199254740992.0 {
        format!("{}", x as i64)
    } else {
        format!("{x}")
    }
}

#[test]
fn todo_numero_se_lee_y_se_escribe_como_un_double() {
    let mut state: u64 = 0x9e37_79b9_7f4a_7c15;
    let mut next = || {
        state ^= state << 13;
        state ^= state >> 7;
        state ^= state << 17;
        state
    };
    let mut bits: Vec<u64> = vec![1, 2, (1 << 52) - 1, 1 << 52, (1 << 52) + 1, 0x7fef_ffff_ffff_ffff];
    for e in [1u64, 700, 1000, 1022, 1023, 1024, 1073, 1075, 1076, 1100, 1500, 2046] {
        bits.push(e << 52);
        bits.push((e << 52) + 1);
        bits.push((e << 52) - 1);
    }
    for _ in 0..60 {
        bits.push(next() & 0x7fff_ffff_ffff_ffff);
        bits.push((1000 + next() % 80) << 52 | next() >> 12);
    }
    for b in bits {
        let x = f64::from_bits(b);
        if !x.is_finite() {
            continue;
        }
        let v = parse(&format!("{x:e}")).unwrap();
        assert_eq!(to_string(&v), written(x), "{b:x}");
        let neg = parse(&format!("{:.25e}", -x)).unwrap();
        assert_eq!(to_string(&neg), written(format!("{:.25e}", -x).parse().unwrap()), "{b:x}");
    }
    for text in [
        "179769313486231580793728971405303415079934132710037826936173778980444968292764750946649017977587207096330286416692887910946555547851940402630657488671505820681908902000708383676273854845817711531764475730270069855571366959622842914819860834936475292719074168444365510704342711559699508093042880177904174497791.9",
        "2.4703282292062327208299439643411068618252990130716238221279284125033775363510437593264991818081799618989828234772285886546332835517796989819938739800539093906315035659515570226392290858392449105184435931802849936536152500319370457678249219365623669863658480757001585769269903706311928279558551332927834338409351978015531246597263579574622766465272827220056374006485499977096599470454020828166226237857393450736339007967761930577506740176324673600968951340535537458516661134223766678604816159e-324",
        "2.5e-324", "2e-324", "123456789012345678", "0.1e1", "72057594037927945", "1e23", "9e22",
        "0.000001", "123e-20", "4.35", "0.30000000000000004", "8.41", "2.2250738585072011e-308",
    ] {
        let v = parse(text).unwrap();
        assert_eq!(to_string(&v), written(text.parse().unwrap()), "{text}");
    }
    assert!(parse("179769313486231580793728971405303415079934132710037826936173778980444968292764750946649017977587207096330286416692887910946555547851940402630657488671505820681908902000708383676273854845817711531764475730270069855571366959622842914819860834936475292719074168444365510704342711559699508093042880177904174497792").is_err());
    let long = format!("0.{}", "3".repeat(4000));
    assert_eq!(to_string(&parse(&long).unwrap()), "0.3333333333333333");
    assert_eq!(to_string(&parse(&format!("1{}e-5000", "0".repeat(5000))).unwrap()), "1");
}

#[test]
fn los_enteros_vuelven_tal_cual() {
    for x in [0u64, 1, 7, 10, 999, 1000, 123_456_789, 9_007_199_254_740_991, 9_007_199_254_740_992] {
        assert_eq!(Number::from_u64(x).text(), x.to_string());
        assert_eq!(Number::from_u64(x).as_u64(), Some(x));
        assert_eq!(parse(&x.to_string()).unwrap(), n(x));
    }
    for (a, b) in [(1usize, 7usize), (3, 7), (5, 6), (10, 11), (1, 49), (97, 100), (123, 1000)] {
        assert_eq!(Number::from_ratio(a, b).text(), format!("{}", a as f64 / b as f64));
    }
}

#[test]
fn escapes_con_texto_exacto() {
    let v = s("\"\\\n\r\t\u{1}\u{1f}ñ🦀/");
    let text = to_string(&v);
    assert_eq!(text, "\"\\\"\\\\\\n\\r\\t\\u0001\\u001fñ🦀/\"");
    assert_eq!(parse(&text).unwrap(), v);
    assert_eq!(parse(r#""\u00f1 \ud83e\udd80 \/ \b\f""#).unwrap(), s("ñ 🦀 / \u{8}\u{c}"));
}

#[test]
fn objetos_y_listas() {
    let v = obj(vec![("b", n(1)), ("a", arr(vec![Value::Null, Value::Bool(false)])), ("b", n(2))]);
    assert_eq!(to_string(&v), r#"{"a":[null,false],"b":2}"#);
    assert_eq!(parse(" { \"b\" : 2 , \"a\" : [ null , false ] } ").unwrap(), v);
    assert_eq!(parse("[]").unwrap(), arr(vec![]));
    assert_eq!(to_string(&parse("{}").unwrap()), "{}");
}

#[test]
fn errores_con_su_posicion() {
    for (text, offset, words) in [
        ("", 0, "fin inesperado"),
        ("x", 0, "carácter inesperado 'x'"),
        ("ñ", 0, "carácter inesperado 'Ã'"),
        ("tru", 0, "se esperaba el literal true"),
        ("\"a", 2, "string sin cerrar"),
        ("\"\\q\"", 2, "escape inválido"),
        ("\"\\u12\"", 3, "\\u incompleto"),
        ("\"\\u12g4\"", 3, "dígito hex inválido"),
        ("\"\\ud800x\"", 7, "subrogado alto sin pareja"),
        ("\"\\ud800\\u0041\"", 13, "subrogado bajo inválido"),
        ("\"\\udc00\"", 7, "subrogado bajo sin pareja"),
        ("\"\u{1}\"", 1, "carácter de control"),
        ("-", 1, "dígito esperado"),
        ("1.x", 2, "dígito esperado tras '.'"),
        ("1ex", 2, "dígito esperado en el exponente"),
        ("[1 2]", 3, "se esperaba ',' o ']'"),
        ("{1:2}", 1, "se esperaba '\"'"),
        ("{\"a\" 1}", 5, "se esperaba ':'"),
        ("{\"a\":1 2}", 7, "se esperaba ',' o '}'"),
        ("1 2", 2, "contenido extra"),
    ] {
        let e = parse(text).unwrap_err();
        assert_eq!(e.offset, offset, "{text}");
        assert!(e.message.contains(words), "{text}: {}", e.message);
        assert!(e.text().starts_with(&format!("JSON inválido en el byte {offset}: ")));
    }
}

#[test]
fn anidamiento_hasta_el_limite() {
    for depth in [64, 65] {
        let text = "[".repeat(depth) + &"]".repeat(depth);
        let v = parse(&text).unwrap();
        assert_eq!(parse(&to_string(&v)).unwrap(), v);
    }
    let deep = "[".repeat(66) + &"]".repeat(66);
    assert!(parse(&deep).is_err());
}

#[test]
fn sha256_de_vectores_conocidos() {
    let hex = |b: &[u8]| ContentId(sha256(b)).to_hex();
    assert_eq!(hex(b""), "e3b0c44298fc1c149afbf4c8996fb92427ae41e4649b934ca495991b7852b855");
    assert_eq!(hex(b"abc"), "ba7816bf8f01cfea414140de5dae2223b00361a396177a9cb410ff61f20015ad");
    assert_eq!(
        hex(b"abcdbcdecdefdefgefghfghighijhijkijkljklmklmnlmnomnopnopq"),
        "248d6a61d20638b8e5c026930c3e6039a33ce45964ff2167f6ecedd419db06c1"
    );
    assert_eq!(
        hex(&vec![b'a'; 1_000_000]),
        "cdc76e5c9914fb9281a1c7e284d73e67f1809a48a497200e046d39ccc7112cd0"
    );
}

#[test]
fn mensajes_de_identificadores() {
    let say = |s: &str| ConceptId::parse(s).unwrap_err().message();
    assert_eq!(say(""), "el identificador está vacío");
    assert_eq!(say("/a"), "no puede empezar ni terminar con '/'");
    assert_eq!(say("aB"), "byte no permitido 0x42 en la posición 1");
    assert_eq!(say("a//b"), "segmento no permitido: \"\"");
    assert!(say(&"a".repeat(300)).starts_with("identificador de 300 bytes; el máximo es "));
}
