//! Reading requests byte by byte, and heading answers.

use okf_memory::http::{
    accept, assemble, origin_list, reason_phrase, write_head, HeadReader, HttpRequest, HttpResponse, Progress,
    RequestHead, MAX_HEADER_BYTES, MAX_LINE_BYTES,
};
use okf_memory::model::Budget;

enum End {
    More(HeadReader),
    Done(RequestHead, usize),
    Refused(HttpResponse),
}

fn read(bytes: &[u8], max: usize) -> End {
    let mut reader = HeadReader::new();
    for (i, b) in bytes.iter().enumerate() {
        match reader.feed(*b, max) {
            Progress::More(next) => reader = next,
            Progress::Done(head) => return End::Done(head, i + 1),
            Progress::Refused(resp) => return End::Refused(resp),
        }
    }
    End::More(reader)
}

fn refused(bytes: &[u8], max: usize) -> HttpResponse {
    match read(bytes, max) {
        End::Refused(r) => r,
        End::More(_) => panic!("faltan bytes"),
        End::Done(h, _) => panic!("aceptada: {h:?}"),
    }
}

#[test]
fn cabecera_completa() {
    let raw = b"POST /mcp?x=1 HTTP/1.1\r\nHost: localhost\r\nContent-Type: application/json\r\nORIGIN:  https://a.example \nContent-Length: +12\r\n\r\n{}";
    match read(raw, 1024) {
        End::Done(head, used) => {
            assert_eq!(head.method, "POST");
            assert_eq!(head.path, "/mcp", "la consulta no es parte de la ruta");
            assert_eq!(head.content_type.as_deref(), Some("application/json"));
            assert_eq!(head.origin.as_deref(), Some("https://a.example"));
            assert_eq!(head.content_length, 12);
            assert_eq!(&raw[used..], b"{}");
            let req = assemble(&head, b"{}".to_vec());
            assert_eq!(req.path, "/mcp");
            assert_eq!(req.body, b"{}");
        }
        _ => panic!("cabecera incompleta"),
    }
}

#[test]
fn sin_ruta_es_400() {
    let r = refused(b"GET\r\n", 10);
    assert_eq!((r.status, r.body.as_str()), (400, "falta la ruta"));
}

#[test]
fn linea_de_peticion_demasiado_larga_es_400() {
    let r = refused(&vec![b'a'; MAX_LINE_BYTES + 1], 10);
    assert_eq!(r.status, 400);
    assert_eq!(r.body, "línea de petición inválida o demasiado larga");
    assert!(matches!(read(&vec![b'a'; MAX_LINE_BYTES], 10), End::More(_)));
}

#[test]
fn cabeceras_demasiado_grandes_son_431() {
    let mut raw = b"GET / HTTP/1.1\r\n".to_vec();
    for _ in 0..(MAX_HEADER_BYTES / 100) {
        raw.extend_from_slice(b"X: ");
        raw.extend_from_slice(&vec![b'a'; 110]);
        raw.extend_from_slice(b"\r\n");
    }
    let r = refused(&raw, 10);
    assert_eq!(r.status, 431);
    assert_eq!(r.body, "cabeceras demasiado grandes o inválidas");
}

#[test]
fn cabecera_que_no_es_texto_es_431() {
    assert_eq!(refused(b"GET / HTTP/1.1\r\nX: \xff\xfe\r\n", 10).status, 431);
    assert_eq!(refused(b"GET /\xff HTTP/1.1\r\n", 10).status, 400);
}

#[test]
fn longitud_que_no_es_un_numero_es_400() {
    for bad in ["x", "-1", "", "99999999999999999999999"] {
        let raw = format!("POST /mcp HTTP/1.1\r\nContent-Length: {bad}\r\n");
        let r = refused(raw.as_bytes(), 10);
        assert_eq!((r.status, r.body.as_str()), (400, "Content-Length no es un entero válido"));
    }
}

#[test]
fn cuerpo_declarado_de_mas_es_413_sin_leerlo() {
    let r = refused(b"POST /mcp HTTP/1.1\r\nContent-Length: 999999999\r\n\r\n", 1024);
    assert_eq!(r.status, 413);
    assert_eq!(r.body, "el cuerpo declarado supera el máximo de 1024 bytes");
    assert!(matches!(
        read(b"POST /mcp HTTP/1.1\r\nContent-Length: 1024\r\n\r\n", 1024),
        End::Done(_, _)
    ));
}

#[test]
fn corte_a_medias() {
    match read(b"GET / HT", 10) {
        End::More(r) => assert_eq!(r.cut_short().status, 400),
        _ => panic!("no está completa"),
    }
    match read(b"GET / HTTP/1.1\r\nHost", 10) {
        End::More(r) => assert_eq!(r.cut_short().status, 431),
        _ => panic!("no está completa"),
    }
}

#[test]
fn cabecera_de_respuesta_exacta() {
    let resp = HttpResponse {
        status: 200,
        content_type: "application/json",
        body: "ñ".to_string(),
    };
    assert_eq!(
        write_head(&resp),
        "HTTP/1.1 200 OK\r\nContent-Type: application/json\r\nContent-Length: 2\r\nConnection: close\r\n\r\n"
    );
    let table = [
        (202, "Accepted"),
        (400, "Bad Request"),
        (403, "Forbidden"),
        (404, "Not Found"),
        (405, "Method Not Allowed"),
        (413, "Payload Too Large"),
        (415, "Unsupported Media Type"),
        (431, "Request Header Fields Too Large"),
        (500, "Error"),
    ];
    for (status, words) in table {
        assert_eq!(reason_phrase(status), words);
    }
}

#[test]
fn orden_de_los_rechazos() {
    let req = |method: &str, path: &str, origin: Option<&str>, ct: Option<&str>, body: &[u8]| HttpRequest {
        method: method.to_string(),
        path: path.to_string(),
        origin: origin.map(String::from),
        content_type: ct.map(String::from),
        body: body.to_vec(),
    };
    let budget = Budget { max_request_bytes: 4, ..Budget::default() };
    let allowed = vec!["https://a.example".to_string()];
    let status = |r: &HttpRequest| accept(r, &budget, &allowed).unwrap_err().status;
    assert_eq!(status(&req("GET", "/x", Some("https://b.example"), None, b"")), 404);
    assert_eq!(status(&req("GET", "/mcp", Some("https://b.example"), None, b"")), 403);
    assert_eq!(status(&req("PUT", "/mcp", Some("https://a.example"), None, b"")), 405);
    assert_eq!(status(&req("POST", "/mcp", None, None, b"12345")), 413);
    assert_eq!(status(&req("POST", "/mcp", None, None, b"1234")), 415);
    let json = Some("application/json; charset=utf-8");
    assert_eq!(status(&req("POST", "/mcp", None, json, b"\xff")), 400);
    assert_eq!(accept(&req("POST", "/mcp", None, json, "ñ".as_bytes()), &budget, &allowed).unwrap(), "ñ");
}

#[test]
fn lista_de_origenes() {
    assert_eq!(
        origin_list(" https://a.example , ,https://b.example,"),
        vec!["https://a.example", "https://b.example"]
    );
    assert!(origin_list("").is_empty());
}
