//! Lines of bounded length, however the input is cut.

use okf_memory::json_parse::parse;
use okf_memory::mcp::McpServer;
use okf_memory::memory::InMemoryStore;
use okf_memory::model::{Budget, Principal};
use okf_memory::stdio::{answer_line, too_long, LineBuffer, LineStep, MemoryTools};

fn feed(buffer: LineBuffer, chunk: &[u8]) -> (usize, LineStep) {
    buffer.feed(chunk)
}

fn more(step: LineStep) -> LineBuffer {
    match step {
        LineStep::More(b) => b,
        _ => panic!("la línea debía seguir"),
    }
}

#[test]
fn una_linea_en_varios_trozos() {
    // La eñe queda partida entre dos trozos.
    let bytes = "mañana\nresto".as_bytes();
    for cut in 1..7 {
        let (used, step) = feed(LineBuffer::new(100), &bytes[..cut]);
        assert_eq!(used, cut);
        let (used, step) = feed(more(step), &bytes[cut..]);
        assert_eq!(used, 8 - cut);
        match step {
            LineStep::Line(text, total) => {
                assert_eq!(text, "mañana\n");
                assert_eq!(total, 8);
            }
            _ => panic!("falta la línea"),
        }
    }
}

#[test]
fn fin_de_la_entrada() {
    match feed(LineBuffer::new(10), b"") {
        (0, LineStep::Line(text, 0)) => assert!(text.is_empty()),
        _ => panic!("el fin es una línea vacía"),
    }
    let (_, step) = feed(LineBuffer::new(10), b"sin fin");
    match feed(more(step), b"") {
        (0, LineStep::Line(text, 7)) => assert_eq!(text, "sin fin"),
        _ => panic!("falta la última línea"),
    }
}

#[test]
fn linea_demasiado_larga_se_consume_hasta_su_fin() {
    let (used, step) = feed(LineBuffer::new(4), b"123456");
    assert_eq!(used, 6);
    let (used, step) = feed(more(step), b"78\nok\n");
    assert_eq!(used, 3, "lo que sigue es otra línea");
    assert!(matches!(step, LineStep::TooLong));
    assert!(matches!(feed(LineBuffer::new(4), b"123\n").1, LineStep::Line(_, 4)));
    assert!(matches!(feed(LineBuffer::new(4), b"1234\n").1, LineStep::TooLong));
}

#[test]
fn bytes_que_no_son_texto() {
    assert!(matches!(feed(LineBuffer::new(10), b"\xff\xfe\n").1, LineStep::TooLong));
}

#[test]
fn respuesta_a_una_linea_demasiado_larga() {
    let text = too_long(1024);
    assert_eq!(
        text,
        r#"{"jsonrpc":"2.0","id":null,"error":{"code":-32600,"message":"petición mayor que 1024 bytes"}}"#
    );
    assert!(parse(&text).is_ok());
}

#[test]
fn las_lineas_en_blanco_no_se_responden() {
    let tools = MemoryTools::new(InMemoryStore::new(), Principal::local_dev(), Budget::default());
    let mut server = McpServer::new("local", "0", tools);
    assert_eq!(answer_line(&mut server, "  \r\n"), None);
    assert_eq!(
        answer_line(&mut server, "  {\"jsonrpc\":\"2.0\",\"id\":1,\"method\":\"ping\"}\n").unwrap(),
        r#"{"id":1,"jsonrpc":"2.0","result":{}}"#
    );
}
