use epubtr::json::read_json_text;
use epubtr::stream::{event_payloads, StreamReader};

fn delta(text: &str) -> String {
    format!("data: {{\"choices\":[{{\"delta\":{{\"content\":\"{}\"}}}}]}}\n\n", text)
}

#[test]
fn data_lines_of_an_event() {
    assert_eq!(event_payloads("id: 1\ndata: a \r\ndata:b\n: c"), vec!["a", "b"]);
    assert_eq!(event_payloads("data: a\ndata: [DONE]\ndata: b"), vec!["a"]);
    assert!(event_payloads(" data: a").is_empty());
    assert!(event_payloads("").is_empty());
}

#[test]
fn pieces_arrive_chunk_by_chunk() {
    let mut reader = StreamReader::new();
    let first = delta("Ho");
    let report = reader.push_chunk(first.as_bytes(), "deepseek");
    assert_eq!(report.deltas, vec!["Ho"]);
    assert_eq!(report.error, None);
    let rest = format!("{}{}", delta("la "), delta(""));
    let report = reader.push_chunk(rest.as_bytes(), "deepseek");
    assert_eq!(report.deltas, vec!["la "]);
    assert_eq!(reader.finish("Hello"), Ok("Hola".to_string()));
}

#[test]
fn chunks_may_be_cut_anywhere() {
    let whole = format!("{}{}data: [DONE]\n\n", delta("uno "), delta("dos"));
    for cut in 0..whole.len() {
        let mut reader = StreamReader::new();
        let mut deltas = reader.push_chunk(&whole.as_bytes()[..cut], "p").deltas;
        deltas.append(&mut reader.push_chunk(&whole.as_bytes()[cut..], "p").deltas);
        assert_eq!(deltas, vec!["uno ", "dos"]);
    }
}

#[test]
fn broken_messages_end_the_answer() {
    let mut reader = StreamReader::new();
    let chunk = format!("{}data: {{x\n\n{}", delta("a"), delta("b"));
    let report = reader.push_chunk(chunk.as_bytes(), "openai");
    assert_eq!(report.deltas, vec!["a"]);
    let expected = serde_json::from_str::<serde_json::Value>("{x").unwrap_err().to_string();
    assert_eq!(
        report.error,
        Some(format!("Respuesta streaming invalida del proveedor openai: {}", expected))
    );
}

#[test]
fn other_shapes_of_messages() {
    let mut reader = StreamReader::new();
    let mut say = |text: &str| reader.on_message(&read_json_text(text).unwrap());
    assert_eq!(say("{\"choices\":[{\"message\":{\"content\":\"a\"}}]}").as_deref(), Some("a"));
    assert_eq!(say("{\"choices\":[{\"text\":\"b\"}]}").as_deref(), Some("b"));
    assert_eq!(say("{\"choices\":[{\"delta\":{\"content\":null},\"text\":\"c\"}]}"), None);
    assert_eq!(say("{\"choices\":[]}"), None);
    assert_eq!(say("{}"), None);
    assert_eq!(reader.finish("x"), Ok("ab".to_string()));
}

#[test]
fn truncated_streams_are_refused() {
    let mut reader = StreamReader::new();
    let chunk = "data: {\"choices\":[{\"text\":\"a\",\"finish_reason\":\"length\"}]}\n\n";
    reader.push_chunk(chunk.as_bytes(), "p");
    assert_eq!(reader.finish("x"), Err("TRUNCATED_BY_LENGTH".to_string()));
}

#[test]
fn empty_streams_are_refused() {
    let mut reader = StreamReader::new();
    assert_eq!(reader.finish("x"), Err("DeepSeek devolvio una traduccion vacia".to_string()));
    reader.push_chunk(b"data: [DONE]\n\n", "p");
    assert_eq!(reader.finish("x"), Err("DeepSeek devolvio una traduccion vacia".to_string()));
}

#[test]
fn parse_results_are_taken_in() {
    let mut reader = StreamReader::new();
    assert_eq!(
        reader.on_parsed(Err("e".to_string()), "openai"),
        Err("Respuesta streaming invalida del proveedor openai: e".to_string())
    );
    assert_eq!(
        reader.on_parsed(read_json_text("{\"choices\":[{\"text\":\"b\"}]}"), "openai"),
        Ok(Some("b".to_string()))
    );
}

fn listen(chunks: &[&[u8]], source: &str) -> (Vec<String>, Option<String>, Result<String, String>) {
    let mut reader = StreamReader::new();
    let mut deltas: Vec<String> = Vec::new();
    for chunk in chunks {
        let mut report = reader.push_chunk(chunk, "openai");
        deltas.append(&mut report.deltas);
        if let Some(error) = report.error {
            return (deltas, Some(error.clone()), Err(error));
        }
    }
    let result = reader.finish(source);
    (deltas, None, result)
}

#[test]
fn answers_may_be_cut_between_characters() {
    let whole = format!("{}{}data: [DONE]\n\n", delta("Ma\u{f1}ana "), delta("s\u{ed}"));
    let expected = (
        vec!["Ma\u{f1}ana ".to_string(), "s\u{ed}".to_string()],
        None,
        Ok("Ma\u{f1}ana s\u{ed}".to_string()),
    );
    let bytes = whole.as_bytes();
    for (a, _) in whole.char_indices() {
        for (b, _) in whole.char_indices().filter(|(b, _)| *b >= a) {
            assert_eq!(listen(&[&bytes[..a], &bytes[a..b], &bytes[b..]], "Tomorrow yes"), expected);
        }
    }
}

#[test]
fn errors_come_wherever_an_answer_is_cut() {
    let whole = format!("{}data: {{x\n\n{}", delta("\u{f1}"), delta("b"));
    let bytes = whole.as_bytes();
    let expected = listen(&[bytes], "x");
    assert_eq!(expected.0, vec!["\u{f1}"]);
    assert!(expected.1.is_some());
    for (a, _) in whole.char_indices() {
        assert_eq!(listen(&[&bytes[..a], &bytes[a..]], "x"), expected);
    }
}

#[test]
fn a_cut_character_is_replaced() {
    let whole = delta("\u{f1}");
    let at = whole.find('\u{f1}').unwrap() + 1;
    let bytes = whole.as_bytes();
    assert_eq!(listen(&[&bytes[..at], &bytes[at..]], "x").0, vec!["\u{fffd}\u{fffd}"]);
}
