use epubtr::json::{from_value, read_json, read_json_text, Json};
use epubtr::response::{
    extract_text_and_finish_reason, extract_text_from_choice, gemini_output, interpret_body, judge,
    read_completion, safe_body_preview, text_preview, translation_from_body,
    translation_from_gemini,
};

fn json(text: &str) -> Json {
    read_json_text(text).unwrap()
}

#[test]
fn documents_are_read() {
    let value = json("{\"b\":[true,null,1.5,\"ñ\"],\"a\":{\"x\":\"y\"}}");
    let list = value.get("b").unwrap().as_list().unwrap();
    assert_eq!(list.len(), 4);
    assert!(matches!(list[0], Json::Bool(true)));
    assert!(matches!(list[1], Json::Null));
    assert!(matches!(list[2], Json::Number));
    assert_eq!(list[3].as_str(), Some("ñ"));
    assert_eq!(value.get("a").unwrap().get("x").unwrap().as_str(), Some("y"));
    assert!(value.get("c").is_none());
    assert!(value.first().is_none());
    assert!(value.get("b").unwrap().get("x").is_none());
    assert!(matches!(value.get("b").unwrap().first(), Some(Json::Bool(true))));
    let parsed: serde_json::Value = serde_json::from_str("[\"z\"]").unwrap();
    assert_eq!(from_value(&parsed).first().unwrap().as_str(), Some("z"));
}

#[test]
fn broken_documents_are_refused() {
    let expected = serde_json::from_str::<serde_json::Value>("{\"a\":").unwrap_err().to_string();
    assert_eq!(read_json_text("{\"a\":").unwrap_err(), expected);
    let expected = serde_json::from_slice::<serde_json::Value>(b"nope").unwrap_err().to_string();
    assert_eq!(read_json(b"nope").unwrap_err(), expected);
    assert!(read_json(&[0x22, 0xff, 0x22]).is_err());
}

#[test]
fn choices_in_several_shapes() {
    let text = |source: &str| extract_text_from_choice(&json(source));
    assert_eq!(text("{\"text\":\" a \"}").as_deref(), Some("a"));
    assert_eq!(text("{\"text\":\" \",\"message\":{\"content\":\" b\"}}").as_deref(), Some("b"));
    assert_eq!(
        text("{\"message\":{\"content\":[{\"text\":\" c\"},\"d \",{\"x\":1},{\"text\":7}]}}").as_deref(),
        Some("cd")
    );
    assert_eq!(text("{\"message\":{\"content\":[]}}"), None);
    assert_eq!(text("{\"message\":{\"content\":\"\"}}"), None);
    assert_eq!(text("{}"), None);
}

#[test]
fn completions_are_read() {
    let body = b"{\"choices\":[{\"finish_reason\":\"stop\",\"message\":{\"content\":\" hola \"}}]}";
    assert_eq!(
        extract_text_and_finish_reason(body).unwrap(),
        ("hola".to_string(), Some("stop".to_string()))
    );
    assert_eq!(
        read_completion(&json("{\"choices\":[]}")).unwrap_err(),
        "DeepSeek devolvio una respuesta sin opciones"
    );
    assert_eq!(
        read_completion(&json("{\"choices\":{}}")).unwrap_err(),
        "DeepSeek devolvio una respuesta sin opciones"
    );
    assert_eq!(
        read_completion(&json("{\"choices\":[{}]}")).unwrap_err(),
        "DeepSeek devolvio una traduccion vacia"
    );
    assert_eq!(read_completion(&json("{\"choices\":[{\"text\":\"x\"}]}")).unwrap().1, None);
}

#[test]
fn unreadable_bodies_are_shown() {
    let expected = serde_json::from_slice::<serde_json::Value>(b"<html>\nx").unwrap_err().to_string();
    assert_eq!(
        extract_text_and_finish_reason(b"<html>\nx").unwrap_err(),
        format!("Respuesta invalida de DeepSeek: {} (preview=<html>\\nx)", expected)
    );
    assert_eq!(
        interpret_body(Err("e".to_string()), &"a".repeat(300)).unwrap_err(),
        format!("Respuesta invalida de DeepSeek: e (preview={})", "a".repeat(280))
    );
}

#[test]
fn previews_are_short_and_on_one_line() {
    assert_eq!(safe_body_preview("año\nnuevo".as_bytes(), 5), "año\\nn");
    assert_eq!(safe_body_preview(b"a\xffb", 9), "a\u{fffd}b");
    assert_eq!(safe_body_preview(b"abc", 0), "");
    assert_eq!(text_preview("a\n\n", 9), "a\\n\\n");
}

#[test]
fn answers_are_judged() {
    assert_eq!(judge("Hello", "Hola".to_string(), &None), Ok("Hola".to_string()));
    assert_eq!(
        judge("Hello", "Hola".to_string(), &Some("length".to_string())),
        Err("TRUNCATED_BY_LENGTH".to_string())
    );
    assert_eq!(
        judge("Hello", "<b>".to_string(), &Some("stop".to_string())),
        Err("DeepSeek introdujo etiquetas no esperadas".to_string())
    );
}

#[test]
fn translations_are_read_from_bodies() {
    let body = b"{\"choices\":[{\"finish_reason\":\"length\",\"text\":\"Hola\"}]}";
    assert_eq!(translation_from_body("Hello", body), Err("TRUNCATED_BY_LENGTH".to_string()));
    let body = b"{\"choices\":[{\"text\":\"Hola\"}]}";
    assert_eq!(translation_from_body("Hello", body), Ok("Hola".to_string()));
    assert!(translation_from_body("Hello", b"").is_err());
}

#[test]
fn gemini_answers_are_read() {
    let answer = json("{\"candidates\":[{\"content\":{\"parts\":[{\"text\":\" ho\"},{\"x\":1},{\"text\":\"la\\n\"}]}}]}");
    assert_eq!(gemini_output(&answer), Ok("hola".to_string()));
    assert_eq!(translation_from_gemini("Hello", &answer), Ok("hola".to_string()));
    for empty in ["{}", "{\"candidates\":[]}", "{\"candidates\":[{\"content\":{\"parts\":[{\"text\":\" \"}]}}]}"] {
        assert_eq!(gemini_output(&json(empty)), Err("Gemini devolvio una traduccion vacia".to_string()));
    }
    let answer = json("{\"candidates\":[{\"content\":{\"parts\":[{\"text\":\"```x\"}]}}]}");
    assert_eq!(
        translation_from_gemini("Hello", &answer),
        Err("DeepSeek devolvio formato de bloque de codigo no permitido".to_string())
    );
}
