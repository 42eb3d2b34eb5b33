use epubtr::quality::{
    count_char, count_content, count_han, has_tag_like_fragment, is_cjk_han, is_mostly_cjk,
    is_spanish_target, should_retry_for_han, validate_translation_output,
};

fn fault(source: &str, translated: &str) -> String {
    validate_translation_output(source, translated).unwrap_err()
}

#[test]
fn good_translations_are_taken() {
    assert!(validate_translation_output("Hello", "Hola").is_ok());
    assert!(validate_translation_output("<p>Hello</p>", "<p>Hola</p>").is_ok());
    assert!(validate_translation_output("a < b", "a < b").is_ok());
}

#[test]
fn empty_translations_are_refused() {
    assert_eq!(fault("Hello", " \n "), "DeepSeek devolvio una traduccion vacia");
}

#[test]
fn code_blocks_are_refused() {
    assert_eq!(
        fault("Hello", "```Hola```"),
        "DeepSeek devolvio formato de bloque de codigo no permitido"
    );
}

#[test]
fn new_tags_are_refused() {
    assert_eq!(fault("Hello", "<b>Hola</b>"), "DeepSeek introdujo etiquetas no esperadas");
}

#[test]
fn lost_tags_are_refused() {
    assert_eq!(
        fault("<p>a</p><p>b</p>", "<p>ab"),
        "DeepSeek devolvio una traduccion posiblemente incompleta (faltan etiquetas)"
    );
    assert!(validate_translation_output("<p>a</p><p>b</p>", "<p>ab</p>").is_ok());
}

#[test]
fn lengths_must_fit() {
    let source = "x".repeat(40);
    assert_eq!(fault(&source, &"y".repeat(13)), "DeepSeek devolvio una traduccion demasiado corta");
    assert!(validate_translation_output(&source, &"y".repeat(14)).is_ok());
    assert!(validate_translation_output(&source, &"y".repeat(240)).is_ok());
    assert_eq!(
        fault(&source, &"y".repeat(241)),
        "DeepSeek devolvio una traduccion demasiado extensa"
    );
    assert!(validate_translation_output(&"x".repeat(39), "y").is_ok());
}

#[test]
fn tag_like_fragments_are_found() {
    assert!(has_tag_like_fragment("a <b"));
    assert!(has_tag_like_fragment("</p>"));
    assert!(has_tag_like_fragment("<!-- x"));
    assert!(!has_tag_like_fragment("a < b"));
    assert!(!has_tag_like_fragment("<"));
    assert!(!has_tag_like_fragment("<ñ"));
}

#[test]
fn counting_characters() {
    assert_eq!(count_char("<a><b>", '<'), 2);
    assert_eq!(count_content(" a b\u{3000}c "), 3);
    assert_eq!(count_han("a中b文"), 2);
}

#[test]
fn han_characters_by_block() {
    for (code, han) in [
        (0x3400u32, true), (0x4DBF, true), (0x4DC0, false), (0x4E00, true), (0x9FFF, true),
        (0xA000, false), (0xF900, true), (0xFAFF, true), (0xFB00, false), (0x20000, true),
        (0x2A6DF, true), (0x2A6E0, false), (0x2A700, true), (0x2CEAF, true), (0x2CEB0, false),
        (0x2F800, true), (0x2FA1F, true), (0x2FA20, false), (0x3042, false),
    ] {
        assert_eq!(is_cjk_han(char::from_u32(code).unwrap()), han, "{:x}", code);
    }
    assert!(is_mostly_cjk("una 中"));
    assert!(!is_mostly_cjk("una かな"));
}

#[test]
fn han_matters_in_spanish_only() {
    assert!(is_spanish_target("Espanol"));
    assert!(is_spanish_target("Español"));
    assert!(is_spanish_target("ESPAÑOL"));
    assert!(is_spanish_target("lengua española"));
    assert!(is_spanish_target("ES"));
    assert!(!is_spanish_target("ingles"));
    assert!(should_retry_for_han("espanol", "a中文字"));
    assert!(!should_retry_for_han("espanol", "a中文"));
    assert!(!should_retry_for_han("ingles", "中文字"));
}
