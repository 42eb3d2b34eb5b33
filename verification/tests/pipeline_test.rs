use epubtr::pipeline::{
    acquire_translation_run_guard, check_output, check_request, classify_entry, completion_message,
    greet, html_positions, language_label, order_by_name, page_message, PreviewRun, RunState,
    SpineEntryContent, TranslateEpubRequest, TranslateEpubResult, WrittenPaths,
};

fn request(input: &str, output: &str, key: &str) -> TranslateEpubRequest {
    TranslateEpubRequest {
        input_path: input.to_string(),
        output_path: output.to_string(),
        target_language: "es".to_string(),
        api_key: key.to_string(),
        provider: "deepseek".to_string(),
        model: "deepseek-v4-pro".to_string(),
        preview_only: false,
        preview_pages: None,
    }
}

#[test]
fn requests_are_checked() {
    assert_eq!(check_request(&request(" a.EPUB ", "b", "k")), Ok(()));
    let refused = |i: &str, o: &str, k: &str| check_request(&request(i, o, k)).unwrap_err();
    assert_eq!(refused(" ", "b", "k"), "Las rutas de entrada y salida son obligatorias");
    assert_eq!(refused("a.epub", "", "k"), "Las rutas de entrada y salida son obligatorias");
    assert_eq!(refused("a.epub", "b", " "), "La API key de DeepSeek es obligatoria");
    assert_eq!(refused("a.pdf", "b", "k"), "Solo se admiten archivos .epub");
}

#[test]
fn output_paths_are_checked() {
    assert_eq!(check_output(false, None), Ok(()));
    assert_eq!(
        check_output(true, Some("x")).unwrap_err(),
        "La ruta de salida no puede ser igual a la de entrada"
    );
    assert_eq!(check_output(false, Some("/x")).unwrap_err(), "La carpeta de salida no existe: /x");
}

#[test]
fn languages_have_names() {
    assert_eq!(language_label("es"), "espanol");
    assert_eq!(language_label("en"), "ingles");
    assert_eq!(language_label("fr"), "frances");
    assert_eq!(language_label("de"), "aleman");
    assert_eq!(language_label("EN"), "espanol");
}

#[test]
fn one_translation_at_a_time() {
    let mut state = RunState::new();
    let guard = acquire_translation_run_guard(&mut state).unwrap_or_else(|e| panic!("{}", e));
    match acquire_translation_run_guard(&mut state) {
        Err(error) => assert_eq!(
            error,
            "Ya hay una traduccion en curso. Espera a que termine antes de iniciar otra."
        ),
        Ok(_) => panic!("two at a time"),
    }
    state.release(guard);
    assert!(acquire_translation_run_guard(&mut state).is_ok());
}

#[test]
fn entries_are_classified() {
    match classify_entry("a.xhtml", "ñ".as_bytes().to_vec()) {
        SpineEntryContent::Html(text) => assert_eq!(text, "ñ"),
        SpineEntryContent::Raw(_) => panic!("raw"),
    }
    match classify_entry("a.xhtml", vec![0xff, 0x41]) {
        SpineEntryContent::Raw(bytes) => assert_eq!(bytes, vec![0xff, 0x41]),
        SpineEntryContent::Html(_) => panic!("page"),
    }
    assert!(matches!(classify_entry("a.css", b"x".to_vec()), SpineEntryContent::Raw(_)));
}

#[test]
fn pages_have_their_places() {
    assert_eq!(html_positions(&vec![true, false, false, true]), vec![0, 3]);
    assert!(html_positions(&vec![]).is_empty());
}

#[test]
fn a_book_without_an_order_is_read_by_name() {
    let order = |names: &[&str]| {
        order_by_name(&names.iter().map(|s| s.to_string()).collect::<Vec<String>>())
    };
    assert_eq!(order(&["b.xhtml", "a.xhtml"]), vec!["a.xhtml", "b.xhtml"]);
    assert_eq!(order(&["b.html", "x.css", "a.XHTML", "b.html"]), vec!["a.XHTML", "b.html", "b.html"]);
    let names = ["text/c10.html", "ñ.html", "text/c1.html", "Z.html", "text/c2.html", "c.html"];
    let mut sorted: Vec<&str> = names.to_vec();
    sorted.sort();
    assert_eq!(order(&names), sorted);
    assert!(order(&["x.css"]).is_empty());
}

#[test]
fn what_was_written_is_not_copied() {
    let mut written = WrittenPaths::new();
    assert!(written.leaves("a.html"));
    written.note("a.html");
    assert!(!written.leaves("a.html"));
    assert!(written.leaves("A.html"));
}

#[test]
fn previews_stay_within_their_limit() {
    let mut preview = PreviewRun::new(10);
    assert_eq!(preview.page_budget(), Some(10));
    preview.on_page(7);
    assert_eq!(preview.page_budget(), Some(3));
    preview.on_page(3);
    assert_eq!(preview.page_budget(), None);
    preview.on_page(0);
    assert_eq!((preview.translated_characters(), preview.finished_pages()), (10, 3));
}

#[test]
fn messages_of_a_run() {
    assert_eq!(page_message("c.xhtml"), "Traduciendo c.xhtml");
    assert_eq!(
        completion_message(true, "3 s"),
        "La vista previa termino correctamente.\nTiempo total: 3 s"
    );
    assert_eq!(
        completion_message(false, "3 s"),
        "La traduccion termino correctamente.\nTiempo total: 3 s"
    );
    assert_eq!(greet("Ana"), "Hello, Ana! You've been greeted from Rust!");
    let result = TranslateEpubResult {
        output_path: "b".to_string(),
        total_html_files: 1,
        translated_html_files: 1,
        translated_characters: 2,
        preview_only: true,
    };
    assert!(format!("{:?}", result).contains("translated_characters: 2"));
}
