use epubtr::errors::{is_non_retryable_error, is_rate_limit_error, is_worth_retrying};
use epubtr::provider::{
    chat_endpoint, check_text, gemini_endpoint, get_system_prompt, judge_key_check, normalize_model,
    normalize_provider, plan_key_check, plan_request, report_mishap, resolve_max_output_tokens,
    Inquiry, KeyCheck, Mishap, PromptCache, RequestPlan,
};

#[test]
fn providers_are_named() {
    assert_eq!(normalize_provider(" Gemini "), "gemini");
    assert_eq!(normalize_provider("OPENAI"), "openai");
    assert_eq!(normalize_provider("otro"), "deepseek");
    assert_eq!(normalize_provider(&normalize_provider("x")), "deepseek");
}

#[test]
fn models_are_chosen() {
    assert_eq!(normalize_model("gemini", "x"), "gemini-3.1-flash-lite-preview");
    assert_eq!(normalize_model("openai", "x"), "gpt-5.4-nano");
    assert_eq!(normalize_model("deepseek", " deepseek-v4-flash "), "deepseek-v4-flash");
    assert_eq!(normalize_model("deepseek", "deepseek-v4-pro"), "deepseek-v4-pro");
    assert_eq!(normalize_model("deepseek", "x"), "deepseek-v4-pro");
}

#[test]
fn addresses() {
    assert_eq!(chat_endpoint("openai"), "https://api.openai.com/v1/chat/completions");
    assert_eq!(chat_endpoint("deepseek"), "https://api.deepseek.com/chat/completions");
    assert_eq!(
        gemini_endpoint("m", "k"),
        "https://generativelanguage.googleapis.com/v1beta/models/m:generateContent?key=k"
    );
}

#[test]
fn prompts_are_remembered() {
    let mut cache = PromptCache::new();
    let prompt = get_system_prompt(&mut cache, "frances");
    assert!(prompt.starts_with("Eres un traductor literario profesional. Traduce al frances con calidad editorial"));
    assert!(prompt.ends_with("Devuelve unicamente el texto traducido."));
    assert_eq!(get_system_prompt(&mut cache, "frances"), prompt);
    assert_ne!(get_system_prompt(&mut cache, "aleman"), prompt);
}

#[test]
fn output_tokens_follow_the_text() {
    assert_eq!(resolve_max_output_tokens("", None), 512);
    assert_eq!(resolve_max_output_tokens(&"a".repeat(1_000), None), 606);
    assert_eq!(resolve_max_output_tokens(&"a".repeat(22_674), None), 8_191);
    assert_eq!(resolve_max_output_tokens(&"a".repeat(30_000), None), 8_192);
    assert_eq!(resolve_max_output_tokens(&"a".repeat(200_000), None), 8_192);
    assert_eq!(resolve_max_output_tokens("x", Some("9000")), 9_000);
    assert_eq!(resolve_max_output_tokens("x", Some("1")), 512);
    assert_eq!(resolve_max_output_tokens("x", Some("99999")), 12_288);
    assert_eq!(resolve_max_output_tokens("x", Some("nada")), 512);
}

fn inquiry<'a>(provider: &'a str, text: &'a str) -> Inquiry<'a> {
    Inquiry {
        api_key: " llave ",
        provider,
        model: "deepseek-v4-flash",
        target_language: "ingles",
        text,
        max_tokens_setting: None,
    }
}

#[test]
fn chat_requests() {
    let mut cache = PromptCache::new();
    match plan_request(&mut cache, &inquiry("x", "hola"), false).unwrap_or_else(|e| panic!("{}", e)) {
        RequestPlan::Chat { provider, endpoint, authorization, model, max_tokens, system_prompt } => {
            assert_eq!(provider, "deepseek");
            assert_eq!(endpoint, "https://api.deepseek.com/chat/completions");
            assert_eq!(authorization, "Bearer llave");
            assert_eq!(model, "deepseek-v4-flash");
            assert_eq!(max_tokens, 512);
            assert_eq!(system_prompt, get_system_prompt(&mut cache, "ingles"));
        }
        _ => panic!("gemini"),
    }
}

#[test]
fn strict_requests_say_more() {
    let mut cache = PromptCache::new();
    match plan_request(&mut cache, &inquiry("openai", "hola"), true).unwrap_or_else(|e| panic!("{}", e)) {
        RequestPlan::Chat { system_prompt, .. } => {
            let plain = get_system_prompt(&mut cache, "ingles");
            assert_eq!(
                system_prompt,
                format!(
                    "{} IMPORTANTE: Responde SOLO en ingles. NO uses chino simplificado ni tradicional. Si no sabes un termino, transliteralo o dejalo en el idioma original, pero nunca chino.",
                    plain
                )
            );
        }
        _ => panic!("gemini"),
    }
}

#[test]
fn gemini_requests_hold_the_text() {
    let mut cache = PromptCache::new();
    match plan_request(&mut cache, &inquiry("gemini", "hola"), false).unwrap_or_else(|e| panic!("{}", e)) {
        RequestPlan::Gemini { endpoint, prompt } => {
            assert!(endpoint.ends_with("/gemini-3.1-flash-lite-preview:generateContent?key=llave"));
            assert_eq!(prompt, format!("{}\n\nTexto:\nhola", get_system_prompt(&mut cache, "ingles")));
        }
        _ => panic!("chat"),
    }
}

#[test]
fn blank_texts_fail_at_once() {
    let mut cache = PromptCache::new();
    match plan_request(&mut cache, &inquiry("gemini", " \n"), false) {
        Err(error) => assert_eq!(error, "El texto a traducir esta vacio"),
        Ok(_) => panic!("sent"),
    }
    assert_eq!(check_text("").unwrap_err(), "El texto a traducir esta vacio");
    assert_eq!(check_text(" x "), Ok(()));
}

#[test]
fn keys_are_checked() {
    match plan_key_check(" \t", "gemini", "x") {
        Err(error) => assert_eq!(error, "La API key no puede estar vacia"),
        Ok(_) => panic!("taken"),
    }
    match plan_key_check(" k ", "Gemini", "x") {
        Ok(KeyCheck::Gemini { endpoint }) => assert!(endpoint.ends_with("?key=k")),
        _ => panic!("not gemini"),
    }
    match plan_key_check(" k ", "openai", "x") {
        Ok(KeyCheck::Chat { endpoint, authorization, model }) => {
            assert_eq!(endpoint, "https://api.openai.com/v1/chat/completions");
            assert_eq!(authorization, "Bearer k");
            assert_eq!(model, "gpt-5.4-nano");
        }
        _ => panic!("not chat"),
    }
    assert_eq!(judge_key_check(true, "200 OK", ""), Ok(true));
    assert_eq!(
        judge_key_check(false, "401 Unauthorized", "no"),
        Err("Inválida / Error: 401 Unauthorized - no".to_string())
    );
}

#[test]
fn mishaps_are_reported_and_classified() {
    let network = report_mishap(&Mishap::Network("dns"));
    assert_eq!(network, "Error de red: dns");
    assert!(is_worth_retrying(&network) && !is_non_retryable_error(&network));
    let body = report_mishap(&Mishap::Body("eof"));
    assert_eq!(body, "DEEPSEEK_RESPONSE_BODY_DECODE_ERROR: eof");
    assert!(is_worth_retrying(&body) && is_non_retryable_error(&body));
    assert_eq!(report_mishap(&Mishap::Stream("x")), "Error leyendo stream: x");
    let refused = report_mishap(&Mishap::Refused { provider: "openai", status: "429 Too Many Requests", body: "b" });
    assert_eq!(refused, "Error del proveedor openai (429 Too Many Requests): b");
    assert!(is_rate_limit_error(&refused));
    let strict = report_mishap(&Mishap::StrictlyRefused { provider: "deepseek", status: "503 Service Unavailable", body: "b" });
    assert_eq!(strict, "Error de deepseek (503 Service Unavailable): b");
    assert!(is_worth_retrying(&strict));
    assert_eq!(
        report_mishap(&Mishap::GeminiRefused { status: "400 Bad Request", body: "b" }),
        "Error de Gemini (400 Bad Request): b"
    );
    assert_eq!(report_mishap(&Mishap::GeminiUnreadable("x")), "Respuesta invalida de Gemini: x");
}
