use epubtr::errors::{
    is_non_retryable_error, is_rate_limit_error, is_response_decode_error,
    is_transient_transport_error, is_truncated_by_length_error, is_worth_retrying,
};

#[test]
fn rate_limits_are_recognised() {
    assert!(is_rate_limit_error("Error del proveedor openai (429 Too Many Requests): x"));
    assert!(is_rate_limit_error("RATE LIMIT exceeded"));
    assert!(is_rate_limit_error("too many requests"));
    assert!(!is_rate_limit_error("Error de red: x"));
}

#[test]
fn unreadable_answers_are_recognised() {
    assert!(is_response_decode_error("DEEPSEEK_RESPONSE_BODY_DECODE_ERROR: x"));
    assert!(is_response_decode_error("error decoding response body"));
    assert!(is_response_decode_error("Respuesta invalida de DeepSeek: x (preview=y)"));
    assert!(!is_response_decode_error("Respuesta invalida de Gemini: x"));
}

#[test]
fn transport_errors_are_recognised() {
    for error in [
        "Error de red: dns",
        "operation Timeout",
        "timed out",
        "Connection Reset by peer",
        "unexpected EOF",
        "Error de DeepSeek 500",
        "Error de DeepSeek 502",
        "Error de DeepSeek 503",
        "Error de DeepSeek 504",
        "Error del proveedor deepseek (500 Internal Server Error): x",
        "Error del proveedor openai (503 Service Unavailable): x",
        "Error de deepseek (502 Bad Gateway): x",
        "Error de openai (500 Internal Server Error): x",
        "Error de Gemini (503 Service Unavailable): x",
    ] {
        assert!(is_transient_transport_error(error), "{}", error);
        assert!(is_worth_retrying(error), "{}", error);
    }
    assert!(!is_transient_transport_error("Error de DeepSeek 501"));
    assert!(!is_transient_transport_error("Error del proveedor openai (401 Unauthorized): x"));
    assert!(!is_worth_retrying("Error de Gemini (400 Bad Request): x"));
}

#[test]
fn truncation_is_recognised_as_written() {
    assert!(is_truncated_by_length_error("TRUNCATED_BY_LENGTH"));
    assert!(!is_truncated_by_length_error("truncated_by_length"));
    assert!(is_non_retryable_error("truncated_by_length"));
    assert!(is_non_retryable_error("DEEPSEEK_RESPONSE_BODY_DECODE_ERROR: x"));
    assert!(is_non_retryable_error("respuesta INVALIDA de deepseek"));
    assert!(is_non_retryable_error("error decoding response body"));
    assert!(is_non_retryable_error("x TRUNCATED_BY_LENGTH y"));
    assert!(!is_non_retryable_error("Error de red: x"));
}
