use epubtr::retry::{choose_flow, Flow, RetryRun, RetryStep};

fn wait(step: RetryStep) -> u64 {
    match step {
        RetryStep::Wait(ms) => ms,
        _ => panic!("no wait"),
    }
}

#[test]
fn delays_double_up_to_ten_seconds() {
    let mut run = RetryRun::new("ingles", 6, Flow::Plain);
    let delays: Vec<u64> =
        (0..6).map(|_| wait(run.on_answer(Err("Error de red: x".to_string())))).collect();
    assert_eq!(delays, vec![1_000, 2_000, 4_000, 8_000, 10_000, 10_000]);
    match run.on_answer(Err("Error de red: x".to_string())) {
        RetryStep::Fail(error) => assert_eq!(error, "Error de red: x"),
        _ => panic!("not given up"),
    }
}

#[test]
fn permanent_errors_fail_at_once() {
    for error in ["TRUNCATED_BY_LENGTH", "DEEPSEEK_RESPONSE_BODY_DECODE_ERROR: x", "Respuesta invalida de DeepSeek: x"] {
        let mut run = RetryRun::new("ingles", 4, Flow::Streaming);
        assert!(matches!(run.on_answer(Err(error.to_string())), RetryStep::Fail(_)));
    }
}

#[test]
fn translations_are_taken() {
    let mut run = RetryRun::new("espanol", 4, Flow::Plain);
    match run.on_answer(Ok("Hola".to_string())) {
        RetryStep::Done(text) => assert_eq!(text, "Hola"),
        _ => panic!("not taken"),
    }
}

#[test]
fn chinese_in_spanish_asks_for_more() {
    let mut run = RetryRun::new("espanol", 4, Flow::Plain);
    assert!(matches!(run.on_answer(Ok("a中文字".to_string())), RetryStep::AskStrictly));
    assert_eq!(run.on_strict_answer(Ok("abc".to_string())), "abc");
    assert_eq!(run.on_strict_answer(Ok("中文字b".to_string())), "a中文字");
    assert_eq!(run.on_strict_answer(Err("x".to_string())), "a中文字");
}

#[test]
fn streams_are_not_checked_for_chinese() {
    let mut run = RetryRun::new("espanol", 4, Flow::Streaming);
    assert!(matches!(run.on_answer(Ok("a中文字".to_string())), RetryStep::Done(_)));
}

#[test]
fn streams_need_a_listener() {
    assert_eq!(choose_flow(true, true), Flow::Streaming);
    assert_eq!(choose_flow(true, false), Flow::Plain);
    assert_eq!(choose_flow(false, true), Flow::Plain);
}
