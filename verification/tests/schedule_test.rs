use epubtr::schedule::{backoff_seconds, handover_error, ChapterSchedule, FailureStep};

fn expected_wait(chapter: usize, retries: u32) -> u64 {
    let step = (retries as u64 + 1).wrapping_mul(0x9E37_79B9_7F4A_7C15);
    let jitter = (chapter as u64 ^ step).rotate_left(17) % 5;
    (2u64.pow(retries.min(4)) + jitter).clamp(1, 30)
}

#[test]
fn waits_double_with_some_jitter() {
    for chapter in 0..50usize {
        for retries in 0..8u32 {
            assert_eq!(backoff_seconds(chapter, retries, false), expected_wait(chapter, retries));
            assert_eq!(backoff_seconds(chapter, retries, true), 1);
        }
    }
}

#[test]
fn chapters_start_in_order_up_to_the_warm_up() {
    let chapters: Vec<usize> = (0..9).collect();
    let mut schedule = ChapterSchedule::new(&chapters, 10, true);
    let mut started = Vec::new();
    while let Some((chapter, smaller)) = schedule.next_to_start() {
        assert!(!smaller);
        started.push(chapter);
    }
    assert_eq!(started, vec![0, 1, 2, 3, 4, 5]);
    assert!(!schedule.is_complete());
}

#[test]
fn success_speeds_up() {
    let chapters: Vec<usize> = (0..20).collect();
    let mut schedule = ChapterSchedule::new(&chapters, 8, true);
    while schedule.next_to_start().is_some() {}
    assert_eq!(schedule.on_translated(3, 10, "c3.xhtml"), "Traduciendo a disco c3.xhtml (7 hilos)");
    assert_eq!(schedule.next_to_start(), Some((6, false)));
    assert_eq!(schedule.next_to_start(), Some((7, false)));
    assert_eq!(schedule.next_to_start(), None);
    assert_eq!(schedule.on_translated(0, 5, "c0.xhtml"), "Traduciendo a disco c0.xhtml (8 hilos)");
    assert_eq!(schedule.on_translated(1, 5, "c1.xhtml"), "Traduciendo a disco c1.xhtml (8 hilos)");
    assert_eq!(schedule.finished_chapters(), 3);
    assert_eq!(schedule.translated_characters(), 20);
}

#[test]
fn rate_limits_slow_down_and_retry() {
    let mut schedule = ChapterSchedule::new(&vec![4, 7], 2, true);
    assert_eq!(schedule.next_to_start(), Some((4, false)));
    assert_eq!(schedule.next_to_start(), Some((7, false)));
    match schedule.on_failed(4, "Error del proveedor deepseek (429 Too Many Requests): x", "c") {
        FailureStep::Retry { wait_seconds, message } => {
            assert_eq!(wait_seconds, expected_wait(4, 0));
            assert_eq!(message, format!("Rate limit, esperando {}s (concurrencia 1)", wait_seconds));
        }
        _ => panic!("kept"),
    }
    assert_eq!(schedule.next_to_start(), None);
    schedule.on_translated(7, 1, "d");
    assert_eq!(schedule.next_to_start(), Some((4, false)));
}

#[test]
fn transport_errors_are_retried_four_times() {
    let mut schedule = ChapterSchedule::new(&vec![0], 1, true);
    for retries in 0..4u32 {
        schedule.next_to_start().unwrap();
        match schedule.on_failed(0, "Error de red: x", "c") {
            FailureStep::Retry { wait_seconds, message } => {
                assert_eq!(wait_seconds, expected_wait(0, retries));
                assert_eq!(
                    message,
                    format!("Error de red transitorio, reintentando en {}s (concurrencia 1)", wait_seconds)
                );
            }
            _ => panic!("kept"),
        }
    }
    schedule.next_to_start().unwrap();
    match schedule.on_failed(0, "Error de red: x", "c.xhtml") {
        FailureStep::KeepOriginal { message, abort } => {
            assert_eq!(message, "Advertencia: fallback original en c.xhtml tras error de traduccion");
            assert_eq!(abort, None);
        }
        _ => panic!("retried"),
    }
    assert!(schedule.is_complete());
    assert_eq!((schedule.finished_chapters(), schedule.kept_chapters()), (1, 1));
}

#[test]
fn unreadable_answers_are_retried_once_in_smaller_blocks() {
    let mut schedule = ChapterSchedule::new(&vec![5], 3, true);
    schedule.next_to_start().unwrap();
    match schedule.on_failed(5, "DEEPSEEK_RESPONSE_BODY_DECODE_ERROR: x", "c") {
        FailureStep::Retry { wait_seconds, message } => {
            assert_eq!(wait_seconds, 1);
            assert_eq!(
                message,
                "Respuesta invalida de DeepSeek, activando recovery por fragmentos y reintentando en 1s (concurrencia 2)"
            );
        }
        _ => panic!("kept"),
    }
    assert_eq!(schedule.next_to_start(), Some((5, true)));
    match schedule.on_failed(5, "DEEPSEEK_RESPONSE_BODY_DECODE_ERROR: x", "c") {
        FailureStep::KeepOriginal { message, abort } => {
            assert_eq!(
                message,
                "Advertencia: fallback original en c por respuestas invalidas de DeepSeek"
            );
            assert_eq!(abort, None);
        }
        _ => panic!("retried"),
    }
}

#[test]
fn too_many_unreadable_answers_stop_the_book() {
    let chapters: Vec<usize> = (0..8).collect();
    let mut schedule = ChapterSchedule::new(&chapters, 1, false);
    for chapter in 0..8usize {
        schedule.next_to_start().unwrap();
        match schedule.on_failed(chapter, "Respuesta invalida de DeepSeek: x", "c") {
            FailureStep::KeepOriginal { abort, .. } => {
                if chapter < 7 {
                    assert_eq!(abort, None);
                } else {
                    assert_eq!(
                        abort.unwrap(),
                        "Se detuvo la traduccion para evitar consumo excesivo: DeepSeek devolvio respuestas invalidas en 8 capitulos. Reintenta con menor concurrencia o mas tarde."
                    );
                }
            }
            _ => panic!("retried"),
        }
    }
}

#[test]
fn a_fixed_pace_does_not_retry() {
    let mut schedule = ChapterSchedule::new(&vec![0, 1], 0, false);
    assert_eq!(schedule.next_to_start(), Some((0, false)));
    assert_eq!(schedule.next_to_start(), None);
    assert!(matches!(schedule.on_failed(0, "429", "c"), FailureStep::KeepOriginal { .. }));
    assert_eq!(schedule.next_to_start(), Some((1, false)));
    schedule.on_translated(1, 1, "d");
    assert!(schedule.is_complete());
}

#[test]
fn other_errors_keep_the_chapter() {
    let mut schedule = ChapterSchedule::new(&vec![0], 4, true);
    schedule.next_to_start();
    assert!(matches!(schedule.on_failed(0, "algo", "c"), FailureStep::KeepOriginal { .. }));
}

#[test]
fn handing_on_can_fail() {
    assert_eq!(
        handover_error("c.xhtml", "algo"),
        "Error traduciendo c.xhtml y no se pudo enviar fallback al writer: algo"
    );
}

#[test]
fn a_book_ends_though_every_answer_fails() {
    let chapters: Vec<usize> = (0..7).collect();
    let mut schedule = ChapterSchedule::new(&chapters, 10, true);
    let mut sent = vec![0usize; 7];
    let mut queue = std::collections::VecDeque::new();
    while !schedule.is_complete() {
        while let Some((chapter, _)) = schedule.next_to_start() {
            sent[chapter] += 1;
            queue.push_back(chapter);
        }
        let chapter = queue.pop_front().unwrap();
        schedule.on_failed(chapter, "Error de red: x", "c");
    }
    assert_eq!(sent, vec![5; 7]);
    assert_eq!((schedule.finished_chapters(), schedule.kept_chapters()), (7, 7));
}
