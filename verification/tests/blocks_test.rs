use epubtr::blocks::{
    plan_blocks, split_segment_for_truncation_retry, AdaptiveRun, AdaptiveStep, BlockCache, BlockRun,
};
use epubtr::options::{run_options, BlockSizes};

fn paragraphs(count: usize, chars: usize) -> String {
    (0..count).map(|_| format!("<p>{}</p>", "a".repeat(chars))).collect()
}

#[test]
fn pages_without_text_need_no_blocks() {
    let options = run_options("p", "m", false, None, BlockSizes { min: 8_000, target: 8_000, max: 8_000 });
    assert!(plan_blocks("<p></p>", &options).is_none());
}

#[test]
fn pages_are_cut_into_blocks() {
    let options = run_options("p", "m", false, None, BlockSizes { min: 1, target: 1, max: 1 });
    let page = paragraphs(12, 1_000);
    let plan = plan_blocks(&page, &options).unwrap();
    assert_eq!(plan.consumed, 12_000);
    assert_eq!(plan.blocks.len(), 3);
    assert_eq!(plan.blocks[0], paragraphs(5, 1_000));
    assert_eq!(plan.blocks.concat(), page);
}

#[test]
fn pages_with_han_are_cut_smaller() {
    let options = run_options("p", "m", false, None, BlockSizes { min: 8_000, target: 8_000, max: 8_000 });
    let page = format!("{}<p>中</p>", paragraphs(8, 500));
    let plan = plan_blocks(&page, &options).unwrap();
    assert_eq!(plan.blocks.len(), 3);
    assert_eq!(plan.blocks[0], paragraphs(4, 500));
    let large = run_options("p", "m", false, None, BlockSizes { min: 12_000, target: 16_000, max: 20_000 });
    assert_eq!(plan_blocks(&page, &large).unwrap().blocks[0], paragraphs(8, 500));
}

fn run_of(blocks: &[&str]) -> BlockRun {
    BlockRun::new(blocks.iter().map(|b| b.to_string()).collect())
}

#[test]
fn blocks_come_back_in_any_order() {
    let mut cache = BlockCache::new();
    let mut run = run_of(&["a", "b", "c"]);
    for index in 0..3usize {
        assert_eq!(run.next_to_send(&cache).unwrap().0, index);
    }
    assert!(run.next_to_send(&cache).is_none());
    assert!(run.on_result(2, Ok("C".to_string()), &mut cache).is_ok());
    assert!(run.on_result(0, Ok("A".to_string()), &mut cache).is_ok());
    assert!(!run.is_complete());
    let error = "DeepSeek devolvio una traduccion vacia".to_string();
    assert!(run.on_result(1, Err(error), &mut cache).is_ok());
    assert!(run.is_complete());
    assert_eq!(run.finish(), "AbC");
    assert_eq!(run.kept_blocks(), 1);
    assert_eq!(cache.lookup("a"), Some("A".to_string()));
    assert_eq!(cache.lookup("b"), None);
}

#[test]
fn equal_blocks_are_sent_once() {
    let mut cache = BlockCache::new();
    let mut run = run_of(&["a", "b", "a", "a", "b"]);
    assert_eq!(run.next_to_send(&cache), Some((0, "a".to_string())));
    assert_eq!(run.next_to_send(&cache), Some((1, "b".to_string())));
    assert_eq!(run.next_to_send(&cache), None);
    assert!(run.on_result(0, Ok("A".to_string()), &mut cache).is_ok());
    assert!(run.on_result(1, Err("algo".to_string()), &mut cache).is_ok());
    assert_eq!(run.next_to_send(&cache), None);
    assert!(run.is_complete());
    assert_eq!(run.finish(), "AbAAb");
    assert_eq!(run.kept_blocks(), 2);
}

#[test]
fn remembered_blocks_are_not_sent() {
    let mut cache = BlockCache::new();
    cache.store("b", "B".to_string());
    let mut run = run_of(&["b", "a", "b"]);
    assert_eq!(run.next_to_send(&cache), Some((1, "a".to_string())));
    assert!(run.on_result(1, Ok("A".to_string()), &mut cache).is_ok());
    assert_eq!(run.next_to_send(&cache), None);
    assert_eq!(run.finish(), "BAB");
}

#[test]
fn three_blocks_are_under_way_at_most() {
    let mut cache = BlockCache::new();
    let mut run = run_of(&["a", "b", "c", "d", "e"]);
    for _ in 0..3 {
        assert!(run.next_to_send(&cache).is_some());
    }
    assert_eq!(run.next_to_send(&cache), None);
    assert!(run.on_result(1, Ok("B".to_string()), &mut cache).is_ok());
    assert_eq!(run.next_to_send(&cache), Some((3, "d".to_string())));
    assert_eq!(run.next_to_send(&cache), None);
}

#[test]
fn errors_that_may_go_away_fail_the_page() {
    for error in ["429", "DEEPSEEK_RESPONSE_BODY_DECODE_ERROR: x", "Error de red: x"] {
        let mut cache = BlockCache::new();
        let mut run = run_of(&["a"]);
        run.next_to_send(&cache).unwrap();
        assert_eq!(run.on_result(0, Err(error.to_string()), &mut cache), Err(error.to_string()));
    }
}

#[test]
fn blank_parts_are_not_sent() {
    let mut run = AdaptiveRun::new(" \n");
    assert!(run.next_segment().is_none());
    assert_eq!(run.finish(), " \n");
    let block = format!("{}\n", paragraphs(2, 10_500));
    let mut run = AdaptiveRun::new(&block);
    run.next_segment().unwrap();
    run.on_result(Err("TRUNCATED_BY_LENGTH".to_string()));
    let mut sent = Vec::new();
    while let Some(segment) = run.next_segment() {
        sent.push(segment.clone());
        run.on_result(Ok(segment));
    }
    assert_eq!(sent, vec![paragraphs(1, 10_500), paragraphs(1, 10_500)]);
    assert_eq!(run.finish(), block);
}

#[test]
fn truncated_blocks_are_cut_smaller() {
    assert!(split_segment_for_truncation_retry(&"a".repeat(999), 0).is_empty());
    let block = paragraphs(10, 593);
    assert_eq!(block.chars().count(), 6_000);
    let parts = split_segment_for_truncation_retry(&block, 0);
    assert_eq!(parts.len(), 2);
    assert_eq!(parts[0], paragraphs(6, 593));
    assert_eq!(parts.concat(), block);
    let deeper = split_segment_for_truncation_retry(&block, 3);
    assert_eq!(deeper[0], paragraphs(3, 593));
}

#[test]
fn truncation_is_answered_with_smaller_parts() {
    let block = paragraphs(10, 593);
    let mut run = AdaptiveRun::new(&block);
    assert_eq!(run.next_segment().unwrap(), block);
    assert!(matches!(run.on_result(Err("TRUNCATED_BY_LENGTH".to_string())), AdaptiveStep::Continue));
    let mut sent = Vec::new();
    while let Some(segment) = run.next_segment() {
        sent.push(segment.clone());
        assert!(matches!(run.on_result(Ok(segment)), AdaptiveStep::Continue));
    }
    assert_eq!(sent.len(), 2);
    assert_eq!(run.finish(), block);
}

#[test]
fn persistent_truncation_is_recovered_node_by_node() {
    let mut run = AdaptiveRun::new("<p>corto</p>");
    run.next_segment().unwrap();
    match run.on_result(Err("x TRUNCATED_BY_LENGTH".to_string())) {
        AdaptiveStep::Recover(segment) => assert_eq!(segment, "<p>corto</p>"),
        _ => panic!("not recovered"),
    }
    run.on_recovered("<p>short</p>");
    assert!(run.next_segment().is_none());
    assert_eq!(run.finish(), "<p>short</p>");
}

#[test]
fn blocks_are_cut_three_levels_deep_at_most() {
    let mut run = AdaptiveRun::new(&paragraphs(60, 593));
    let mut recovered = 0usize;
    let mut requests = 0usize;
    while run.next_segment().is_some() {
        requests += 1;
        match run.on_result(Err("TRUNCATED_BY_LENGTH".to_string())) {
            AdaptiveStep::Recover(segment) => {
                recovered += 1;
                run.on_recovered(&segment);
            }
            AdaptiveStep::Continue => {}
            AdaptiveStep::Fail(_) => panic!("failed"),
        }
    }
    assert!(recovered > 1 && requests > recovered);
    assert_eq!(run.finish(), paragraphs(60, 593));
}

#[test]
fn other_errors_fail_the_block() {
    let mut run = AdaptiveRun::new("x");
    run.next_segment();
    match run.on_result(Err("Error de red: x".to_string())) {
        AdaptiveStep::Fail(error) => assert_eq!(error, "Error de red: x"),
        _ => panic!("not failed"),
    }
}

#[test]
fn remembered_blocks_are_found() {
    let mut cache = BlockCache::new();
    assert_eq!(cache.lookup("<p>uno</p>"), None);
    cache.store("<p>uno</p>", "<p>one</p>".to_string());
    cache.store("<p>dos</p>", "<p>two</p>".to_string());
    assert_eq!(cache.lookup("<p>uno</p>"), Some("<p>one</p>".to_string()));
    assert_eq!(cache.lookup("<p>dos</p>"), Some("<p>two</p>".to_string()));
    assert_eq!(cache.lookup("<p>tres</p>"), None);
}
