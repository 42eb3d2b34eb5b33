use epubtr::options::{
    chapter_options, preview_limit, read_block_sizes, read_env_usize, read_optional_setting,
    recovery_options, run_options, BlockSizes,
};

#[test]
fn settings_are_read_and_bounded() {
    assert_eq!(read_env_usize(None, 10, 1, 16), 10);
    assert_eq!(read_env_usize(Some(" 12 "), 10, 1, 16), 12);
    assert_eq!(read_env_usize(Some("99"), 10, 1, 16), 16);
    assert_eq!(read_env_usize(Some("0"), 10, 1, 16), 1);
    assert_eq!(read_env_usize(Some("x"), 99, 1, 16), 16);
    assert_eq!(read_optional_setting(Some("700")), Some(700));
    assert_eq!(read_optional_setting(Some("-7")), None);
    assert_eq!(read_optional_setting(None), None);
}

#[test]
fn block_sizes_are_put_in_order() {
    let sizes = read_block_sizes(None, None, None);
    assert_eq!((sizes.min, sizes.target, sizes.max), (12_000, 16_000, 20_000));
    let sizes = read_block_sizes(Some("50000"), Some("9000"), Some("10000"));
    assert_eq!((sizes.min, sizes.target, sizes.max), (10_000, 10_000, 50_000));
    let sizes = read_block_sizes(Some("1"), Some("999999"), Some("999999"));
    assert_eq!((sizes.min, sizes.target, sizes.max), (8_000, 120_000, 120_000));
}

#[test]
fn previews_are_measured_in_pages() {
    assert_eq!(preview_limit(None), 9_000);
    assert_eq!(preview_limit(Some(0)), 1_800);
    assert_eq!(preview_limit(Some(3)), 5_400);
}

#[test]
fn options_of_a_run() {
    let full = run_options("openai", "m", false, Some("20"), BlockSizes { min: 1, target: 2, max: 3 });
    assert!(full.enable_chunking && full.dynamic_rate_limit);
    assert!(!full.enable_streaming && !full.force_text_node_mode);
    assert_eq!(full.max_concurrent_requests, 16);
    assert_eq!(full.chunk_threshold_chars, 40_000);
    assert_eq!((full.chunk_min_chars, full.chunk_target_chars, full.max_chunk_chars), (2_000, 3_000, 4_000));
    assert_eq!((full.full_block_min_chars, full.full_block_target_chars, full.full_block_max_chars), (1, 2, 3));
    let preview = run_options("openai", "m", true, Some("9"), BlockSizes { min: 1, target: 2, max: 3 });
    assert!(preview.enable_streaming && !preview.enable_chunking && !preview.dynamic_rate_limit);
    assert_eq!(preview.max_concurrent_requests, 1);
}

#[test]
fn chapters_in_recovery_are_sent_in_smaller_blocks() {
    let full = run_options("p", "m", false, None, BlockSizes { min: 1, target: 2, max: 3 });
    let same = chapter_options(&full, false);
    assert_eq!((same.full_block_min_chars, same.chunk_threshold_chars), (1, 40_000));
    assert_eq!(same.max_concurrent_requests, 10);
    let smaller = chapter_options(&full, true);
    assert_eq!(
        (smaller.full_block_min_chars, smaller.full_block_target_chars, smaller.full_block_max_chars),
        (800, 1_200, 1_800)
    );
    assert_eq!((smaller.chunk_threshold_chars, smaller.max_chunk_chars), (1, 1_800));
    let recovery = recovery_options("p", "m");
    assert!(recovery.force_text_node_mode && recovery.enable_chunking);
    assert_eq!(recovery.full_block_max_chars, 14_000);
}
