//! Sizes and switches of a run, and how they follow from the request and from
//! the environment.

use crate::text::{clamp, parse_usize, trim};
use vstd::prelude::*;

verus! {

/// About how many characters a printed page holds.
pub const APPROX_CHARS_PER_PAGE: usize = 1800;

/// About how many characters of an alphabet make up a token.
pub const APPROX_CHARS_PER_TOKEN: usize = 4;

/// Pages of a preview, where the request names no number.
pub const DEFAULT_PREVIEW_PAGES: usize = 5;

/// Tokens from which on a chapter's text nodes are cut into chunks.
pub const CHAPTER_TOKEN_THRESHOLD: usize = 10_000;

pub const CHUNK_MIN_CHARS: usize = 2_000;

pub const CHUNK_TARGET_CHARS: usize = 3_000;

pub const CHUNK_MAX_CHARS: usize = 4_000;

pub const FULL_HTML_BLOCK_MIN_CHARS: usize = 12_000;

pub const FULL_HTML_BLOCK_TARGET_CHARS: usize = 16_000;

pub const FULL_HTML_BLOCK_MAX_CHARS: usize = 20_000;

pub const RECOVERY_BLOCK_MIN_CHARS: usize = 6_000;

pub const RECOVERY_BLOCK_TARGET_CHARS: usize = 10_000;

pub const RECOVERY_BLOCK_MAX_CHARS: usize = 14_000;

pub const TRUNCATION_RECOVERY_CHUNK_MIN_CHARS: usize = 800;

pub const TRUNCATION_RECOVERY_CHUNK_TARGET_CHARS: usize = 1_200;

pub const TRUNCATION_RECOVERY_CHUNK_MAX_CHARS: usize = 1_800;

pub const DEFAULT_MAX_CONCURRENT_REQUESTS: usize = 10;

/// How a text is cut up and sent.
pub struct TranslationChunkOptions {
    pub provider: String,
    pub model: String,
    pub enable_chunking: bool,
    pub chunk_threshold_chars: usize,
    pub chunk_min_chars: usize,
    pub chunk_target_chars: usize,
    pub max_chunk_chars: usize,
    pub enable_streaming: bool,
    pub max_concurrent_requests: usize,
    pub dynamic_rate_limit: bool,
    pub full_block_min_chars: usize,
    pub full_block_target_chars: usize,
    pub full_block_max_chars: usize,
    pub force_text_node_mode: bool,
}

/// The number that a setting denotes, if it denotes one.
pub open spec fn setting_value(raw: Option<Seq<char>>) -> Option<nat> {
    match raw {
        Some(s) => crate::text::unsigned_number(crate::text::trimmed(s)),
        None => None,
    }
}

/// The contents of an optional string.
pub open spec fn opt_view(s: Option<&str>) -> Option<Seq<char>> {
    match s {
        Some(t) => Some(t@),
        None => None,
    }
}

/// A setting's number within `min..=max`; the default where the setting is
/// absent or is no number.
pub fn read_env_usize(raw: Option<&str>, default: usize, min: usize, max: usize) -> (r: usize)
    requires
        min <= max,
    ensures
        r == crate::text::clamped(
            match setting_value(opt_view(raw)) {
                Some(n) => n as int,
                None => default as int,
            },
            min as int,
            max as int,
        ),
        min <= r <= max,
{
    match read_optional_setting(raw) {
        Some(value) => clamp(value, min, max),
        None => clamp(default, min, max),
    }
}

/// The number that a setting denotes, if it denotes one.
pub fn read_optional_setting(raw: Option<&str>) -> (r: Option<usize>)
    ensures
        match r {
            Some(n) => setting_value(opt_view(raw)) == Some(n as nat),
            None => setting_value(opt_view(raw)) is None,
        },
{
    match raw {
        Some(s) => parse_usize(trim(s).as_str()),
        None => None,
    }
}

/// The least, the wanted and the greatest size of a block of a whole book.
pub struct BlockSizes {
    pub min: usize,
    pub target: usize,
    pub max: usize,
}

/// The block sizes that three settings ask for: limits in the wrong order are
/// exchanged, and the wanted size is moved between them.
pub open spec fn wanted_block_sizes(min: int, target: int, max: int) -> (int, int, int) {
    let low = if min > max {
        max
    } else {
        min
    };
    let high = if min > max {
        min
    } else {
        max
    };
    (low, crate::text::clamped(target, low, high), high)
}

/// A block size setting, within 8 000 and 120 000 characters.
pub open spec fn block_setting(raw: Option<Seq<char>>, default: int) -> int {
    crate::text::clamped(
        match setting_value(raw) {
            Some(n) => n as int,
            None => default,
        },
        8_000,
        120_000,
    )
}

/// The block sizes that the environment asks for.
pub fn read_block_sizes(min: Option<&str>, target: Option<&str>, max: Option<&str>) -> (r:
    BlockSizes)
    ensures
        (r.min as int, r.target as int, r.max as int) == wanted_block_sizes(
            block_setting(opt_view(min), FULL_HTML_BLOCK_MIN_CHARS as int),
            block_setting(opt_view(target), FULL_HTML_BLOCK_TARGET_CHARS as int),
            block_setting(opt_view(max), FULL_HTML_BLOCK_MAX_CHARS as int),
        ),
        8_000 <= r.min <= r.target <= r.max <= 120_000,
{
    let low = read_env_usize(min, FULL_HTML_BLOCK_MIN_CHARS, 8_000, 120_000);
    let wanted = read_env_usize(target, FULL_HTML_BLOCK_TARGET_CHARS, 8_000, 120_000);
    let high = read_env_usize(max, FULL_HTML_BLOCK_MAX_CHARS, 8_000, 120_000);
    if low > high {
        BlockSizes { min: high, target: clamp(wanted, high, low), max: low }
    } else {
        BlockSizes { min: low, target: clamp(wanted, low, high), max: high }
    }
}

/// How many characters a preview translates.
pub open spec fn preview_chars(pages: Option<u32>) -> int {
    let wanted = match pages {
        Some(n) => n as int,
        None => DEFAULT_PREVIEW_PAGES as int,
    };
    (if wanted < 1 {
        1
    } else {
        wanted
    }) * APPROX_CHARS_PER_PAGE
}

/// How many characters a preview of so many pages translates.
pub fn preview_limit(pages: Option<u32>) -> (r: usize)
    requires
        preview_chars(pages) <= usize::MAX,
    ensures
        r == preview_chars(pages),
        r >= APPROX_CHARS_PER_PAGE,
{
    let wanted: usize = match pages {
        Some(n) => n as usize,
        None => DEFAULT_PREVIEW_PAGES,
    };
    let at_least_one = if wanted < 1 {
        1
    } else {
        wanted
    };
    at_least_one * APPROX_CHARS_PER_PAGE
}

/// How many requests a book may have under way at once.
pub open spec fn concurrency_setting(preview_only: bool, raw: Option<Seq<char>>) -> int {
    if preview_only {
        1
    } else {
        crate::text::clamped(
            match setting_value(raw) {
                Some(n) => n as int,
                None => DEFAULT_MAX_CONCURRENT_REQUESTS as int,
            },
            1,
            16,
        )
    }
}

/// The options of a run: a preview streams, node by node and one request at a
/// time; a whole book is cut into blocks and sent as fast as the provider
/// allows.
pub fn run_options(
    provider: &str,
    model: &str,
    preview_only: bool,
    max_concurrency: Option<&str>,
    sizes: BlockSizes,
) -> (r: TranslationChunkOptions)
    ensures
        r.provider@ == provider@,
        r.model@ == model@,
        r.enable_chunking == !preview_only,
        r.chunk_threshold_chars == CHAPTER_TOKEN_THRESHOLD * APPROX_CHARS_PER_TOKEN,
        r.chunk_min_chars == CHUNK_MIN_CHARS,
        r.chunk_target_chars == CHUNK_TARGET_CHARS,
        r.max_chunk_chars == CHUNK_MAX_CHARS,
        r.enable_streaming == preview_only,
        r.max_concurrent_requests == concurrency_setting(preview_only, opt_view(max_concurrency)),
        r.dynamic_rate_limit == !preview_only,
        r.full_block_min_chars == sizes.min,
        r.full_block_target_chars == sizes.target,
        r.full_block_max_chars == sizes.max,
        r.force_text_node_mode == false,
{
    let max_concurrent_requests: usize = if preview_only {
        1
    } else {
        read_env_usize(max_concurrency, DEFAULT_MAX_CONCURRENT_REQUESTS, 1, 16)
    };
    TranslationChunkOptions {
        provider: provider.to_string(),
        model: model.to_string(),
        enable_chunking: !preview_only,
        chunk_threshold_chars: CHAPTER_TOKEN_THRESHOLD * APPROX_CHARS_PER_TOKEN,
        chunk_min_chars: CHUNK_MIN_CHARS,
        chunk_target_chars: CHUNK_TARGET_CHARS,
        max_chunk_chars: CHUNK_MAX_CHARS,
        enable_streaming: preview_only,
        max_concurrent_requests,
        dynamic_rate_limit: !preview_only,
        full_block_min_chars: sizes.min,
        full_block_target_chars: sizes.target,
        full_block_max_chars: sizes.max,
        force_text_node_mode: false,
    }
}

/// The options with which one chapter is sent: those of the run, with small
/// blocks and chunks where its last reply could not be decoded.
pub fn chapter_options(options: &TranslationChunkOptions, decode_recovery: bool) -> (r:
    TranslationChunkOptions)
    ensures
        r.provider@ == options.provider@,
        r.model@ == options.model@,
        r.enable_chunking == options.enable_chunking,
        r.enable_streaming == options.enable_streaming,
        r.max_concurrent_requests == options.max_concurrent_requests,
        r.dynamic_rate_limit == options.dynamic_rate_limit,
        r.force_text_node_mode == options.force_text_node_mode,
        !decode_recovery ==> {
            &&& r.chunk_threshold_chars == options.chunk_threshold_chars
            &&& r.chunk_min_chars == options.chunk_min_chars
            &&& r.chunk_target_chars == options.chunk_target_chars
            &&& r.max_chunk_chars == options.max_chunk_chars
            &&& r.full_block_min_chars == options.full_block_min_chars
            &&& r.full_block_target_chars == options.full_block_target_chars
            &&& r.full_block_max_chars == options.full_block_max_chars
        },
        decode_recovery ==> {
            &&& r.chunk_threshold_chars == 1
            &&& r.chunk_min_chars == TRUNCATION_RECOVERY_CHUNK_MIN_CHARS
            &&& r.chunk_target_chars == TRUNCATION_RECOVERY_CHUNK_TARGET_CHARS
            &&& r.max_chunk_chars == TRUNCATION_RECOVERY_CHUNK_MAX_CHARS
            &&& r.full_block_min_chars == TRUNCATION_RECOVERY_CHUNK_MIN_CHARS
            &&& r.full_block_target_chars == TRUNCATION_RECOVERY_CHUNK_TARGET_CHARS
            &&& r.full_block_max_chars == TRUNCATION_RECOVERY_CHUNK_MAX_CHARS
        },
{
    let mut r = TranslationChunkOptions {
        provider: options.provider.clone(),
        model: options.model.clone(),
        enable_chunking: options.enable_chunking,
        chunk_threshold_chars: options.chunk_threshold_chars,
        chunk_min_chars: options.chunk_min_chars,
        chunk_target_chars: options.chunk_target_chars,
        max_chunk_chars: options.max_chunk_chars,
        enable_streaming: options.enable_streaming,
        max_concurrent_requests: options.max_concurrent_requests,
        dynamic_rate_limit: options.dynamic_rate_limit,
        full_block_min_chars: options.full_block_min_chars,
        full_block_target_chars: options.full_block_target_chars,
        full_block_max_chars: options.full_block_max_chars,
        force_text_node_mode: options.force_text_node_mode,
    };
    if decode_recovery {
        r.full_block_min_chars = TRUNCATION_RECOVERY_CHUNK_MIN_CHARS;
        r.full_block_target_chars = TRUNCATION_RECOVERY_CHUNK_TARGET_CHARS;
        r.full_block_max_chars = TRUNCATION_RECOVERY_CHUNK_MAX_CHARS;
        r.chunk_threshold_chars = 1;
        r.chunk_min_chars = TRUNCATION_RECOVERY_CHUNK_MIN_CHARS;
        r.chunk_target_chars = TRUNCATION_RECOVERY_CHUNK_TARGET_CHARS;
        r.max_chunk_chars = TRUNCATION_RECOVERY_CHUNK_MAX_CHARS;
    }
    r
}

/// The options with which a block that keeps being cut off is sent text node
/// by text node.
pub fn recovery_options(provider: &str, model: &str) -> (r: TranslationChunkOptions)
    ensures
        r.provider@ == provider@,
        r.model@ == model@,
        r.enable_chunking,
        r.chunk_threshold_chars == 1,
        r.chunk_min_chars == TRUNCATION_RECOVERY_CHUNK_MIN_CHARS,
        r.chunk_target_chars == TRUNCATION_RECOVERY_CHUNK_TARGET_CHARS,
        r.max_chunk_chars == TRUNCATION_RECOVERY_CHUNK_MAX_CHARS,
        !r.enable_streaming,
        r.max_concurrent_requests == 1,
        !r.dynamic_rate_limit,
        r.full_block_min_chars == RECOVERY_BLOCK_MIN_CHARS,
        r.full_block_target_chars == RECOVERY_BLOCK_TARGET_CHARS,
        r.full_block_max_chars == RECOVERY_BLOCK_MAX_CHARS,
        r.force_text_node_mode,
{
    TranslationChunkOptions {
        provider: provider.to_string(),
        model: model.to_string(),
        enable_chunking: true,
        chunk_threshold_chars: 1,
        chunk_min_chars: TRUNCATION_RECOVERY_CHUNK_MIN_CHARS,
        chunk_target_chars: TRUNCATION_RECOVERY_CHUNK_TARGET_CHARS,
        max_chunk_chars: TRUNCATION_RECOVERY_CHUNK_MAX_CHARS,
        enable_streaming: false,
        max_concurrent_requests: 1,
        dynamic_rate_limit: false,
        full_block_min_chars: RECOVERY_BLOCK_MIN_CHARS,
        full_block_target_chars: RECOVERY_BLOCK_TARGET_CHARS,
        full_block_max_chars: RECOVERY_BLOCK_MAX_CHARS,
        force_text_node_mode: true,
    }
}

// ---------------------------------------------------------------------------
// What is promised of settings
// ---------------------------------------------------------------------------
/// A setting is the number that is written in it, with white space around it or
/// not.
pub proof fn law_settings_are_the_numbers_in_them(front: Seq<char>, n: nat, back: Seq<char>)
    requires
        n <= usize::MAX,
        forall|i: int| 0 <= i < front.len() ==> crate::text::is_white_space(#[trigger] front[i]),
        forall|i: int| 0 <= i < back.len() ==> crate::text::is_white_space(#[trigger] back[i]),
    ensures
        setting_value(Some(front + crate::text::decimal(n) + back)) == Some(n),
        setting_value(None) is None,
{
    crate::text::law_written_numbers_are_read_again(n);
    let d = crate::text::decimal(n);
    let (a, b) = crate::text::law_every_text_can_be_trimmed(d);
    assert(d.len() > 0) by {
        if d.len() == 0 {
            crate::text::law_only_digits_make_a_number(seq!['x'], 0);
            assert(d =~= Seq::empty());
        }
    }
    crate::text::law_trimming_takes_white_space_alone(front, d, back);
}

/// A setting in which anything else is written is none.
pub proof fn law_other_settings_are_none(s: Seq<char>, i: int)
    requires
        0 < i < crate::text::trimmed(s).len(),
        !('0' <= crate::text::trimmed(s)[i] && crate::text::trimmed(s)[i] <= '9'),
    ensures
        setting_value(Some(s)) is None,
{
    crate::text::law_only_digits_make_a_number(crate::text::trimmed(s), i);
}

/// A block size is set between 8 000 and 120 000 characters; a size outside of
/// them is moved to the nearer one, and without a setting the default counts.
pub proof fn law_block_sizes_are_set_within_limits(raw: Option<Seq<char>>, default: int)
    ensures
        8_000 <= block_setting(raw, default) <= 120_000,
        setting_value(raw) matches Some(n) ==> {
            &&& 8_000 <= n <= 120_000 ==> block_setting(raw, default) == n
            &&& n < 8_000 ==> block_setting(raw, default) == 8_000
            &&& n > 120_000 ==> block_setting(raw, default) == 120_000
        },
        setting_value(raw) is None && 8_000 <= default <= 120_000 ==> block_setting(raw, default)
            == default,
{
}

/// Of two limits the smaller one is the lower; the wanted size is kept where it
/// lies between them and moved to the nearer one where it does not.
pub proof fn law_block_sizes_are_in_order(min: int, target: int, max: int)
    ensures
        ({
            let (low, mid, high) = wanted_block_sizes(min, target, max);
            &&& low <= mid <= high
            &&& min <= max ==> low == min && high == max
            &&& min > max ==> low == max && high == min
            &&& low <= target <= high ==> mid == target
            &&& target < low ==> mid == low
            &&& target > high ==> mid == high
        }),
{
}

/// A preview translates 1 800 characters for each page that is asked for, at
/// least those of one page, and those of five where none is named.
pub proof fn law_previews_have_the_pages_asked_for(n: u32)
    ensures
        n >= 1 ==> preview_chars(Some(n)) == 1_800 * n,
        preview_chars(Some(0)) == 1_800,
        preview_chars(None) == 9_000,
{
}

/// A preview sends one request at a time; a whole book as many as are set,
/// between one and sixteen, and ten where nothing is set.
pub proof fn law_requests_under_way_are_limited(raw: Option<Seq<char>>)
    ensures
        concurrency_setting(true, raw) == 1,
        1 <= concurrency_setting(false, raw) <= 16,
        setting_value(raw) is None ==> concurrency_setting(false, raw) == 10,
        setting_value(raw) matches Some(n) ==> {
            &&& 1 <= n <= 16 ==> concurrency_setting(false, raw) == n
            &&& n > 16 ==> concurrency_setting(false, raw) == 16
            &&& n == 0 ==> concurrency_setting(false, raw) == 1
        },
{
}

/// The sizes with which books, chapters and blocks that keep failing are cut.
pub proof fn law_sizes_of_blocks_and_chunks()
    ensures
        CHAPTER_TOKEN_THRESHOLD * APPROX_CHARS_PER_TOKEN == 40_000,
        CHUNK_MIN_CHARS == 2_000 && CHUNK_TARGET_CHARS == 3_000 && CHUNK_MAX_CHARS == 4_000,
        FULL_HTML_BLOCK_MIN_CHARS == 12_000 && FULL_HTML_BLOCK_TARGET_CHARS == 16_000
            && FULL_HTML_BLOCK_MAX_CHARS == 20_000,
        RECOVERY_BLOCK_MIN_CHARS == 6_000 && RECOVERY_BLOCK_TARGET_CHARS == 10_000
            && RECOVERY_BLOCK_MAX_CHARS == 14_000,
        TRUNCATION_RECOVERY_CHUNK_MIN_CHARS == 800 && TRUNCATION_RECOVERY_CHUNK_TARGET_CHARS
            == 1_200 && TRUNCATION_RECOVERY_CHUNK_MAX_CHARS == 1_800,
{
}

/// A setting that is there is read as it is.
pub proof fn law_settings_stand_for_their_text(raw: &str)
    ensures
        opt_view(Some(raw)) == Some(raw@),
        opt_view(None) is None,
{
}

} // verus!
