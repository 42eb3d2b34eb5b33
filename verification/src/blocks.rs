//! Translating a page in blocks of markup and text: the sizes of the blocks,
//! the page that is put together from what came back, and the smaller blocks
//! that are sent where an answer was cut short.

use crate::errors::{is_truncated_by_length_error, is_worth_retrying};
use crate::html::{count_translatable_text_chars, split_html_into_blocks, tokenize_html};
use crate::options::{
    TranslationChunkOptions, APPROX_CHARS_PER_TOKEN, RECOVERY_BLOCK_MAX_CHARS,
    RECOVERY_BLOCK_TARGET_CHARS,
};
use crate::quality::is_mostly_cjk;
use crate::text::{blank, char_count, clamp, same_text};
use std::collections::hash_map::DefaultHasher;
use std::collections::HashMap;
use std::collections::HashSet;
use std::collections::VecDeque;
use std::hash::Hasher;
use vstd::prelude::*;
use vstd::std_specs::hash::DefaultHasherAdditionalSpecFns;
use vstd::string::*;

verus! {

broadcast use vstd::string::group_string_axioms;

pub const ADAPTIVE_TRUNCATION_MAX_DEPTH: u8 = 3;

pub const ADAPTIVE_TRUNCATION_MIN_CHARS: usize = 1_000;

pub const MAX_BLOCKS_IN_FLIGHT: usize = 3;

// ---------------------------------------------------------------------------
// The blocks of a page
// ---------------------------------------------------------------------------
/// The larger of two numbers.
pub open spec fn larger(a: int, b: int) -> int {
    if a < b {
        b
    } else {
        a
    }
}

/// The least, wanted and greatest size of a page's blocks. Where the page holds
/// Han characters a block is as many tokens long with a fraction of the
/// characters.
pub open spec fn block_sizes(options: &TranslationChunkOptions, html: Seq<char>) -> (int, int, int) {
    if crate::quality::han_count(html) > 0 {
        (
            larger(options.full_block_min_chars as int / APPROX_CHARS_PER_TOKEN as int, 400),
            larger(options.full_block_target_chars as int / APPROX_CHARS_PER_TOKEN as int, 800),
            larger(options.full_block_max_chars as int / APPROX_CHARS_PER_TOKEN as int, 2_000),
        )
    } else {
        (
            larger(options.full_block_min_chars as int, 3_000),
            larger(options.full_block_target_chars as int, 5_000),
            larger(options.full_block_max_chars as int, 8_000),
        )
    }
}

/// The blocks that a page is sent in.
pub open spec fn page_blocks(options: &TranslationChunkOptions, html: Seq<char>) -> Seq<Seq<char>> {
    let sizes = block_sizes(options, html);
    crate::html::blocks_of(
        crate::html::tokenized(html),
        sizes.0 as nat,
        sizes.1 as nat,
        sizes.2 as nat,
    )
}

/// The blocks of a page, written one after another, are the page.
pub proof fn law_page_blocks_cover_the_page(options: &TranslationChunkOptions, html: Seq<char>)
    ensures
        crate::text::joined(page_blocks(options, html)) == html,
{
    let sizes = block_sizes(options, html);
    crate::html::law_blocks_cover_the_page(
        crate::html::tokenized(html),
        sizes.0 as nat,
        sizes.1 as nat,
        sizes.2 as nat,
    );
    crate::html::law_tokens_cover_the_page(html);
}

fn at_least(value: usize, floor: usize) -> (r: usize)
    ensures
        r == larger(value as int, floor as int),
{
    if value < floor {
        floor
    } else {
        value
    }
}

/// The blocks of a page that has text to translate, and how many characters of
/// text it has.
pub struct BlockPlan {
    pub blocks: Vec<String>,
    pub consumed: usize,
}

/// Cuts a page into the blocks that are sent. A page without text to translate
/// stays as it is.
pub fn plan_blocks(html: &str, options: &TranslationChunkOptions) -> (r: Option<BlockPlan>)
    ensures
        match r {
            None => crate::html::translatable_chars(crate::html::tokenized(html@)) == 0,
            Some(plan) => {
                &&& crate::html::translatable_chars(crate::html::tokenized(html@)) > 0
                &&& plan.consumed == crate::html::translatable_chars(crate::html::tokenized(html@))
                &&& crate::text::views(plan.blocks@) == page_blocks(options, html@)
                &&& plan.blocks@.len() > 0
            },
        },
{
    let tokens = tokenize_html(html);
    let consumed = count_translatable_text_chars(tokens.as_slice());
    if consumed == 0 {
        return None;
    }
    let (min, target, max) = if is_mostly_cjk(html) {
        (
            at_least(options.full_block_min_chars / APPROX_CHARS_PER_TOKEN, 400),
            at_least(options.full_block_target_chars / APPROX_CHARS_PER_TOKEN, 800),
            at_least(options.full_block_max_chars / APPROX_CHARS_PER_TOKEN, 2_000),
        )
    } else {
        (
            at_least(options.full_block_min_chars, 3_000),
            at_least(options.full_block_target_chars, 5_000),
            at_least(options.full_block_max_chars, 8_000),
        )
    };
    let blocks = split_html_into_blocks(tokens.as_slice(), min, target, max);
    proof {
        crate::html::lemma_translatable_bound(crate::html::tokenized(html@));
        law_page_blocks_cover_the_page(options, html@);
        if blocks@.len() == 0 {
            assert(crate::text::joined(crate::text::views(blocks@)).len() == 0);
        }
    }
    Some(BlockPlan { blocks, consumed })
}

// ---------------------------------------------------------------------------
// Sending the blocks and putting them together
// ---------------------------------------------------------------------------
/// How far the blocks of a page have come.
pub struct BlockRunState {
    /// The blocks.
    pub originals: Seq<Seq<char>>,
    /// What stands for each, once that is known.
    pub results: Seq<Option<Seq<char>>>,
    /// Which of them were kept as they were.
    pub kept: Seq<bool>,
    /// The first block that was not looked at yet.
    pub next: nat,
    /// Blocks that are under way.
    pub in_flight: Set<usize>,
    /// Blocks that were ever sent.
    pub sent: Set<usize>,
}

/// A block is the same as one in front of it.
pub open spec fn repeated(blocks: Seq<Seq<char>>, i: int) -> bool {
    exists|j: int| 0 <= j < i && #[trigger] blocks[j] == blocks[i]
}

impl BlockRunState {
    /// What stands for a block, and for every block that is the same, is known.
    pub open spec fn answered(self, index: int, text: Seq<char>, kept: bool) -> BlockRunState {
        BlockRunState {
            results: Seq::new(
                self.originals.len(),
                |k: int|
                    if self.originals[k] == self.originals[index] {
                        Some(text)
                    } else {
                        self.results[k]
                    },
            ),
            kept: Seq::new(
                self.originals.len(),
                |k: int|
                    if self.originals[k] == self.originals[index] {
                        kept
                    } else {
                        self.kept[k]
                    },
            ),
            ..self
        }
    }

    /// Blocks that need not be sent are passed over: those that are the same as
    /// one in front of them, and those whose translation is remembered.
    pub open spec fn looked_up(self, known: Map<u64, Seq<char>>) -> BlockRunState
        decreases self.originals.len() - self.next,
    {
        if self.next >= self.originals.len() {
            self
        } else if repeated(self.originals, self.next as int) {
            BlockRunState { next: self.next + 1, ..self }.looked_up(known)
        } else {
            let key = block_key(self.originals[self.next as int]);
            if known.contains_key(key) {
                BlockRunState {
                    next: self.next + 1,
                    ..self.answered(self.next as int, known[key], false)
                }.looked_up(known)
            } else {
                self
            }
        }
    }

    /// The block that comes next may be sent.
    pub open spec fn may_send(self) -> bool {
        self.next < self.originals.len() && self.in_flight.len() < MAX_BLOCKS_IN_FLIGHT
    }

    /// The block that comes next is sent.
    pub open spec fn sending(self) -> BlockRunState {
        BlockRunState {
            next: self.next + 1,
            in_flight: self.in_flight.insert(self.next as usize),
            sent: self.sent.insert(self.next as usize),
            ..self
        }
    }

    /// A block has come back: with its translation, or kept as it was.
    pub open spec fn returned(self, index: usize, outcome: Result<Seq<char>, Seq<char>>) -> BlockRunState {
        BlockRunState {
            in_flight: self.in_flight.remove(index),
            ..match outcome {
                Ok(text) => self.answered(index as int, text, false),
                Err(_) => self.answered(index as int, self.originals[index as int], true),
            }
        }
    }

    /// No block is left.
    pub open spec fn complete(self) -> bool {
        self.next >= self.originals.len() && self.in_flight.len() == 0
    }

    /// What holds at every moment: no more blocks are under way than may be, no
    /// block that is the same as one in front of it was sent, blocks that are
    /// the same share what stands for them, and of every other block that was
    /// looked at it is known what stands for it unless it is under way.
    pub open spec fn orderly(self) -> bool {
        &&& self.results.len() == self.originals.len()
        &&& self.kept.len() == self.originals.len()
        &&& self.next <= self.originals.len() <= usize::MAX
        &&& self.in_flight.finite()
        &&& self.in_flight.len() <= MAX_BLOCKS_IN_FLIGHT
        &&& self.in_flight.subset_of(self.sent)
        &&& forall|i: usize| #[trigger]
            self.sent.contains(i) ==> i < self.next && !repeated(self.originals, i as int)
        &&& forall|i: int, j: int|
            0 <= i < self.originals.len() && 0 <= j < self.originals.len() && self.originals[i]
                == self.originals[j] ==> #[trigger] self.results[i] == #[trigger] self.results[j]
        &&& forall|i: int|
            0 <= i < self.next && !repeated(self.originals, i) ==> (
            #[trigger] self.results[i] is Some <==> !self.in_flight.contains(i as usize))
        &&& forall|i: int|
            self.next <= i < self.originals.len() && !repeated(self.originals, i)
                ==> #[trigger] self.results[i] is None
    }

    /// What stands for each block.
    pub open spec fn texts(self) -> Seq<Seq<char>> {
        self.results.map_values(|r: Option<Seq<char>>| r->0)
    }
}

/// Blocks that are the same are sent once, and share the answer.
pub proof fn law_equal_blocks_are_sent_once(s: BlockRunState, a: usize, b: usize)
    requires
        s.orderly(),
        a < s.originals.len(),
        b < s.originals.len(),
        s.originals[a as int] == s.originals[b as int],
    ensures
        s.sent.contains(a) && s.sent.contains(b) ==> a == b,
        s.results[a as int] == s.results[b as int],
{
    if s.sent.contains(a) && s.sent.contains(b) {
        if a < b {
            assert(s.originals[a as int] == s.originals[b as int]);
            assert(repeated(s.originals, b as int));
        } else if b < a {
            assert(s.originals[b as int] == s.originals[a as int]);
            assert(repeated(s.originals, a as int));
        }
    }
}

/// In whatever order two blocks come back, each stands in its own place.
pub proof fn law_blocks_may_come_back_in_any_order(
    s: BlockRunState,
    i: usize,
    a: Result<Seq<char>, Seq<char>>,
    j: usize,
    b: Result<Seq<char>, Seq<char>>,
)
    requires
        s.orderly(),
        i < s.originals.len(),
        j < s.originals.len(),
        s.originals[i as int] != s.originals[j as int],
    ensures
        s.returned(i, a).returned(j, b) == s.returned(j, b).returned(i, a),
        s.returned(i, a).returned(j, b).results[i as int] == Some(
            match a {
                Ok(text) => text,
                Err(_) => s.originals[i as int],
            },
        ),
{
    let left = s.returned(i, a).returned(j, b);
    let right = s.returned(j, b).returned(i, a);
    assert(left.results =~= right.results);
    assert(left.kept =~= right.kept);
    assert(left.in_flight =~= right.in_flight);
}

/// When no block is left, it is known of every block what stands for it.
pub proof fn law_complete_means_every_block_has_an_answer(s: BlockRunState)
    requires
        s.orderly(),
        s.complete(),
    ensures
        forall|i: int| 0 <= i < s.originals.len() ==> #[trigger] s.results[i] is Some,
{
    s.in_flight.lemma_len0_is_empty();
    assert forall|i: int| 0 <= i < s.originals.len() implies #[trigger] s.results[i] is Some by {
        let first = lemma_first_of_its_kind(s.originals, i);
        assert(s.results[first] == s.results[i]);
    }
}

/// The first of the blocks that are the same as a block.
proof fn lemma_first_of_its_kind(blocks: Seq<Seq<char>>, i: int) -> (first: int)
    requires
        0 <= i < blocks.len(),
    ensures
        0 <= first <= i,
        blocks[first] == blocks[i],
        !repeated(blocks, first),
    decreases i,
{
    if repeated(blocks, i) {
        let j = choose|j: int| 0 <= j < i && #[trigger] blocks[j] == blocks[i];
        lemma_first_of_its_kind(blocks, j)
    } else {
        i
    }
}

/// As long as blocks are left, one can be sent or one is under way.
pub proof fn law_no_block_is_forgotten(s: BlockRunState)
    requires
        s.orderly(),
        !s.complete(),
    ensures
        s.may_send() || s.in_flight.len() > 0,
{
}

/// A page of which every block comes back unchanged, or is kept, comes out as it
/// went in.
pub proof fn law_unchanged_blocks_give_the_page_back(
    options: &TranslationChunkOptions,
    html: Seq<char>,
    s: BlockRunState,
)
    requires
        s.orderly(),
        s.originals == page_blocks(options, html),
        forall|i: int|
            0 <= i < s.originals.len() ==> #[trigger] s.results[i] == Some(s.originals[i]),
    ensures
        crate::text::joined(s.texts()) == html,
{
    assert(s.texts() =~= s.originals);
    law_page_blocks_cover_the_page(options, html);
}

/// An answer for the block that comes next keeps the order.
proof fn lemma_answering_keeps_order(s: BlockRunState, text: Seq<char>)
    requires
        s.orderly(),
        s.next < s.originals.len(),
        !repeated(s.originals, s.next as int),
    ensures
        (BlockRunState { next: s.next + 1, ..s.answered(s.next as int, text, false) }).orderly(),
{
    let n = s.next as int;
    let t = BlockRunState { next: s.next + 1, ..s.answered(n, text, false) };
    assert(!s.in_flight.contains(n as usize)) by {
        if s.in_flight.contains(n as usize) {
            assert(s.sent.contains(n as usize));
        }
    }
    assert forall|i: int| 0 <= i < t.next && !repeated(t.originals, i) implies (
    #[trigger] t.results[i] is Some <==> !t.in_flight.contains(i as usize)) by {
        if i < n {
            assert(s.results[i] is Some <==> !s.in_flight.contains(i as usize));
            if s.originals[i] == s.originals[n] {
                assert(repeated(s.originals, n));
            }
        }
    }
    assert forall|i: int| t.next <= i < t.originals.len() && !repeated(t.originals, i) implies
        #[trigger] t.results[i] is None by {
        assert(s.results[i] is None);
        if s.originals[i] == s.originals[n] {
            assert(s.originals[n] == s.originals[i]);
            assert(repeated(s.originals, i));
        }
    }
    assert forall|i: int, j: int|
        0 <= i < t.originals.len() && 0 <= j < t.originals.len() && t.originals[i]
            == t.originals[j] implies #[trigger] t.results[i] == #[trigger] t.results[j] by {
        assert(s.results[i] == s.results[j]);
    }
}

/// Passing over blocks keeps the order, and stops at a block to send or at the
/// end.
pub proof fn law_looking_up_keeps_order(s: BlockRunState, known: Map<u64, Seq<char>>)
    requires
        s.orderly(),
    ensures
        s.looked_up(known).orderly(),
        s.looked_up(known).originals == s.originals,
        s.looked_up(known).in_flight == s.in_flight,
        s.looked_up(known).sent == s.sent,
        s.looked_up(known).next >= s.next,
        s.looked_up(known).next < s.originals.len() ==> !repeated(
            s.originals,
            s.looked_up(known).next as int,
        ),
    decreases s.originals.len() - s.next,
{
    if s.next < s.originals.len() {
        if repeated(s.originals, s.next as int) {
            law_looking_up_keeps_order(BlockRunState { next: s.next + 1, ..s }, known);
        } else {
            let key = block_key(s.originals[s.next as int]);
            if known.contains_key(key) {
                lemma_answering_keeps_order(s, known[key]);
                law_looking_up_keeps_order(
                    BlockRunState {
                        next: s.next + 1,
                        ..s.answered(s.next as int, known[key], false)
                    },
                    known,
                );
            }
        }
    }
}

/// Sending a block keeps the order: it is one that was never sent.
pub proof fn law_sending_a_block_keeps_order(s: BlockRunState)
    requires
        s.orderly(),
        s.may_send(),
        !repeated(s.originals, s.next as int),
    ensures
        s.sending().orderly(),
        !s.sent.contains(s.next as usize),
{
    let t = s.sending();
    let n = s.next as int;
    assert(s.results[n] is None);
    assert forall|i: int| 0 <= i < t.next && !repeated(t.originals, i) implies (
    #[trigger] t.results[i] is Some <==> !t.in_flight.contains(i as usize)) by {
        if i < n {
            assert(s.results[i] is Some <==> !s.in_flight.contains(i as usize));
        }
    }
}

/// A block that comes back keeps the order.
pub proof fn law_returning_keeps_order(
    s: BlockRunState,
    index: usize,
    outcome: Result<Seq<char>, Seq<char>>,
)
    requires
        s.orderly(),
        s.in_flight.contains(index),
    ensures
        s.returned(index, outcome).orderly(),
{
    let t = s.returned(index, outcome);
    assert(s.sent.contains(index));
    assert forall|i: int| 0 <= i < t.next && !repeated(t.originals, i) implies (
    #[trigger] t.results[i] is Some <==> !t.in_flight.contains(i as usize)) by {
        assert(s.results[i] is Some <==> !s.in_flight.contains(i as usize));
        if i != index && s.originals[i] == s.originals[index as int] {
            if i < index {
                assert(repeated(s.originals, index as int));
            } else {
                assert(s.originals[index as int] == s.originals[i]);
                assert(repeated(s.originals, i));
            }
        }
    }
    assert forall|i: int| t.next <= i < t.originals.len() && !repeated(t.originals, i) implies
        #[trigger] t.results[i] is None by {
        assert(s.results[i] is None);
        if s.originals[i] == s.originals[index as int] {
            assert(s.originals[index as int] == s.originals[i]);
            assert(repeated(s.originals, i));
        }
    }
    assert forall|i: int, j: int|
        0 <= i < t.originals.len() && 0 <= j < t.originals.len() && t.originals[i]
            == t.originals[j] implies #[trigger] t.results[i] == #[trigger] t.results[j] by {
        assert(s.results[i] == s.results[j]);
    }
}

/// How many are true.
pub open spec fn count_true(list: Seq<bool>) -> nat
    decreases list.len(),
{
    if list.len() == 0 {
        0
    } else {
        count_true(list.drop_last()) + if list.last() {
            1nat
        } else {
            0nat
        }
    }
}

/// What came back for a block, as characters.
pub open spec fn outcome_view(outcome: Result<String, String>) -> Result<Seq<char>, Seq<char>> {
    match outcome {
        Ok(text) => Ok(text@),
        Err(error) => Err(error@),
    }
}

/// What stands for each block, as characters.
pub open spec fn result_views(results: Seq<Option<String>>) -> Seq<Option<Seq<char>>> {
    results.map_values(|r: Option<String>| crate::response::opt_text(r))
}

/// The blocks of a page on their way.
pub struct BlockRun {
    blocks: Vec<String>,
    results: Vec<Option<String>>,
    kept: Vec<bool>,
    next: usize,
    in_flight: HashSet<usize>,
    sent: Ghost<Set<usize>>,
}

impl View for BlockRun {
    type V = BlockRunState;

    closed spec fn view(&self) -> BlockRunState {
        BlockRunState {
            originals: crate::text::views(self.blocks@),
            results: result_views(self.results@),
            kept: self.kept@,
            next: self.next as nat,
            in_flight: self.in_flight@,
            sent: self.sent@,
        }
    }
}

impl BlockRun {
    /// Begins with the blocks of a page.
    pub fn new(blocks: Vec<String>) -> (r: BlockRun)
        ensures
            r@.orderly(),
            r@ == (BlockRunState {
                originals: crate::text::views(blocks@),
                results: Seq::new(blocks@.len(), |i: int| None),
                kept: Seq::new(blocks@.len(), |i: int| false),
                next: 0,
                in_flight: Set::empty(),
                sent: Set::empty(),
            }),
    {
        let mut results: Vec<Option<String>> = Vec::new();
        let mut kept: Vec<bool> = Vec::new();
        let mut i: usize = 0;
        while i < blocks.len()
            invariant
                i <= blocks.len(),
                results@.len() == i,
                kept@.len() == i,
                forall|k: int| 0 <= k < i ==> #[trigger] results@[k] is None,
                forall|k: int| 0 <= k < i ==> !#[trigger] kept@[k],
            decreases blocks.len() - i,
        {
            results.push(None);
            kept.push(false);
            i += 1;
        }
        let run = BlockRun {
            blocks,
            results,
            kept,
            next: 0,
            in_flight: HashSet::new(),
            sent: Ghost(Set::empty()),
        };
        proof {
            assert(run@.results =~= Seq::new(run.blocks@.len(), |i: int| None));
            assert(run@.kept =~= Seq::new(run.blocks@.len(), |i: int| false));
            assert(run.blocks.len() <= usize::MAX);
        }
        run
    }

    fn is_repeated(&self, i: usize) -> (r: bool)
        requires
            i < self@.originals.len(),
        ensures
            r == repeated(self@.originals, i as int),
    {
        let mut j: usize = 0;
        while j < i
            invariant
                j <= i < self@.originals.len(),
                forall|k: int|
                    0 <= k < j ==> #[trigger] self@.originals[k] != self@.originals[i as int],
            decreases i - j,
        {
            if same_text(self.blocks[j].as_str(), self.blocks[i].as_str()) {
                assert(self@.originals[j as int] == self@.originals[i as int]);
                return true;
            }
            j += 1;
        }
        false
    }

    fn answer(&mut self, index: usize, text: &str, kept: bool)
        requires
            old(self)@.orderly(),
            index < old(self)@.originals.len(),
        ensures
            final(self)@ == old(self)@.answered(index as int, text@, kept),
    {
        let ghost before = self@;
        let ghost goal = before.answered(index as int, text@, kept);
        let mut k: usize = 0;
        while k < self.blocks.len()
            invariant
                k <= self.blocks.len(),
                index < before.originals.len(),
                before.orderly(),
                goal == before.answered(index as int, text@, kept),
                self@.originals == before.originals,
                self@.next == before.next,
                self@.in_flight == before.in_flight,
                self@.sent == before.sent,
                self.results@.len() == before.originals.len(),
                self.kept@.len() == before.originals.len(),
                forall|i: int| 0 <= i < k ==> #[trigger] self@.results[i] == goal.results[i],
                forall|i: int|
                    k <= i < before.originals.len() ==> #[trigger] self@.results[i]
                        == before.results[i],
                forall|i: int| 0 <= i < k ==> #[trigger] self@.kept[i] == goal.kept[i],
                forall|i: int|
                    k <= i < before.originals.len() ==> #[trigger] self@.kept[i] == before.kept[i],
            decreases self.blocks.len() - k,
        {
            let ghost now = self@;
            if same_text(self.blocks[k].as_str(), self.blocks[index].as_str()) {
                self.results.set(k, Some(text.to_string()));
                self.kept.set(k, kept);
            }
            proof {
                assert(self@.originals =~= before.originals);
                assert(before.originals[k as int] == self.blocks@[k as int]@);
                assert forall|i: int| 0 <= i < before.originals.len() && i != k implies
                    #[trigger] self@.results[i] == now.results[i] by {}
                assert forall|i: int| 0 <= i < before.originals.len() && i != k implies
                    #[trigger] self@.kept[i] == now.kept[i] by {}
            }
            k += 1;
        }
        proof {
            assert(self@.results =~= goal.results);
            assert(self@.kept =~= goal.kept);
        }
    }

    /// The block to send next, and its place; none when enough are under way or
    /// none is left. Blocks that need not be sent are passed over.
    pub fn next_to_send(&mut self, cache: &BlockCache) -> (r: Option<(usize, String)>)
        requires
            old(self)@.orderly(),
        ensures
            final(self)@.orderly(),
            ({
                let s = old(self)@.looked_up(cache@);
                match r {
                    Some((index, block)) => {
                        &&& s.may_send()
                        &&& index == s.next
                        &&& block@ == s.originals[index as int]
                        &&& !old(self)@.sent.contains(index)
                        &&& final(self)@ == s.sending()
                    },
                    None => !s.may_send() && final(self)@ == s,
                }
            }),
    {
        let ghost goal = self@.looked_up(cache@);
        proof {
            law_looking_up_keeps_order(self@, cache@);
        }
        while self.next < self.blocks.len()
            invariant
                self@.orderly(),
                goal == self@.looked_up(cache@),
                goal == old(self)@.looked_up(cache@),
                goal.orderly(),
                goal.sent == old(self)@.sent,
                goal.next < goal.originals.len() ==> !repeated(goal.originals, goal.next as int),
            decreases self.blocks.len() - self.next,
        {
            let i = self.next;
            let ghost before = self@;
            if self.is_repeated(i) {
                self.next += 1;
                assert(self@ == (BlockRunState { next: before.next + 1, ..before }));
            } else {
                match cache.lookup(self.blocks[i].as_str()) {
                    Some(text) => {
                        self.answer(i, text.as_str(), false);
                        self.next += 1;
                        proof {
                            lemma_answering_keeps_order(before, text@);
                            assert(self@ == (BlockRunState {
                                next: before.next + 1,
                                ..before.answered(i as int, text@, false)
                            }));
                        }
                    },
                    None => {
                        assert(goal == before);
                        if self.in_flight.len() >= MAX_BLOCKS_IN_FLIGHT {
                            return None;
                        }
                        let block = self.blocks[i].clone();
                        proof {
                            law_sending_a_block_keeps_order(before);
                            self.sent@ = self.sent@.insert(i);
                        }
                        self.in_flight.insert(i);
                        self.next += 1;
                        assert(self@ == before.sending());
                        return Some((i, block));
                    },
                }
            }
        }
        assert(goal == self@);
        None
    }

    /// Takes what came back for a block. A translation is remembered, and stands
    /// for every block that is the same. An error that may go away fails the
    /// page; after any other the block is kept as it was.
    pub fn on_result(
        &mut self,
        index: usize,
        outcome: Result<String, String>,
        cache: &mut BlockCache,
    ) -> (r: Result<(), String>)
        requires
            old(self)@.orderly(),
            old(self)@.in_flight.contains(index),
        ensures
            final(self)@.orderly(),
            match outcome {
                Ok(text) => {
                    &&& r is Ok
                    &&& final(self)@ == old(self)@.returned(index, Ok(text@))
                    &&& final(cache)@ == old(cache)@.insert(
                        block_key(old(self)@.originals[index as int]),
                        text@,
                    )
                },
                Err(error) => {
                    &&& final(cache)@ == old(cache)@
                    &&& if crate::errors::worth_retrying(error@) {
                        r == Err::<(), String>(error) && final(self)@ == old(self)@
                    } else {
                        r is Ok && final(self)@ == old(self)@.returned(index, Err(error@))
                    }
                },
            },
    {
        let ghost before = self@;
        proof {
            assert(before.sent.contains(index));
            law_returning_keeps_order(before, index, outcome_view(outcome));
        }
        match outcome {
            Ok(text) => {
                self.answer(index, text.as_str(), false);
                self.in_flight.remove(&index);
                assert(self@ == before.returned(index, Ok(text@)));
                cache.store(self.blocks[index].as_str(), text);
                Ok(())
            },
            Err(error) => {
                if is_worth_retrying(error.as_str()) {
                    return Err(error);
                }
                let original = self.blocks[index].clone();
                self.answer(index, original.as_str(), true);
                self.in_flight.remove(&index);
                assert(self@ == before.returned(index, Err(error@)));
                Ok(())
            },
        }
    }

    /// Whether no block is left.
    pub fn is_complete(&self) -> (r: bool)
        ensures
            r == self@.complete(),
    {
        self.next >= self.blocks.len() && self.in_flight.len() == 0
    }

    /// How many blocks were kept as they were.
    pub fn kept_blocks(&self) -> (r: usize)
        ensures
            r == count_true(self@.kept),
    {
        let mut n: usize = 0;
        let mut i: usize = 0;
        assert(self.kept@.take(0) =~= Seq::<bool>::empty());
        while i < self.kept.len()
            invariant
                n <= i <= self.kept.len(),
                n == count_true(self.kept@.take(i as int)),
            decreases self.kept.len() - i,
        {
            assert(self.kept@.take(i + 1).drop_last() =~= self.kept@.take(i as int));
            if self.kept[i] {
                n += 1;
            }
            i += 1;
        }
        assert(self.kept@.take(self.kept@.len() as int) =~= self.kept@);
        n
    }

    /// The page.
    pub fn finish(&self) -> (r: String)
        requires
            self@.orderly(),
            self@.complete(),
        ensures
            r@ == crate::text::joined(self@.texts()),
            forall|i: int| 0 <= i < self@.originals.len() ==> #[trigger] self@.results[i] is Some,
    {
        proof {
            law_complete_means_every_block_has_an_answer(self@);
        }
        let ghost all = self@.texts();
        let mut out = String::new();
        let mut i: usize = 0;
        assert(all.take(0) =~= Seq::<Seq<char>>::empty());
        while i < self.results.len()
            invariant
                i <= self.results.len(),
                self.results@.len() == self@.originals.len(),
                all == self@.texts(),
                forall|k: int|
                    0 <= k < self@.originals.len() ==> #[trigger] self@.results[k] is Some,
                out@ == crate::text::joined(all.take(i as int)),
            decreases self.results.len() - i,
        {
            assert(self@.results[i as int] is Some);
            if let Some(text) = &self.results[i] {
                out.append(text.as_str());
                proof {
                    crate::text::lemma_joined_push(all.take(i as int), text@);
                    assert(all.take(i + 1) =~= all.take(i as int).push(text@));
                }
            }
            i += 1;
        }
        assert(all.take(all.len() as int) =~= all);
        out
    }
}

// ---------------------------------------------------------------------------
// Blocks whose answers are cut short
// ---------------------------------------------------------------------------
/// The wanted size of the parts of a block that was cut short.
pub open spec fn split_target(len: int, depth: int) -> int {
    crate::text::clamped(
        len / (depth + 2),
        ADAPTIVE_TRUNCATION_MIN_CHARS as int,
        RECOVERY_BLOCK_TARGET_CHARS as int,
    )
}

/// The parts that a block is cut into after its answer was cut short: the
/// deeper, the smaller. A short block has none.
pub open spec fn smaller_blocks(block: Seq<char>, depth: int) -> Seq<Seq<char>> {
    let target = split_target(block.len() as int, depth);
    if block.len() < ADAPTIVE_TRUNCATION_MIN_CHARS {
        Seq::empty()
    } else {
        crate::html::blocks_of(
            crate::html::tokenized(block),
            crate::text::clamped(
                target / 2,
                ADAPTIVE_TRUNCATION_MIN_CHARS as int,
                target,
            ) as nat,
            target as nat,
            crate::text::clamped(target * 2, target, RECOVERY_BLOCK_MAX_CHARS as int) as nat,
        )
    }
}

/// Cuts a block whose answer was cut short into smaller ones.
pub fn split_segment_for_truncation_retry(segment_html: &str, depth: u8) -> (r: Vec<String>)
    ensures
        crate::text::views(r@) == smaller_blocks(segment_html@, depth as int),
{
    let segment_chars = char_count(segment_html);
    if segment_chars < ADAPTIVE_TRUNCATION_MIN_CHARS {
        let none: Vec<String> = Vec::new();
        assert(crate::text::views(none@) =~= Seq::<Seq<char>>::empty());
        return none;
    }
    let divisor = depth as usize + 2;
    let target = clamp(
        segment_chars / divisor,
        ADAPTIVE_TRUNCATION_MIN_CHARS,
        RECOVERY_BLOCK_TARGET_CHARS,
    );
    let min = clamp(target / 2, ADAPTIVE_TRUNCATION_MIN_CHARS, target);
    let max = clamp(target * 2, target, RECOVERY_BLOCK_MAX_CHARS);
    let tokens = tokenize_html(segment_html);
    split_html_into_blocks(tokens.as_slice(), min, target, max)
}

/// The parts of a block, written one after another, are the block.
pub proof fn law_smaller_blocks_cover_the_block(block: Seq<char>, depth: int)
    ensures
        smaller_blocks(block, depth).len() > 0 ==> crate::text::joined(smaller_blocks(block, depth))
            == block,
{
    let target = split_target(block.len() as int, depth);
    crate::html::law_blocks_cover_the_page(
        crate::html::tokenized(block),
        crate::text::clamped(target / 2, ADAPTIVE_TRUNCATION_MIN_CHARS as int, target) as nat,
        target as nat,
        crate::text::clamped(target * 2, target, RECOVERY_BLOCK_MAX_CHARS as int) as nat,
    );
    crate::html::law_tokens_cover_the_page(block);
}

/// A part of a block, and how often it was cut out of a larger one.
pub struct Part {
    pub text: Seq<char>,
    pub depth: nat,
}

/// A block while it is sent in ever smaller parts: what is still to send,
/// the part that was sent, and what came back.
pub struct AdaptiveState {
    pub pending: Seq<Part>,
    pub sent: Option<Part>,
    pub translated: Seq<char>,
}

/// The characters of each part.
pub open spec fn part_texts(parts: Seq<Part>) -> Seq<Seq<char>> {
    parts.map_values(|p: Part| p.text)
}

/// The parts of a block, one level deeper.
pub open spec fn deeper(block: Part) -> Seq<Part> {
    at_depth(smaller_blocks(block.text, block.depth as int), block.depth + 1)
}

/// Parts of one depth.
pub open spec fn at_depth(list: Seq<Seq<char>>, depth: nat) -> Seq<Part> {
    list.map_values(|text: Seq<char>| Part { text, depth })
}

impl AdaptiveState {
    /// What has not come back yet.
    pub open spec fn left(self) -> Seq<char> {
        (match self.sent {
            Some(part) => part.text,
            None => Seq::empty(),
        }) + crate::text::joined(part_texts(self.pending))
    }

    /// The first part that is not blank is sent; those in front of it stay as
    /// they are.
    pub open spec fn sending(self) -> AdaptiveState
        decreases self.pending.len(),
    {
        if self.pending.len() == 0 {
            AdaptiveState { sent: None, ..self }
        } else if crate::text::is_blank(self.pending[0].text) {
            AdaptiveState {
                pending: self.pending.drop_first(),
                translated: self.translated + self.pending[0].text,
                ..self
            }.sending()
        } else {
            AdaptiveState {
                pending: self.pending.drop_first(),
                sent: Some(self.pending[0]),
                ..self
            }
        }
    }

    /// The part that was sent has come back.
    pub open spec fn received(self, text: Seq<char>) -> AdaptiveState {
        AdaptiveState { sent: None, translated: self.translated + text, ..self }
    }

    /// The part that was sent is cut into smaller ones, which come first.
    pub open spec fn cut(self) -> AdaptiveState {
        AdaptiveState { pending: deeper(self.sent->0) + self.pending, sent: None, ..self }
    }

    /// The part that was sent can be cut: it was not cut too often yet, and
    /// there is more than one smaller part.
    pub open spec fn can_cut(self) -> bool {
        &&& (self.sent->0).depth < ADAPTIVE_TRUNCATION_MAX_DEPTH
        &&& smaller_blocks((self.sent->0).text, (self.sent->0).depth as int).len() > 1
    }

    /// No part was cut too often.
    pub open spec fn bounded(self) -> bool {
        &&& forall|i: int|
            0 <= i < self.pending.len() ==> (#[trigger] self.pending[i]).depth
                <= ADAPTIVE_TRUNCATION_MAX_DEPTH
        &&& self.sent matches Some(part) ==> part.depth <= ADAPTIVE_TRUNCATION_MAX_DEPTH
    }
}

/// Cutting a part loses nothing of what is left to translate.
pub proof fn law_cutting_loses_nothing(s: AdaptiveState)
    requires
        s.sent is Some,
        s.can_cut(),
    ensures
        s.cut().left() == s.left(),
{
    let block = s.sent->0;
    let parts = deeper(block);
    law_smaller_blocks_cover_the_block(block.text, block.depth as int);
    assert(part_texts(parts) =~= smaller_blocks(block.text, block.depth as int));
    assert(part_texts(parts + s.pending) =~= part_texts(parts) + part_texts(s.pending));
    crate::text::lemma_joined_add(part_texts(parts), part_texts(s.pending));
    assert(s.cut().left() =~= s.left());
}

/// Sending a part loses nothing: what is translated and what is left make up the
/// same text as before, and no more work is left.
pub proof fn law_sending_loses_nothing(s: AdaptiveState)
    requires
        s.sent is None,
    ensures
        s.sending().translated + s.sending().left() == s.translated + s.left(),
        s.sending().work() <= s.work(),
        s.bounded() ==> s.sending().bounded(),
        s.sending().sent matches Some(part) ==> !crate::text::is_blank(part.text),
    decreases s.pending.len(),
{
    if s.pending.len() > 0 {
        let first = s.pending[0];
        let rest = s.pending.drop_first();
        assert(part_texts(s.pending) =~= seq![first.text] + part_texts(rest));
        crate::text::lemma_joined_cons(first.text, part_texts(rest));
        assert(s.pending =~= seq![first] + rest);
        lemma_work_add(seq![first], rest);
        assert(seq![first].drop_last() =~= Seq::<Part>::empty());
        assert(work_in(seq![first]) == work_of(first)) by {
            assert(work_in(Seq::<Part>::empty()) == 0);
        }
        assert forall|i: int| 0 <= i < rest.len() implies (#[trigger] rest[i]) == s.pending[i + 1] by {}
        if crate::text::is_blank(first.text) {
            let t = AdaptiveState {
                pending: rest,
                translated: s.translated + first.text,
                ..s
            };
            law_sending_loses_nothing(t);
            assert(t.translated + t.left() =~= s.translated + s.left());
            if s.bounded() {
                assert forall|i: int| 0 <= i < t.pending.len() implies (
                #[trigger] t.pending[i]).depth <= ADAPTIVE_TRUNCATION_MAX_DEPTH by {
                    assert(t.pending[i] == s.pending[i + 1]);
                }
            }
        } else {
            assert(s.sending().left() =~= s.left());
        }
    }
}

/// A part that comes back unchanged moves from what is left to what is
/// translated: where every part does, the block comes out as it went in.
pub proof fn law_unchanged_parts_give_the_block_back(s: AdaptiveState)
    requires
        s.sent is Some,
    ensures
        ({
            let t = s.received((s.sent->0).text);
            t.translated + t.left() == s.translated + s.left()
        }),
{
    let t = s.received((s.sent->0).text);
    assert(t.translated + t.left() =~= s.translated + s.left());
}

/// How much work parts may still make: the longer, and the less often cut, the
/// more.
pub open spec fn work_in(parts: Seq<Part>) -> nat
    decreases parts.len(),
{
    if parts.len() == 0 {
        0
    } else {
        work_in(parts.drop_last()) + work_of(parts.last())
    }
}

/// How much work a part may still make.
pub open spec fn work_of(part: Part) -> nat {
    ((ADAPTIVE_TRUNCATION_MAX_DEPTH + 1 - part.depth) * part.text.len() + 1) as nat
}

impl AdaptiveState {
    /// How much work a block may still make.
    pub open spec fn work(self) -> nat {
        work_in(self.pending) + match self.sent {
            Some(part) => work_of(part),
            None => 0,
        }
    }
}

/// Every answer brings a block nearer to its end: whether a part came back or
/// was cut, less work is left.
pub proof fn law_every_answer_leaves_less_work(s: AdaptiveState, text: Seq<char>)
    requires
        s.bounded(),
        s.sent is Some,
    ensures
        s.received(text).work() < s.work(),
        s.can_cut() ==> s.cut().work() < s.work(),
{
    let part = s.sent->0;
    lemma_work_is_positive(part);
    if s.can_cut() {
        let parts = deeper(part);
        law_smaller_blocks_cover_the_block(part.text, part.depth as int);
        assert(part_texts(parts) =~= smaller_blocks(part.text, part.depth as int));
        lemma_smaller_blocks_are_not_empty(part.text, part.depth as int);
        lemma_work_at_depth(
            smaller_blocks(part.text, part.depth as int),
            part.depth + 1,
        );
        lemma_work_add(parts, s.pending);
        let n = part.text.len() as int;
        let d = part.depth as int;
        assert((4 - d) * n == (4 - (d + 1)) * n + n) by (nonlinear_arith);
    }
}

proof fn lemma_work_is_positive(part: Part)
    requires
        part.depth <= ADAPTIVE_TRUNCATION_MAX_DEPTH,
    ensures
        work_of(part) > 0,
{
    let left = ADAPTIVE_TRUNCATION_MAX_DEPTH + 1 - part.depth;
    assert(left * part.text.len() >= 0) by (nonlinear_arith)
        requires
            left > 0,
    ;
}

proof fn lemma_smaller_blocks_are_not_empty(block: Seq<char>, depth: int)
    ensures
        forall|i: int|
            0 <= i < smaller_blocks(block, depth).len() ==> (
            #[trigger] smaller_blocks(block, depth)[i]).len() > 0,
{
    let target = split_target(block.len() as int, depth);
    crate::html::law_blocks_are_not_empty(
        block,
        crate::text::clamped(target / 2, ADAPTIVE_TRUNCATION_MIN_CHARS as int, target) as nat,
        target as nat,
        crate::text::clamped(target * 2, target, RECOVERY_BLOCK_MAX_CHARS as int) as nat,
    );
}

proof fn lemma_work_add(left: Seq<Part>, right: Seq<Part>)
    ensures
        work_in(left + right) == work_in(left) + work_in(right),
    decreases right.len(),
{
    if right.len() == 0 {
        assert(left + right =~= left);
    } else {
        assert((left + right).drop_last() =~= left + right.drop_last());
        lemma_work_add(left, right.drop_last());
    }
}

/// Parts that are not empty make no more work, for each of their characters,
/// than the levels that are left and one.
proof fn lemma_work_at_depth(list: Seq<Seq<char>>, depth: nat)
    requires
        depth <= ADAPTIVE_TRUNCATION_MAX_DEPTH,
        forall|i: int| 0 <= i < list.len() ==> (#[trigger] list[i]).len() > 0,
    ensures
        work_in(at_depth(list, depth)) == (ADAPTIVE_TRUNCATION_MAX_DEPTH + 1 - depth)
            * crate::text::joined(list).len() + list.len(),
        list.len() <= crate::text::joined(list).len(),
    decreases list.len(),
{
    let left = ADAPTIVE_TRUNCATION_MAX_DEPTH + 1 - depth;
    if list.len() == 0 {
        assert(left * 0 == 0) by (nonlinear_arith);
        assert(crate::text::joined(list).len() == 0);
    } else {
        let init = list.drop_last();
        assert forall|i: int| 0 <= i < init.len() implies (#[trigger] init[i]).len() > 0 by {
            assert(init[i] == list[i]);
        }
        lemma_work_at_depth(init, depth);
        assert(at_depth(list, depth).drop_last() =~= at_depth(init, depth));
        assert(list[list.len() - 1].len() > 0);
        let a = crate::text::joined(init).len() as int;
        let b = list.last().len() as int;
        assert(left * (a + b) == left * a + left * b) by (nonlinear_arith);
        lemma_work_is_positive(Part { text: list.last(), depth });
    }
}

/// What to do about a part that was sent.
pub enum AdaptiveStep {
    /// Send the next part.
    Continue,
    /// Translate this part node by node.
    Recover(String),
    /// Give the block up.
    Fail(String),
}

/// The translation of one block, in ever smaller parts while answers are cut
/// short.
pub struct AdaptiveRun {
    pending: VecDeque<(String, u8)>,
    sent: Option<(String, u8)>,
    translated: String,
}

/// The characters and the depth of a part.
pub open spec fn part_view(part: (String, u8)) -> Part {
    Part { text: part.0@, depth: part.1 as nat }
}

/// The characters and the depth of each part.
pub open spec fn parts_view(parts: Seq<(String, u8)>) -> Seq<Part> {
    parts.map_values(|p: (String, u8)| part_view(p))
}

impl View for AdaptiveRun {
    type V = AdaptiveState;

    closed spec fn view(&self) -> AdaptiveState {
        AdaptiveState {
            pending: parts_view(self.pending@),
            sent: match self.sent {
                Some(part) => Some(part_view(part)),
                None => None,
            },
            translated: self.translated@,
        }
    }
}

impl AdaptiveRun {
    /// Begins with a block.
    pub fn new(block_html: &str) -> (r: AdaptiveRun)
        ensures
            r@.bounded(),
            r@.pending == seq![Part { text: block_html@, depth: 0 }],
            r@.sent is None,
            r@.translated == Seq::<char>::empty(),
            r@.left() == block_html@,
    {
        let mut pending: VecDeque<(String, u8)> = VecDeque::new();
        pending.push_back((block_html.to_string(), 0));
        let run = AdaptiveRun { pending, sent: None, translated: String::new() };
        proof {
            assert(run@.pending =~= seq![Part { text: block_html@, depth: 0 }]);
            assert(part_texts(run@.pending) =~= seq![block_html@] + Seq::<Seq<char>>::empty());
            crate::text::lemma_joined_cons(block_html@, Seq::empty());
            assert(crate::text::joined(Seq::<Seq<char>>::empty()) =~= Seq::<char>::empty());
            assert(run@.left() =~= block_html@);
        }
        run
    }

    /// The part that is sent next; none when the block is done. Blank parts stay
    /// as they are.
    pub fn next_segment(&mut self) -> (r: Option<String>)
        requires
            old(self)@.bounded(),
            old(self)@.sent is None,
        ensures
            final(self)@.bounded(),
            final(self)@ == old(self)@.sending(),
            match r {
                Some(text) => final(self)@.sent is Some && text@ == (final(self)@.sent->0).text
                    && !crate::text::is_blank(text@),
                None => final(self)@.sent is None && final(self)@.pending.len() == 0,
            },
    {
        let ghost goal = self@.sending();
        proof {
            law_sending_loses_nothing(self@);
        }
        loop
            invariant
                self@.sent is None,
                self@.sending() == goal,
                goal == old(self)@.sending(),
                goal.bounded(),
            decreases self.pending@.len(),
        {
            let ghost before = self.pending@;
            let ghost state = self@;
            match self.pending.pop_front() {
                Some(part) => {
                    proof {
                        assert(part == before[0]);
                        assert(state.pending[0] == part_view(part));
                        assert(parts_view(self.pending@) =~= state.pending.drop_first());
                    }
                    if blank(part.0.as_str()) {
                        self.translated.append(part.0.as_str());
                    } else {
                        let text = part.0.clone();
                        self.sent = Some(part);
                        return Some(text);
                    }
                },
                None => {
                    assert(before.len() == 0);
                    assert(parts_view(self.pending@) =~= state.pending);
                    return None;
                },
            }
        }
    }

    /// Takes what came back for the part that was sent. One that was cut short
    /// is cut into smaller parts while that is possible, and translated node by
    /// node after that.
    pub fn on_result(&mut self, outcome: Result<String, String>) -> (r: AdaptiveStep)
        requires
            old(self)@.bounded(),
            old(self)@.sent is Some,
        ensures
            final(self)@.bounded(),
            match outcome {
                Ok(text) => r is Continue && final(self)@ == old(self)@.received(text@),
                Err(error) => {
                    if !crate::errors::speaks_of_truncation(error@) {
                        r == AdaptiveStep::Fail(error) && final(self)@ == old(self)@
                    } else if old(self)@.can_cut() {
                        r is Continue && final(self)@ == old(self)@.cut()
                    } else {
                        final(self)@ == old(self)@ && r is Recover && r->Recover_0@ == (old(
                            self,
                        )@.sent->0).text
                    }
                },
            },
    {
        match outcome {
            Ok(text) => {
                self.translated.append(text.as_str());
                self.sent = None;
                AdaptiveStep::Continue
            },
            Err(error) => {
                if !is_truncated_by_length_error(error.as_str()) {
                    return AdaptiveStep::Fail(error);
                }
                let (segment, depth) = match &self.sent {
                    Some(part) => (part.0.clone(), part.1),
                    None => (String::new(), 0),
                };
                if depth < ADAPTIVE_TRUNCATION_MAX_DEPTH {
                    let parts = split_segment_for_truncation_retry(segment.as_str(), depth);
                    if parts.len() > 1 {
                        self.push_parts(parts, depth + 1);
                        proof {
                            assert(at_depth(
                                crate::text::views(parts@),
                                (depth + 1) as nat,
                            ) =~= deeper(old(self)@.sent->0));
                        }
                        self.sent = None;
                        return AdaptiveStep::Continue;
                    }
                }
                AdaptiveStep::Recover(segment)
            },
        }
    }

    fn push_parts(&mut self, parts: Vec<String>, depth: u8)
        requires
            old(self)@.bounded(),
            depth <= ADAPTIVE_TRUNCATION_MAX_DEPTH,
        ensures
            final(self)@.bounded(),
            final(self)@ == (AdaptiveState {
                pending: at_depth(crate::text::views(parts@), depth as nat)
                    + old(self)@.pending,
                ..old(self)@
            }),
    {
        let ghost front = at_depth(crate::text::views(parts@), depth as nat);
        let ghost first = self@;
        let mut i = parts.len();
        assert(front.skip(i as int) + first.pending =~= first.pending);
        while i > 0
            invariant
                i <= parts.len(),
                first.bounded(),
                depth <= ADAPTIVE_TRUNCATION_MAX_DEPTH,
                front == at_depth(crate::text::views(parts@), depth as nat),
                self@ == (AdaptiveState { pending: front.skip(i as int) + first.pending, ..first }),
            decreases i,
        {
            i -= 1;
            let ghost before = self.pending@;
            self.pending.push_front((parts[i].clone(), depth));
            proof {
                assert(parts_view(self.pending@) =~= seq![front[i as int]] + parts_view(before));
                assert(front.skip(i as int) =~= seq![front[i as int]] + front.skip(i + 1));
                assert(self@.pending =~= front.skip(i as int) + first.pending);
            }
        }
        assert(front.skip(0) =~= front);
        assert forall|k: int| 0 <= k < self@.pending.len() implies (#[trigger] self@.pending[k]).depth
            <= ADAPTIVE_TRUNCATION_MAX_DEPTH by {
            if k >= front.len() {
                assert(self@.pending[k] == first.pending[k - front.len()]);
            }
        }
    }

    /// Takes the part that was translated node by node.
    pub fn on_recovered(&mut self, text: &str)
        requires
            old(self)@.bounded(),
            old(self)@.sent is Some,
        ensures
            final(self)@.bounded(),
            final(self)@ == old(self)@.received(text@),
    {
        self.translated.append(text);
        self.sent = None;
    }

    /// The translated block.
    pub fn finish(self) -> (r: String)
        ensures
            r@ == self@.translated,
    {
        self.translated
    }
}

// ---------------------------------------------------------------------------
// Blocks that were translated before
// ---------------------------------------------------------------------------
/// The number under which a block is remembered.
pub open spec fn block_key(block: Seq<char>) -> u64 {
    DefaultHasher::spec_finish(seq![vstd::utf8::encode_utf8(block)])
}

/// Translations of blocks, by a hash of the block.
pub struct BlockCache {
    known: HashMap<u64, String>,
}

impl View for BlockCache {
    type V = Map<u64, Seq<char>>;

    closed spec fn view(&self) -> Map<u64, Seq<char>> {
        self.known@.map_values(|t: String| t@)
    }
}

impl BlockCache {
    /// Nothing is known.
    pub fn new() -> (r: BlockCache)
        ensures
            r@ == Map::<u64, Seq<char>>::empty(),
    {
        let cache = BlockCache { known: HashMap::new() };
        assert(cache@ =~= Map::<u64, Seq<char>>::empty());
        cache
    }

    fn key(block: &str) -> (r: u64)
        ensures
            r == block_key(block@),
    {
        let mut hasher = DefaultHasher::new();
        hasher.write(block.as_bytes());
        assert(hasher@ =~= seq![vstd::utf8::encode_utf8(block@)]);
        hasher.finish()
    }

    /// The translation that is remembered for a block.
    pub fn lookup(&self, block: &str) -> (r: Option<String>)
        ensures
            match r {
                Some(text) => self@.contains_key(block_key(block@)) && text@ == self@[block_key(
                    block@,
                )],
                None => !self@.contains_key(block_key(block@)),
            },
    {
        let key = BlockCache::key(block);
        match self.known.get(&key) {
            Some(text) => Some(text.clone()),
            None => None,
        }
    }

    /// Remembers the translation of a block.
    pub fn store(&mut self, block: &str, translated: String)
        ensures
            final(self)@ == old(self)@.insert(block_key(block@), translated@),
    {
        let key = BlockCache::key(block);
        let ghost t = translated@;
        self.known.insert(key, translated);
        assert(self@ =~= old(self)@.insert(key, t));
    }
}

/// A block that was remembered is found again.
pub proof fn law_a_remembered_block_is_found(
    known: Map<u64, Seq<char>>,
    block: Seq<char>,
    translated: Seq<char>,
)
    ensures
        known.insert(block_key(block), translated).contains_key(block_key(block)),
        known.insert(block_key(block), translated)[block_key(block)] == translated,
{
}

// ---------------------------------------------------------------------------
// What is promised of blocks and their answers
// ---------------------------------------------------------------------------
/// The larger of two numbers is one of them, and neither is larger.
pub proof fn law_the_larger_is_not_smaller(a: int, b: int)
    ensures
        larger(a, b) >= a,
        larger(a, b) >= b,
        larger(a, b) == a || larger(a, b) == b,
{
}

/// Blocks have the configured sizes, but for a page without Han characters never
/// less than 3 000, 5 000 and 8 000 characters; on a page with any, a quarter of
/// the configured sizes, but never less than 400, 800 and 2 000.
pub proof fn law_blocks_have_the_configured_sizes(
    options: &TranslationChunkOptions,
    html: Seq<char>,
)
    ensures
        ({
            let (min, target, max) = block_sizes(options, html);
            let (a, b, c) = (
                options.full_block_min_chars as int,
                options.full_block_target_chars as int,
                options.full_block_max_chars as int,
            );
            &&& crate::quality::han_count(html) == 0 ==> {
                &&& min >= 3_000 && target >= 5_000 && max >= 8_000
                &&& a >= 3_000 ==> min == a
                &&& b >= 5_000 ==> target == b
                &&& c >= 8_000 ==> max == c
                &&& a < 3_000 ==> min == 3_000
                &&& b < 5_000 ==> target == 5_000
                &&& c < 8_000 ==> max == 8_000
            }
            &&& crate::quality::han_count(html) >= 1 ==> {
                &&& min >= 400 && target >= 800 && max >= 2_000
                &&& a >= 1_600 ==> 4 * min <= a < 4 * min + 4
                &&& b >= 3_200 ==> 4 * target <= b < 4 * target + 4
                &&& c >= 8_000 ==> 4 * max <= c < 4 * max + 4
                &&& a < 1_600 ==> min == 400
                &&& b < 3_200 ==> target == 800
                &&& c < 8_000 ==> max == 2_000
            }
        }),
{
}

/// A page is cut at the first tags that allow it, for blocks of the sizes that
/// are configured.
pub proof fn law_pages_are_cut_by_the_configured_sizes(
    options: &TranslationChunkOptions,
    html: Seq<char>,
    i: int,
)
    requires
        0 <= i < page_blocks(options, html).len(),
    ensures
        ({
            let (min, target, max) = block_sizes(options, html);
            let sizes = (min as nat, target as nat, max as nat);
            let list = crate::html::tokenized(html);
            let blocks = page_blocks(options, html);
            exists|from: int, to: int| #[trigger]
                crate::html::fair_cut(list, blocks, i, from, to, sizes)
        }),
        page_blocks(options, html)[i].len() > 0,
{
    let (min, target, max) = block_sizes(options, html);
    crate::html::law_blocks_end_at_the_first_tag_that_allows_it(
        crate::html::tokenized(html),
        min as nat,
        target as nat,
        max as nat,
        i,
    );
    crate::html::law_blocks_are_not_empty(html, min as nat, target as nat, max as nat);
}

/// A block that comes back stands, with exactly what came back for it, in its
/// own place and in that of every block that is the same; every other place
/// keeps what stood there. A block that failed stands there as it was.
pub proof fn law_a_block_stands_in_its_own_places(
    s: BlockRunState,
    index: usize,
    text: Seq<char>,
    error: Seq<char>,
    k: int,
)
    requires
        s.orderly(),
        s.in_flight.contains(index),
        0 <= k < s.originals.len(),
    ensures
        s.originals[k] == s.originals[index as int] ==> {
            &&& s.returned(index, Ok(text)).results[k] == Some(text)
            &&& !s.returned(index, Ok(text)).kept[k]
            &&& s.returned(index, Err(error)).results[k] == Some(s.originals[k])
            &&& s.returned(index, Err(error)).kept[k]
        },
        s.originals[k] != s.originals[index as int] ==> {
            &&& s.returned(index, Ok(text)).results[k] == s.results[k]
            &&& s.returned(index, Ok(text)).kept[k] == s.kept[k]
            &&& s.returned(index, Err(error)).results[k] == s.results[k]
            &&& s.returned(index, Err(error)).kept[k] == s.kept[k]
        },
        s.returned(index, Ok(text)).originals == s.originals,
        s.returned(index, Err(error)).originals == s.originals,
        s.returned(index, Ok(text)).next == s.next,
        s.returned(index, Err(error)).next == s.next,
        forall|j: usize|
            (#[trigger] s.returned(index, Ok(text)).in_flight.contains(j) <==> s.in_flight.contains(
                j,
            ) && j != index) && (#[trigger] s.returned(index, Err(error)).in_flight.contains(j)
                <==> s.in_flight.contains(j) && j != index),
{
    assert(s.sent.contains(index));
}

/// A block is sent by its place: the one that comes next, and it is under way
/// from then on. Three blocks are under way at most, and one is sent whenever
/// fewer are.
pub proof fn law_blocks_are_sent_one_after_another(s: BlockRunState)
    requires
        s.orderly(),
    ensures
        s.may_send() <==> s.next < s.originals.len() && s.in_flight.len() < 3,
        s.complete() <==> s.next == s.originals.len() && s.in_flight.len() == 0,
        s.sending().next == s.next + 1,
        s.sending().results == s.results,
        s.sending().kept == s.kept,
        s.sending().originals == s.originals,
        s.may_send() ==> s.sending().in_flight == s.in_flight.insert(s.next as usize),
{
}

/// A block is passed over only where another one like it stands in front of it
/// or where its translation is remembered, which then stands in its place; and
/// no block is sent whose translation is remembered.
pub proof fn law_remembered_blocks_are_not_sent(
    s: BlockRunState,
    known: Map<u64, Seq<char>>,
    i: int,
)
    requires
        s.orderly(),
        s.next <= i < s.looked_up(known).next,
    ensures
        (exists|j: int| 0 <= j < i && #[trigger] s.originals[j] == s.originals[i]) || {
            &&& known.contains_key(block_key(s.originals[i]))
            &&& s.looked_up(known).results[i] == Some(known[block_key(s.originals[i])])
            &&& !s.looked_up(known).kept[i]
        },
        s.looked_up(known).next < s.originals.len() ==> !known.contains_key(
            block_key(s.originals[s.looked_up(known).next as int]),
        ),
    decreases s.originals.len() - s.next,
{
    if s.next < s.originals.len() {
        let n = s.next as int;
        if repeated(s.originals, n) {
            let t = BlockRunState { next: s.next + 1, ..s };
            lemma_lookup_stops(t, known);
            if i > n {
                law_remembered_blocks_are_not_sent(t, known, i);
            }
        } else {
            let key = block_key(s.originals[n]);
            if known.contains_key(key) {
                let t = BlockRunState { next: s.next + 1, ..s.answered(n, known[key], false) };
                lemma_answering_keeps_order(s, known[key]);
                lemma_lookup_stops(t, known);
                if i > n {
                    law_remembered_blocks_are_not_sent(t, known, i);
                } else {
                    lemma_lookup_keeps(t, known, n);
                }
            }
        }
    }
}

/// Passing over blocks stops at one that is not remembered.
proof fn lemma_lookup_stops(s: BlockRunState, known: Map<u64, Seq<char>>)
    ensures
        s.looked_up(known).originals == s.originals,
        s.looked_up(known).next < s.originals.len() ==> !known.contains_key(
            block_key(s.originals[s.looked_up(known).next as int]),
        ),
    decreases s.originals.len() - s.next,
{
    if s.next < s.originals.len() {
        if repeated(s.originals, s.next as int) {
            lemma_lookup_stops(BlockRunState { next: s.next + 1, ..s }, known);
        } else {
            let key = block_key(s.originals[s.next as int]);
            if known.contains_key(key) {
                lemma_lookup_stops(
                    BlockRunState {
                        next: s.next + 1,
                        ..s.answered(s.next as int, known[key], false)
                    },
                    known,
                );
            }
        }
    }
}

/// What stands for a block that was looked at stays.
proof fn lemma_lookup_keeps(s: BlockRunState, known: Map<u64, Seq<char>>, i: int)
    requires
        s.orderly(),
        0 <= i < s.next,
    ensures
        s.looked_up(known).results[i] == s.results[i],
        s.looked_up(known).kept[i] == s.kept[i],
    decreases s.originals.len() - s.next,
{
    if s.next < s.originals.len() {
        let n = s.next as int;
        if repeated(s.originals, n) {
            lemma_lookup_keeps(BlockRunState { next: s.next + 1, ..s }, known, i);
        } else {
            let key = block_key(s.originals[n]);
            if known.contains_key(key) {
                let t = BlockRunState { next: s.next + 1, ..s.answered(n, known[key], false) };
                lemma_answering_keeps_order(s, known[key]);
                if s.originals[i] == s.originals[n] {
                    assert(repeated(s.originals, n));
                }
                lemma_lookup_keeps(t, known, i);
            }
        }
    }
}

/// A page is what came back for its blocks, one after another.
pub proof fn law_the_page_is_made_of_the_answers(s: BlockRunState, answers: Seq<Seq<char>>)
    requires
        s.results.len() == answers.len(),
        forall|i: int| 0 <= i < answers.len() ==> #[trigger] s.results[i] == Some(answers[i]),
    ensures
        crate::text::joined(s.texts()) == crate::text::joined(answers),
{
    assert(s.texts() =~= answers);
}

/// Blocks that were kept are counted one by one.
pub proof fn law_kept_blocks_are_counted_one_by_one(list: Seq<bool>, kept: bool)
    ensures
        count_true(list.push(kept)) == count_true(list) + if kept {
            1nat
        } else {
            0nat
        },
        count_true(Seq::empty()) == 0,
{
    assert(list.push(kept).drop_last() =~= list);
}

/// A block is remembered by a hash of its bytes, all of them and nothing else.
pub proof fn law_blocks_are_remembered_by_their_bytes(block: Seq<char>)
    ensures
        block_key(block) == DefaultHasher::spec_finish(seq![vstd::utf8::encode_utf8(block)]),
{
}

/// A block that is shorter than a thousand characters is not cut, and neither is
/// one that was cut three times; a longer one is cut into parts that are near a
/// half, a third, a quarter of it, within a thousand and ten thousand characters,
/// each behind the first tag that allows it.
pub proof fn law_blocks_are_cut_into_ever_smaller_parts(block: Seq<char>, depth: int)
    requires
        0 <= depth,
    ensures
        block.len() < 1_000 ==> smaller_blocks(block, depth).len() == 0,
        block.len() >= 1_000 ==> smaller_blocks(block, depth).len() > 0 && crate::text::joined(
            smaller_blocks(block, depth),
        ) == block,
        1_000 <= split_target(block.len() as int, depth) <= 10_000,
        1_000 <= block.len() / (depth + 2) as nat <= 10_000 ==> split_target(
            block.len() as int,
            depth,
        ) == block.len() as int / (depth + 2),
        block.len() as int / (depth + 2) < 1_000 ==> split_target(block.len() as int, depth)
            == 1_000,
        block.len() as int / (depth + 2) > 10_000 ==> split_target(block.len() as int, depth)
            == 10_000,
        forall|i: int|
            0 <= i < smaller_blocks(block, depth).len() ==> #[trigger] cut_near(block, depth, i),
{
    let t = split_target(block.len() as int, depth);
    let low = crate::text::clamped(t / 2, ADAPTIVE_TRUNCATION_MIN_CHARS as int, t) as nat;
    let high = crate::text::clamped(t * 2, t, RECOVERY_BLOCK_MAX_CHARS as int) as nat;
    assert(part_sizes(block.len() as int, depth) == (low, t as nat, high));
    if block.len() >= 1_000 {
        crate::html::law_blocks_cover_the_page(
            crate::html::tokenized(block),
            low,
            t as nat,
            high,
        );
        crate::html::law_tokens_cover_the_page(block);
        if smaller_blocks(block, depth).len() == 0 {
            assert(crate::text::joined(smaller_blocks(block, depth)).len() == 0);
        }
        assert forall|i: int| 0 <= i < smaller_blocks(block, depth).len() implies
            #[trigger] cut_near(block, depth, i) by {
            crate::html::law_blocks_end_at_the_first_tag_that_allows_it(
                crate::html::tokenized(block),
                low,
                t as nat,
                high,
                i,
            );
        }
    }
}

/// The sizes for which a block is cut: a part ends behind a closing tag once the
/// wanted size counts, and behind any once twice as much does, but at least a
/// thousand characters and never more than fourteen thousand.
pub open spec fn part_sizes(len: int, depth: int) -> (nat, nat, nat) {
    let t = split_target(len, depth);
    (
        if t < 2_000 {
            1_000
        } else {
            (t / 2) as nat
        },
        t as nat,
        if t > 7_000 {
            14_000
        } else {
            (2 * t) as nat
        },
    )
}

/// A part of a block is cut behind the first tag that allows it.
pub open spec fn cut_near(block: Seq<char>, depth: int, i: int) -> bool {
    exists|from: int, to: int| #[trigger]
        crate::html::fair_cut(
            crate::html::tokenized(block),
            smaller_blocks(block, depth),
            i,
            from,
            to,
            part_sizes(block.len() as int, depth),
        )
}

/// Whatever comes back for a part of a block, however often the part was cut out
/// of a larger one, follows exactly as it came what was translated before; and
/// what is still to send stays.
pub proof fn law_an_answer_follows_what_was_translated(s: AdaptiveState, text: Seq<char>)
    requires
        s.sent is Some,
    ensures
        s.received(text).translated == s.translated + text,
        s.received(text).pending == s.pending,
        s.received(text).sent is None,
{
}

/// Parts are sent in order, and only blank ones are not: those stay as they are,
/// in their places.
pub proof fn law_only_blank_parts_are_not_sent(s: AdaptiveState) -> (k: int)
    requires
        s.sent is None,
    ensures
        0 <= k <= s.pending.len(),
        forall|i: int|
            0 <= i < k ==> crate::text::trimmed((#[trigger] s.pending[i]).text).len() == 0,
        s.sending().translated == s.translated + crate::text::joined(
            part_texts(s.pending.take(k)),
        ),
        k < s.pending.len() ==> {
            &&& s.sending().sent == Some(s.pending[k])
            &&& crate::text::trimmed(s.pending[k].text).len() > 0
            &&& s.sending().pending == s.pending.skip(k + 1)
        },
        k == s.pending.len() ==> s.sending().sent is None && s.sending().pending.len() == 0,
    decreases s.pending.len(),
{
    assert(part_texts(s.pending.take(0)) =~= Seq::<Seq<char>>::empty());
    assert(crate::text::joined(Seq::<Seq<char>>::empty()) =~= Seq::<char>::empty());
    if s.pending.len() == 0 {
        assert(s.translated + crate::text::joined(part_texts(s.pending.take(0))) =~= s.translated);
        0
    } else {
        let first = s.pending[0];
        crate::text::lemma_trimmed_empty(first.text);
        if crate::text::is_blank(first.text) {
            let t = AdaptiveState {
                pending: s.pending.drop_first(),
                translated: s.translated + first.text,
                ..s
            };
            let k = law_only_blank_parts_are_not_sent(t);
            let rest = part_texts(t.pending.take(k));
            assert forall|i: int| 0 <= i < k + 1 implies crate::text::trimmed(
                (#[trigger] s.pending[i]).text,
            ).len() == 0 by {
                if i > 0 {
                    assert(s.pending[i] == t.pending[i - 1]);
                }
            }
            assert(part_texts(s.pending.take(k + 1)) =~= seq![first.text] + rest);
            crate::text::lemma_joined_cons(first.text, rest);
            assert(s.translated + first.text + crate::text::joined(rest) =~= s.translated + (
            first.text + crate::text::joined(rest)));
            if k < t.pending.len() {
                assert(t.pending[k] == s.pending[k + 1]);
                assert(t.pending.skip(k + 1) =~= s.pending.skip(k + 2));
            }
            k + 1
        } else {
            assert(s.translated + crate::text::joined(part_texts(s.pending.take(0)))
                =~= s.translated);
            assert(s.pending.skip(1) =~= s.pending.drop_first());
            0
        }
    }
}

/// A part that is cut is replaced by at least two smaller ones that make it up,
/// in order and in front of what is still to send; what was translated stays.
pub proof fn law_cut_parts_come_first(s: AdaptiveState)
    requires
        s.sent is Some,
        s.can_cut(),
    ensures
        ({
            let t = s.cut();
            let n = t.pending.len() - s.pending.len();
            &&& n >= 2
            &&& t.pending.skip(n) == s.pending
            &&& crate::text::joined(part_texts(t.pending.take(n))) == (s.sent->0).text
            &&& forall|i: int|
                0 <= i < n ==> (#[trigger] t.pending[i]).depth == (s.sent->0).depth + 1
                    && 0 < t.pending[i].text.len() < (s.sent->0).text.len()
            &&& t.translated == s.translated
            &&& t.sent is None
        }),
        (s.sent->0).depth < 3,
        (s.sent->0).text.len() >= 1_000,
{
    let block = s.sent->0;
    law_smaller_blocks_cover_the_block(block.text, block.depth as int);
    lemma_smaller_blocks_are_not_empty(block.text, block.depth as int);
    lemma_parts_in_front(
        smaller_blocks(block.text, block.depth as int),
        block.depth + 1,
        s.pending,
    );
}

/// Parts of one depth in front of others.
proof fn lemma_parts_in_front(list: Seq<Seq<char>>, depth: nat, rest: Seq<Part>)
    requires
        list.len() >= 2,
        forall|i: int| 0 <= i < list.len() ==> (#[trigger] list[i]).len() > 0,
    ensures
        ({
            let all = at_depth(list, depth) + rest;
            let n = all.len() - rest.len();
            &&& n == list.len()
            &&& all.skip(n) == rest
            &&& part_texts(all.take(n)) == list
            &&& forall|i: int|
                0 <= i < n ==> (#[trigger] all[i]).depth == depth && 0 < all[i].text.len()
                    < crate::text::joined(list).len()
        }),
{
    let all = at_depth(list, depth) + rest;
    let n = all.len() - rest.len();
    assert(all.skip(n) =~= rest);
    assert(part_texts(all.take(n)) =~= list);
    assert forall|i: int| 0 <= i < n implies (#[trigger] all[i]).depth == depth && 0
        < all[i].text.len() < crate::text::joined(list).len() by {
        assert(all[i].text == list[i]);
        let other = if i == 0 {
            1
        } else {
            0
        };
        assert(list[other].len() > 0);
        lemma_two_parts_are_shorter(list, i, other);
    }
}

/// One of two parts that are not empty is shorter than both.
proof fn lemma_two_parts_are_shorter(list: Seq<Seq<char>>, i: int, j: int)
    requires
        0 <= i < list.len(),
        0 <= j < list.len(),
        i != j,
        list[j].len() > 0,
    ensures
        list[i].len() < crate::text::joined(list).len(),
{
    let (a, b) = if i < j {
        (i, j)
    } else {
        (j, i)
    };
    let (x, y, z) = (list.take(a), list.subrange(a + 1, b), list.skip(b + 1));
    assert(list =~= x + seq![list[a]] + (y + seq![list[b]] + z));
    crate::text::law_joining_adds_nothing(x, list[a], y + seq![list[b]] + z);
    crate::text::law_joining_adds_nothing(y, list[b], z);
}

/// A part can be cut exactly where it was cut fewer than three times and there
/// is more than one smaller part of it.
pub proof fn law_parts_are_cut_three_times_at_most(s: AdaptiveState)
    requires
        s.sent is Some,
    ensures
        (s.sent->0).depth >= 3 ==> !s.can_cut(),
        (s.sent->0).text.len() < 1_000 ==> !s.can_cut(),
        (s.sent->0).depth <= 2 && smaller_blocks(
            (s.sent->0).text,
            (s.sent->0).depth as int,
        ).len() >= 2 ==> s.can_cut(),
{
}

impl AdaptiveState {
    /// Parts are sent one after another, and each comes back with an answer.
    pub open spec fn answered_by(self, answers: Seq<Seq<char>>) -> AdaptiveState
        decreases answers.len(),
    {
        if answers.len() == 0 {
            self.sending()
        } else {
            self.sending().received(answers[0]).answered_by(answers.drop_first())
        }
    }
}

/// Parts of which none is blank come back as their answers, one after another,
/// whatever these are and however often the parts were cut.
pub proof fn law_parts_are_replaced_by_their_answers(s: AdaptiveState, answers: Seq<Seq<char>>)
    requires
        s.sent is None,
        s.pending.len() == answers.len(),
        forall|i: int|
            0 <= i < s.pending.len() ==> crate::text::trimmed((#[trigger] s.pending[i]).text).len()
                > 0,
    ensures
        s.answered_by(answers).translated == s.translated + crate::text::joined(answers),
        s.answered_by(answers).pending.len() == 0,
        s.answered_by(answers).sent is None,
    decreases answers.len(),
{
    let k = law_only_blank_parts_are_not_sent(s);
    if answers.len() == 0 {
        assert(crate::text::joined(answers) =~= Seq::<char>::empty());
        assert(part_texts(s.pending.take(k)) =~= Seq::<Seq<char>>::empty());
    } else {
        assert(crate::text::trimmed(s.pending[0].text).len() > 0);
        assert(k == 0);
        assert(part_texts(s.pending.take(0)) =~= Seq::<Seq<char>>::empty());
        assert(crate::text::joined(Seq::<Seq<char>>::empty()) =~= Seq::<char>::empty());
        let t = s.sending().received(answers[0]);
        let rest = answers.drop_first();
        law_an_answer_follows_what_was_translated(s.sending(), answers[0]);
        assert forall|i: int| 0 <= i < t.pending.len() implies crate::text::trimmed(
            (#[trigger] t.pending[i]).text,
        ).len() > 0 by {
            assert(t.pending[i] == s.pending[i + 1]);
        }
        law_parts_are_replaced_by_their_answers(t, rest);
        assert(answers =~= seq![answers[0]] + rest);
        crate::text::lemma_joined_cons(answers[0], rest);
        assert(t.translated =~= s.translated + answers[0]);
        assert(t.translated + crate::text::joined(rest) =~= s.translated + (answers[0]
            + crate::text::joined(rest)));
    }
}

/// What came back for a block, and what stands for each, is what it holds.
pub proof fn law_outcomes_stand_for_their_characters(
    text: String,
    results: Seq<Option<String>>,
    i: int,
)
    requires
        0 <= i < results.len(),
    ensures
        result_views(results).len() == results.len(),
        results[i] == Some(text) ==> result_views(results)[i] == Some(text@),
        results[i] is None ==> result_views(results)[i] is None,
{
}

} // verus!
