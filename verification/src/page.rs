//! Translating a page text node by text node: which nodes are sent, and what is
//! written in their place.

use crate::content::{finish_text_node, plan_text_node, ChunkSizes, PlanSpec, TextNodePlan};
use crate::html::{
    count_translatable_text_chars, tokenize_html, update_skip_depth, HtmlToken, HtmlTokenKind, Piece,
};
use crate::options::{TranslationChunkOptions, CHAPTER_TOKEN_THRESHOLD};
use crate::quality::is_mostly_cjk;
use crate::text::{blank, join_all};
use vstd::prelude::*;
use vstd::string::*;

verus! {

broadcast use vstd::string::group_string_axioms;

/// How far the translation of a page has come.
pub struct PageState {
    /// The pieces of the page.
    pub list: Seq<Piece>,
    /// What has been written for each piece so far.
    pub written: Seq<Seq<char>>,
    /// Characters that count as translated.
    pub consumed: nat,
    /// The budget of characters is used up.
    pub exhausted: bool,
    /// How many characters may be translated.
    pub budget: Option<nat>,
    /// The sizes that long nodes are cut into.
    pub chunks: Option<ChunkSizes>,
    /// What the progress report says.
    pub label: Seq<char>,
    /// A node whose translation fails is kept.
    pub keep_failed: bool,
}

/// A piece that is text to translate: not markup, not inside a script or style
/// element, and not blank.
pub open spec fn translatable_at(list: Seq<Piece>, i: int) -> bool {
    &&& 0 <= i < list.len()
    &&& list[i].kind == HtmlTokenKind::Text
    &&& crate::html::depth_of(list.take(i)) == 0
    &&& !crate::text::is_blank(list[i].text)
}

impl PageState {
    /// The piece that comes next is to be translated.
    pub open spec fn awaits(self) -> bool {
        translatable_at(self.list, self.written.len() as int) && !self.exhausted
    }

    /// Every piece has been written.
    pub open spec fn done(self) -> bool {
        self.written.len() >= self.list.len()
    }

    /// What is left of the budget.
    pub open spec fn remaining(self) -> Option<nat> {
        match self.budget {
            Some(limit) => Some(
                if limit > self.consumed {
                    (limit - self.consumed) as nat
                } else {
                    0
                },
            ),
            None => None,
        }
    }

    /// One more piece is written.
    pub open spec fn wrote(self, text: Seq<char>, consumed: nat, exhausted: bool) -> PageState {
        PageState {
            written: self.written.push(text),
            consumed: self.consumed + consumed,
            exhausted: self.exhausted || exhausted,
            ..self
        }
    }

    /// The piece that comes next is written as it is.
    pub open spec fn kept(self) -> PageState {
        self.wrote(self.list[self.written.len() as int].text, 0, false)
    }

    /// Pieces are written as they are, up to the next one to translate.
    pub open spec fn copied(self) -> PageState
        decreases self.list.len() - self.written.len(),
    {
        if self.written.len() < self.list.len() && !self.awaits() {
            self.kept().copied()
        } else {
            self
        }
    }

    /// How the piece that comes next is translated.
    pub open spec fn plan(self) -> PlanSpec {
        crate::content::node_plan(
            self.list[self.written.len() as int].text,
            self.remaining(),
            self.chunks,
            self.label,
            self.consumed,
        )
    }

    /// What holds of a page at every moment: markup, the insides of script and
    /// style elements and blank text have been written as they were, no more
    /// counts as translated than the text outside those elements and the budget
    /// allow, and the budget is used up only by more text than it covers.
    pub open spec fn sound(self) -> bool {
        &&& self.written.len() <= self.list.len()
        &&& forall|i: int|
            0 <= i < self.written.len() && !translatable_at(self.list, i)
                ==> #[trigger] self.written[i] == self.list[i].text
        &&& self.consumed <= crate::html::translatable_chars(
            self.list.take(self.written.len() as int),
        )
        &&& self.budget matches Some(limit) ==> self.consumed <= limit
        &&& self.exhausted ==> (self.budget is Some && self.budget->0
            < crate::html::translatable_chars(self.list.take(self.written.len() as int)))
    }
}

/// A budget that covers the text of a page outside script and style elements is
/// never used up, and a page without a budget never stops being translated.
pub proof fn law_a_budget_that_covers_the_page_is_never_used_up(s: PageState)
    requires
        s.sound(),
        s.budget matches Some(limit) ==> crate::html::translatable_chars(s.list) <= limit,
    ensures
        !s.exhausted,
{
    crate::html::lemma_translatable_take(s.list, s.written.len() as int);
}

/// No more counts as translated than the page holds outside script and style
/// elements.
pub proof fn law_no_more_counts_than_the_page_holds(s: PageState)
    requires
        s.sound(),
    ensures
        s.consumed <= crate::html::translatable_chars(s.list),
{
    crate::html::lemma_translatable_take(s.list, s.written.len() as int);
}

/// A page of whose text nothing was changed comes out as it went in.
pub proof fn law_unchanged_text_gives_the_page_back(s: PageState)
    requires
        s.sound(),
        s.done(),
        forall|i: int|
            0 <= i < s.written.len() && translatable_at(s.list, i) ==> #[trigger] s.written[i]
                == s.list[i].text,
    ensures
        crate::text::joined(s.written) == crate::html::source_of(s.list),
{
    assert(s.written =~= crate::html::texts(s.list));
}

/// A node whose pieces all come back unchanged is written as it was.
pub proof fn law_unchanged_pieces_write_the_node_as_it_was(s: PageState)
    requires
        s.awaits(),
    ensures
        crate::content::finished_node(s.plan(), crate::content::piece_texts(s.plan().pieces))
            == s.list[s.written.len() as int].text,
{
    crate::content::law_unchanged_pieces_give_the_node_back(
        s.list[s.written.len() as int].text,
        s.remaining(),
        s.chunks,
        s.label,
        s.consumed,
    );
}

/// Writing the next piece keeps a page sound, where no more counts as
/// translated than the piece holds and the budget allows, where what is not to
/// be translated is written as it is and counts nothing, and where only a piece
/// that is too long uses up the budget.
proof fn lemma_wrote_is_sound(s: PageState, text: Seq<char>, consumed: nat, exhausted: bool)
    requires
        s.sound(),
        s.written.len() < s.list.len(),
        consumed <= s.list[s.written.len() as int].text.len(),
        s.remaining() matches Some(left) ==> consumed <= left,
        !translatable_at(s.list, s.written.len() as int) ==> consumed == 0 && !exhausted && text
            == s.list[s.written.len() as int].text,
        exhausted ==> s.remaining() is Some && s.remaining()->0
            < s.list[s.written.len() as int].text.len(),
    ensures
        s.wrote(text, consumed, exhausted).sound(),
{
    let n = s.written.len() as int;
    let t = s.wrote(text, consumed, exhausted);
    assert(s.list.take(n + 1).drop_last() =~= s.list.take(n));
    assert(s.list.take(n + 1).last() == s.list[n]);
    assert forall|i: int| 0 <= i < t.written.len() && !translatable_at(t.list, i) implies
        #[trigger] t.written[i] == t.list[i].text by {
        if i < n {
            assert(s.written[i] == s.list[i].text);
        }
    }
}

/// Copying keeps a page sound and stops at a piece to translate or at the end.
pub proof fn law_copying_is_sound(s: PageState)
    requires
        s.sound(),
    ensures
        s.copied().sound(),
        s.copied().done() || s.copied().awaits(),
        s.copied().list == s.list,
        s.copied().consumed == s.consumed,
        s.copied().exhausted == s.exhausted,
        s.copied().budget == s.budget,
        s.copied().chunks == s.chunks,
        s.copied().label == s.label,
        s.copied().keep_failed == s.keep_failed,
        s.written.len() <= s.copied().written.len(),
        s.copied().written.take(s.written.len() as int) == s.written,
    decreases s.list.len() - s.written.len(),
{
    if s.written.len() < s.list.len() && !s.awaits() {
        lemma_wrote_is_sound(s, s.list[s.written.len() as int].text, 0, false);
        law_copying_is_sound(s.kept());
        let n = s.written.len() as int;
        assert(s.copied().written.take(n) =~= s.kept().copied().written.take(n + 1).take(n));
        assert(s.kept().written.take(n) =~= s.written);
    } else {
        assert(s.written.take(s.written.len() as int) =~= s.written);
    }
}

/// The translation of one page, node by node.
pub struct ContentRun {
    tokens: Vec<HtmlToken>,
    next: usize,
    depth: usize,
    written: Vec<String>,
    consumed: usize,
    exhausted: bool,
    budget: Option<usize>,
    chunks: Option<ChunkSizes>,
    label: String,
    keep_failed: bool,
    total: usize,
}

impl View for ContentRun {
    type V = PageState;

    closed spec fn view(&self) -> PageState {
        PageState {
            list: crate::html::pieces(self.tokens@),
            written: crate::text::views(self.written@),
            consumed: self.consumed as nat,
            exhausted: self.exhausted,
            budget: match self.budget {
                Some(n) => Some(n as nat),
                None => None,
            },
            chunks: self.chunks,
            label: self.label@,
            keep_failed: self.keep_failed,
        }
    }
}

impl ContentRun {
    /// The run is in order.
    pub closed spec fn well_formed(&self) -> bool {
        &&& self@.sound()
        &&& self.next == self.written@.len()
        &&& self.depth == crate::html::depth_of(self@.list.take(self.next as int))
        &&& crate::html::source_of(self@.list).len() <= usize::MAX
        &&& self.total == crate::html::translatable_chars(self@.list)
    }

    /// Begins with a page.
    pub fn new(
        html: &str,
        budget: Option<usize>,
        chunks: Option<ChunkSizes>,
        label: String,
        keep_failed: bool,
    ) -> (r: ContentRun)
        ensures
            r.well_formed(),
            r@.sound(),
            r@ == (PageState {
                list: crate::html::tokenized(html@),
                written: Seq::empty(),
                consumed: 0,
                exhausted: false,
                budget: match budget {
                    Some(n) => Some(n as nat),
                    None => None,
                },
                chunks,
                label: label@,
                keep_failed,
            }),
    {
        let tokens = tokenize_html(html);
        let total = count_translatable_text_chars(tokens.as_slice());
        let run = ContentRun {
            tokens,
            next: 0,
            depth: 0,
            written: Vec::new(),
            consumed: 0,
            exhausted: false,
            budget,
            chunks,
            label,
            keep_failed,
            total,
        };
        assert(run@.written =~= Seq::<Seq<char>>::empty());
        assert(run@.list.take(0) =~= Seq::<Piece>::empty());
        run
    }

    /// How many characters of text the page holds outside script and style
    /// elements.
    pub fn total_text_chars(&self) -> (r: usize)
        requires
            self.well_formed(),
        ensures
            r == crate::html::translatable_chars(self@.list),
    {
        self.total
    }

    /// How many characters count as translated.
    pub fn consumed_chars(&self) -> (r: usize)
        ensures
            r == self@.consumed,
    {
        self.consumed
    }

    /// Writes what stays as it is, up to the next node to translate, and says
    /// how that one is translated.
    pub fn next_node(&mut self) -> (r: Option<TextNodePlan>)
        requires
            old(self).well_formed(),
        ensures
            final(self).well_formed(),
            final(self)@.sound(),
            final(self)@ == old(self)@.copied(),
            match r {
                Some(plan) => final(self)@.awaits() && plan@ == final(self)@.plan(),
                None => final(self)@.done(),
            },
    {
        while self.next < self.tokens.len()
            invariant
                self.well_formed(),
                self@.copied() == old(self)@.copied(),
            ensures
                self.well_formed(),
                self@.copied() == old(self)@.copied(),
                self@.done(),
            decreases self.tokens.len() - self.next,
        {
            let ghost before = self@;
            let ghost list = self@.list;
            let ghost n = self.next as int;
            assert(self.tokens[n]@ == list[n]);
            proof {
                assert(list.take(n + 1).drop_last() =~= list.take(n));
                assert(list.take(n + 1).last() == list[n]);
                crate::html::lemma_depth_bound(list.take(n + 1));
            }
            match self.tokens[self.next].kind {
                HtmlTokenKind::Tag => {
                    let mut depth = self.depth;
                    update_skip_depth(self.tokens[self.next].value.as_str(), &mut depth);
                    self.depth = depth;
                },
                HtmlTokenKind::Text => {
                    if self.depth == 0 && !self.exhausted && !blank(
                        self.tokens[self.next].value.as_str(),
                    ) {
                        return Some(self.current_plan());
                    }
                },
            }
            assert(!before.awaits());
            let text = self.tokens[self.next].value.clone();
            let ghost written = self.written@;
            self.written.push(text);
            self.next += 1;
            proof {
                assert(crate::text::views(self.written@) =~= crate::text::views(written).push(
                    list[n].text,
                ));
                lemma_wrote_is_sound(before, list[n].text, 0, false);
                assert(self@ == before.kept());
            }
        }
        None
    }

    fn current_plan(&self) -> (r: TextNodePlan)
        requires
            self.well_formed(),
            self@.awaits(),
        ensures
            r@ == self@.plan(),
    {
        let remaining = match self.budget {
            Some(limit) => Some(limit.saturating_sub(self.consumed)),
            None => None,
        };
        let chunks = match &self.chunks {
            Some(sizes) => Some(ChunkSizes { min: sizes.min, target: sizes.target, max: sizes.max }),
            None => None,
        };
        proof {
            let list = self@.list;
            let n = self.next as int;
            assert(self.tokens[n]@ == list[n]);
            crate::html::lemma_source_push(list.take(n), list[n]);
            assert(list.take(n + 1) =~= list.take(n).push(list[n]));
            crate::html::lemma_source_take(list, n + 1);
            crate::html::lemma_translatable_bound(list.take(n));
        }
        plan_text_node(
            self.tokens[self.next].value.as_str(),
            remaining,
            chunks,
            self.label.as_str(),
            self.consumed,
        )
    }

    /// Writes the node that was sent, with what came back for its pieces.
    pub fn accept(&mut self, plan: &TextNodePlan, translated: &Vec<String>)
        requires
            old(self).well_formed(),
            old(self)@.awaits(),
            plan@ == old(self)@.plan(),
        ensures
            final(self).well_formed(),
            final(self)@.sound(),
            final(self)@ == old(self)@.wrote(
                crate::content::finished_node(plan@, crate::text::views(translated@)),
                plan.consumed as nat,
                plan.exhausted,
            ),
    {
        let text = finish_text_node(plan, translated);
        let ghost before = self@;
        let ghost n = self.next as int;
        proof {
            before.lemma_plan_is_within();
            lemma_wrote_is_sound(before, text@, plan.consumed as nat, plan.exhausted);
            self.lemma_room(plan.consumed as nat);
        }
        self.write(text, plan.consumed, plan.exhausted);
    }

    /// Decides what becomes of a node whose translation failed: it is kept, or
    /// the page fails with the error.
    pub fn on_failure(&mut self, error: String) -> (r: Result<(), String>)
        requires
            old(self).well_formed(),
            old(self)@.awaits(),
        ensures
            final(self).well_formed(),
            final(self)@.sound(),
            old(self)@.keep_failed ==> r is Ok && final(self)@ == old(self)@.kept(),
            !old(self)@.keep_failed ==> r == Err::<(), String>(error) && final(self)@ == old(self)@,
    {
        if !self.keep_failed {
            return Err(error);
        }
        let ghost before = self@;
        let ghost n = self.next as int;
        assert(self.tokens[n]@ == before.list[n]);
        let text = self.tokens[self.next].value.clone();
        proof {
            lemma_wrote_is_sound(before, text@, 0, false);
            self.lemma_room(0);
        }
        self.write(text, 0, false);
        Ok(())
    }

    /// What counts as translated fits, since the page does.
    proof fn lemma_room(&self, consumed: nat)
        requires
            self.well_formed(),
            self@.awaits(),
            consumed <= self@.list[self.next as int].text.len(),
        ensures
            self.consumed + consumed <= usize::MAX,
    {
        let list = self@.list;
        let n = self.next as int;
        crate::html::lemma_source_push(list.take(n), list[n]);
        assert(list.take(n + 1) =~= list.take(n).push(list[n]));
        crate::html::lemma_source_take(list, n + 1);
        crate::html::lemma_translatable_bound(list.take(n));
    }

    fn write(&mut self, text: String, consumed: usize, exhausted: bool)
        requires
            old(self).well_formed(),
            old(self)@.awaits(),
            old(self)@.wrote(text@, consumed as nat, exhausted).sound(),
            old(self)@.consumed + consumed <= usize::MAX,
        ensures
            final(self).well_formed(),
            final(self)@.sound(),
            final(self)@ == old(self)@.wrote(text@, consumed as nat, exhausted),
    {
        let ghost before = self@;
        let ghost n = self.next as int;
        let ghost list = before.list;
        let ghost written = self.written@;
        let ghost t = text@;
        proof {
            assert(self.tokens[n]@ == list[n]);
            assert(list.take(n + 1).drop_last() =~= list.take(n));
            assert(list.take(n + 1).last() == list[n]);
            assert(n < self.tokens.len());
        }
        self.written.push(text);
        self.next += 1;
        self.consumed += consumed;
        self.exhausted = self.exhausted || exhausted;
        proof {
            assert(crate::text::views(self.written@) =~= crate::text::views(written).push(t));
            assert(self@ == before.wrote(t, consumed as nat, exhausted));
        }
    }

    /// The translated page, and how many of its characters were translated.
    pub fn finish(&self) -> (r: (String, usize))
        ensures
            r.0@ == crate::text::joined(self@.written),
            r.1 == self@.consumed,
    {
        (join_all(&self.written), self.consumed)
    }
}

impl PageState {
    /// A plan counts no more as translated than the node holds and the budget
    /// allows, and uses up the budget only where the node holds more.
    proof fn lemma_plan_is_within(self)
        requires
            self.written.len() < self.list.len(),
        ensures
            self.plan().consumed <= self.list[self.written.len() as int].text.len(),
            self.remaining() matches Some(left) ==> self.plan().consumed <= left,
            self.plan().exhausted ==> self.remaining() is Some && self.remaining()->0
                < self.list[self.written.len() as int].text.len(),
    {
        crate::content::lemma_trim_pieces(self.list[self.written.len() as int].text);
    }
}

// ---------------------------------------------------------------------------
// How a page is translated
// ---------------------------------------------------------------------------
/// How a page is translated: in blocks of markup and text, or node by node.
pub enum ContentMode {
    Blocks,
    TextNodes(ContentRun),
}

/// Pages are translated in blocks where nothing is reported on the way, no
/// budget is set and node by node is not asked for.
pub open spec fn in_blocks(options: &TranslationChunkOptions, budget: Option<usize>) -> bool {
    !options.enable_streaming && budget is None && !options.force_text_node_mode
}

/// Nodes are cut into chunks on pages that hold more text than a threshold,
/// which is lower for pages with Han characters.
pub open spec fn cuts_nodes(options: &TranslationChunkOptions, html: Seq<char>) -> bool {
    options.enable_chunking && crate::html::translatable_chars(crate::html::tokenized(html)) > (
    if crate::quality::han_count(html) > 0 {
        CHAPTER_TOKEN_THRESHOLD
    } else {
        options.chunk_threshold_chars
    })
}

/// The sizes of the chunks that the options ask for.
pub open spec fn chunk_sizes(options: &TranslationChunkOptions) -> ChunkSizes {
    ChunkSizes {
        min: options.chunk_min_chars,
        target: options.chunk_target_chars,
        max: options.max_chunk_chars,
    }
}

/// What the progress report says of a page.
pub open spec fn page_label(file_name: Option<Seq<char>>) -> Seq<char> {
    match file_name {
        Some(name) => "Traduciendo "@ + name,
        None => "Traduciendo"@,
    }
}

/// Decides how a page is translated. A node that fails is kept where the whole
/// book is translated, and fails the page where a part of it is.
pub fn plan_content(
    html: &str,
    budget: Option<usize>,
    options: &TranslationChunkOptions,
    file_name: Option<&str>,
) -> (r: ContentMode)
    ensures
        match r {
            ContentMode::Blocks => in_blocks(options, budget),
            ContentMode::TextNodes(run) => !in_blocks(options, budget) && run.well_formed()
                && run@.sound() && run@ == (PageState {
                list: crate::html::tokenized(html@),
                written: Seq::empty(),
                consumed: 0,
                exhausted: false,
                budget: match budget {
                    Some(n) => Some(n as nat),
                    None => None,
                },
                chunks: if cuts_nodes(options, html@) {
                    Some(chunk_sizes(options))
                } else {
                    None
                },
                label: page_label(crate::options::opt_view(file_name)),
                keep_failed: !options.enable_streaming && budget is None,
            }),
        },
{
    if !options.enable_streaming && budget.is_none() && !options.force_text_node_mode {
        return ContentMode::Blocks;
    }
    let mut label = "Traduciendo".to_string();
    if let Some(name) = file_name {
        proof {
            reveal_strlit("Traduciendo");
            reveal_strlit(" ");
            reveal_strlit("Traduciendo ");
            assert("Traduciendo"@ + " "@ =~= "Traduciendo "@);
        }
        label.append(" ");
        label.append(name);
    }
    let keep_failed = !options.enable_streaming && budget.is_none();
    let mut run = ContentRun::new(html, budget, None, label, keep_failed);
    let threshold = if is_mostly_cjk(html) {
        CHAPTER_TOKEN_THRESHOLD
    } else {
        options.chunk_threshold_chars
    };
    if options.enable_chunking && run.total > threshold {
        run.chunks = Some(
            ChunkSizes {
                min: options.chunk_min_chars,
                target: options.chunk_target_chars,
                max: options.max_chunk_chars,
            },
        );
    }
    ContentMode::TextNodes(run)
}

/// Begins the node-by-node translation of a block that keeps being cut short.
/// A block without text to translate needs none.
pub fn plan_recovery(block_html: &str, options: &TranslationChunkOptions) -> (r: Option<ContentRun>)
    ensures
        match r {
            None => crate::html::translatable_chars(crate::html::tokenized(block_html@)) == 0,
            Some(run) => crate::html::translatable_chars(crate::html::tokenized(block_html@)) > 0
                && run.well_formed() && run@.sound() && run@ == (PageState {
                list: crate::html::tokenized(block_html@),
                written: Seq::empty(),
                consumed: 0,
                exhausted: false,
                budget: None,
                chunks: Some(chunk_sizes(options)),
                label: "Recuperando bloque truncado"@,
                keep_failed: false,
            }),
        },
{
    let sizes = ChunkSizes {
        min: options.chunk_min_chars,
        target: options.chunk_target_chars,
        max: options.max_chunk_chars,
    };
    let run = ContentRun::new(
        block_html,
        None,
        Some(sizes),
        "Recuperando bloque truncado".to_string(),
        false,
    );
    if run.total == 0 {
        None
    } else {
        Some(run)
    }
}

// ---------------------------------------------------------------------------
// What is promised of pages
// ---------------------------------------------------------------------------
/// A piece is written exactly as it comes, behind those that were written
/// before, and what counts as translated grows by what is said of it.
pub proof fn law_pieces_are_written_as_they_come(
    s: PageState,
    text: Seq<char>,
    consumed: nat,
    exhausted: bool,
)
    ensures
        s.wrote(text, consumed, exhausted).written == s.written + seq![text],
        s.wrote(text, consumed, exhausted).consumed == s.consumed + consumed,
        s.wrote(text, consumed, exhausted).exhausted <==> s.exhausted || exhausted,
        s.wrote(text, consumed, exhausted).list == s.list,
        s.wrote(text, consumed, exhausted).budget == s.budget,
        s.wrote(text, consumed, exhausted).chunks == s.chunks,
        s.wrote(text, consumed, exhausted).label == s.label,
        s.wrote(text, consumed, exhausted).keep_failed == s.keep_failed,
        s.written.len() < s.list.len() ==> s.kept().written == s.written + seq![
            s.list[s.written.len() as int].text,
        ],
        s.kept().consumed == s.consumed,
        s.kept().exhausted == s.exhausted,
{
    assert(s.written.push(text) =~= s.written + seq![text]);
    let own = s.list[s.written.len() as int].text;
    assert(s.written.push(own) =~= s.written + seq![own]);
}

/// As long as the budget lasts, every piece is translated that is text, stands
/// outside script and style elements and holds something besides white space:
/// only the others are passed over, and those are written as they are.
pub proof fn law_no_text_is_passed_over(s: PageState, i: int)
    requires
        s.sound(),
        s.written.len() <= i < s.copied().written.len(),
    ensures
        s.copied().written[i] == s.list[i].text,
        s.exhausted || s.list[i].kind == HtmlTokenKind::Tag || crate::html::depth_of(
            s.list.take(i),
        ) > 0 || crate::text::trimmed(s.list[i].text).len() == 0,
    decreases s.list.len() - s.written.len(),
{
    if s.written.len() < s.list.len() && !s.awaits() {
        let n = s.written.len() as int;
        lemma_wrote_is_sound(s, s.list[n].text, 0, false);
        law_copying_is_sound(s.kept());
        if i == n {
            crate::text::lemma_trimmed_empty(s.list[n].text);
            assert(s.copied().written.take(n + 1) == s.kept().written);
            assert(s.copied().written.take(n + 1)[n] == s.copied().written[n]);
        } else {
            law_no_text_is_passed_over(s.kept(), i);
        }
    }
}

/// Copying stops at a piece to translate: text outside script and style
/// elements that holds something besides white space, while the budget lasts.
pub proof fn law_copying_stops_at_text(s: PageState)
    requires
        s.sound(),
        s.copied().written.len() < s.list.len(),
    ensures
        ({
            let n = s.copied().written.len() as int;
            &&& s.list[n].kind == HtmlTokenKind::Text
            &&& crate::html::depth_of(s.list.take(n)) == 0
            &&& crate::text::trimmed(s.list[n].text).len() > 0
            &&& !s.exhausted
        }),
{
    law_copying_is_sound(s);
    crate::text::lemma_trimmed_empty(s.list[s.copied().written.len() as int].text);
}

/// A node that the budget covers is sent from its first character to its last,
/// and what comes back for it is written, exactly as it came, between the white
/// space that stood around it.
pub proof fn law_nodes_are_replaced_by_their_translations(
    s: PageState,
    front: Seq<char>,
    core: Seq<char>,
    back: Seq<char>,
    translated: Seq<Seq<char>>,
)
    requires
        s.awaits(),
        s.list[s.written.len() as int].text == front + core + back,
        crate::text::is_blank(front),
        crate::text::is_blank(back),
        crate::content::solid(core),
        s.budget matches Some(limit) ==> s.consumed + core.len() <= limit,
    ensures
        ({
            let plan = s.plan();
            let after = s.wrote(
                crate::content::finished_node(plan, translated),
                plan.consumed,
                plan.exhausted,
            );
            &&& crate::text::joined(crate::content::piece_texts(plan.pieces)) == core
            &&& after.written == s.written + seq![front + crate::text::joined(translated) + back]
            &&& after.consumed == s.consumed + core.len()
            &&& !after.exhausted
        }),
{
    crate::content::law_translations_stand_between_the_white_space(
        front,
        core,
        back,
        s.remaining(),
        s.chunks,
        s.label,
        s.consumed,
        translated,
    );
    law_pieces_are_written_as_they_come(
        s,
        crate::content::finished_node(s.plan(), translated),
        s.plan().consumed,
        s.plan().exhausted,
    );
}

/// A node that is longer than what is left of the budget is sent as far as the
/// budget reaches; the rest of it stays, and nothing more is translated.
pub proof fn law_the_last_node_is_translated_in_part(
    s: PageState,
    front: Seq<char>,
    core: Seq<char>,
    back: Seq<char>,
    limit: nat,
    translated: Seq<char>,
)
    requires
        s.awaits(),
        s.list[s.written.len() as int].text == front + core + back,
        crate::text::is_blank(front),
        crate::text::is_blank(back),
        crate::content::solid(core),
        s.budget == Some(limit),
        s.consumed < limit < s.consumed + core.len(),
    ensures
        ({
            let plan = s.plan();
            let n = limit - s.consumed;
            let after = s.wrote(
                crate::content::finished_node(plan, seq![translated]),
                plan.consumed,
                plan.exhausted,
            );
            &&& plan.pieces.len() == 1
            &&& plan.pieces[0].text == core.take(n)
            &&& after.written == s.written + seq![front + translated + core.skip(n) + back]
            &&& after.consumed == limit
            &&& after.exhausted
        }),
{
    crate::content::law_the_budget_is_spent_to_the_last_character(
        front,
        core,
        back,
        (limit - s.consumed) as nat,
        s.chunks,
        s.label,
        s.consumed,
        translated,
    );
    law_pieces_are_written_as_they_come(
        s,
        crate::content::finished_node(s.plan(), seq![translated]),
        s.plan().consumed,
        s.plan().exhausted,
    );
}

/// A page goes node by node where its answers are streamed, where it has a
/// budget and where that is asked for, and in blocks in every other case.
pub proof fn law_pages_go_in_blocks_unless(
    options: &TranslationChunkOptions,
    budget: Option<usize>,
)
    ensures
        options.enable_streaming ==> !in_blocks(options, budget),
        budget is Some ==> !in_blocks(options, budget),
        options.force_text_node_mode ==> !in_blocks(options, budget),
        !options.enable_streaming && budget is None && !options.force_text_node_mode ==> in_blocks(
            options,
            budget,
        ),
{
}

/// Nodes are cut where that is asked for and the page is long: longer than the
/// threshold, or than ten thousand characters where it holds Han characters.
pub proof fn law_nodes_are_cut_on_long_pages(options: &TranslationChunkOptions, html: Seq<char>)
    ensures
        ({
            let chars = crate::html::translatable_chars(crate::html::tokenized(html));
            &&& !options.enable_chunking ==> !cuts_nodes(options, html)
            &&& options.enable_chunking && crate::quality::han_count(html) == 0 ==> (cuts_nodes(
                options,
                html,
            ) <==> chars > options.chunk_threshold_chars)
            &&& options.enable_chunking && crate::quality::han_count(html) > 0 ==> (cuts_nodes(
                options,
                html,
            ) <==> chars > 10_000)
        }),
        chunk_sizes(options).min == options.chunk_min_chars,
        chunk_sizes(options).target == options.chunk_target_chars,
        chunk_sizes(options).max == options.max_chunk_chars,
{
}

/// The report names the file where there is one.
pub proof fn law_reports_name_the_file(name: Seq<char>)
    ensures
        page_label(Some(name)) == "Traduciendo "@ + name,
        page_label(None) == "Traduciendo"@,
{
}

/// A page is done when every piece was written, and not before.
pub proof fn law_pages_are_done_when_all_is_written(s: PageState)
    requires
        s.sound(),
    ensures
        s.done() <==> s.written.len() == s.list.len(),
        s.awaits() ==> !s.done(),
        s.awaits() <==> s.written.len() < s.list.len() && !s.exhausted
            && s.list[s.written.len() as int].kind == HtmlTokenKind::Text && crate::html::depth_of(
            s.list.take(s.written.len() as int),
        ) == 0 && crate::text::trimmed(s.list[s.written.len() as int].text).len() > 0,
{
    if s.written.len() < s.list.len() {
        crate::text::lemma_trimmed_empty(s.list[s.written.len() as int].text);
    }
}

} // verus!
