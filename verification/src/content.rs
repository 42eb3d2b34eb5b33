//! Translating one text node: how it is cut into the pieces that are sent, and
//! how it is put together again around them.

use crate::sentences::sentence_chunks;
use crate::text::{blank, char_count, decimal_text, from_chars, join_all, to_chars, trim_bounds};
use vstd::prelude::*;
use vstd::string::*;

verus! {

broadcast use vstd::string::group_string_axioms;

/// A piece of text that is sent on its own.
pub struct TextPiece {
    /// What is sent.
    pub text: String,
    /// It is sent; a blank piece stays as it is.
    pub sent: bool,
    /// What the progress report says meanwhile.
    pub label: String,
    /// Characters of the page that are done when it is sent.
    pub done_before: usize,
    /// Characters that are done when it has come back, where that is reported.
    pub done_after: Option<usize>,
}

/// How a text node is translated: the pieces are sent one by one and stand
/// between the prefix and the suffix; with no piece, the node stays as it is.
pub struct TextNodePlan {
    pub prefix: String,
    pub pieces: Vec<TextPiece>,
    pub suffix: String,
    /// Characters that count as translated.
    pub consumed: usize,
    /// The budget of characters is used up.
    pub exhausted: bool,
}

/// A piece, as characters and numbers.
pub struct PieceSpec {
    pub text: Seq<char>,
    pub sent: bool,
    pub label: Seq<char>,
    pub done_before: nat,
    pub done_after: Option<nat>,
}

/// A plan, as characters and numbers.
pub struct PlanSpec {
    pub prefix: Seq<char>,
    pub pieces: Seq<PieceSpec>,
    pub suffix: Seq<char>,
    pub consumed: nat,
    pub exhausted: bool,
}

impl View for TextPiece {
    type V = PieceSpec;

    open spec fn view(&self) -> PieceSpec {
        PieceSpec {
            text: self.text@,
            sent: self.sent,
            label: self.label@,
            done_before: self.done_before as nat,
            done_after: match self.done_after {
                Some(n) => Some(n as nat),
                None => None,
            },
        }
    }
}

impl View for TextNodePlan {
    type V = PlanSpec;

    open spec fn view(&self) -> PlanSpec {
        PlanSpec {
            prefix: self.prefix@,
            pieces: self.pieces@.map_values(|p: TextPiece| p@),
            suffix: self.suffix@,
            consumed: self.consumed as nat,
            exhausted: self.exhausted,
        }
    }
}

/// The white space in front of a text.
pub open spec fn leading(s: Seq<char>) -> Seq<char> {
    s.take(s.len() - crate::text::trim_start(s).len())
}

/// The white space behind a text.
pub open spec fn trailing(s: Seq<char>) -> Seq<char> {
    crate::text::trim_start(s).skip(crate::text::trimmed(s).len() as int)
}

/// The node stays as it is.
pub open spec fn keep_node(text: Seq<char>, exhausted: bool) -> PlanSpec {
    PlanSpec {
        prefix: text,
        pieces: Seq::empty(),
        suffix: Seq::empty(),
        consumed: 0,
        exhausted,
    }
}

/// The label of one of several chunks.
pub open spec fn chunk_label(label: Seq<char>, index: nat, total: nat) -> Seq<char> {
    if total > 1 {
        label + " (fragmento "@ + crate::text::decimal(index + 1) + "/"@ + crate::text::decimal(
            total,
        ) + ")"@
    } else {
        label
    }
}

/// The chunks of a text: its segments, or the text itself where there is none.
pub open spec fn chunks_of(text: Seq<char>, min: nat, target: nat, max: nat) -> Seq<Seq<char>> {
    let segments = crate::sentences::sentence_segments(text, min, target, max);
    if segments.len() == 0 {
        seq![text]
    } else {
        crate::sentences::segment_texts(text, segments)
    }
}

/// The pieces that chunks are sent as.
pub open spec fn chunk_pieces(chunks: Seq<Seq<char>>, label: Seq<char>, done_before: nat) -> Seq<
    PieceSpec,
> {
    Seq::new(
        chunks.len(),
        |i: int|
            PieceSpec {
                text: chunks[i],
                sent: !crate::text::is_blank(chunks[i]),
                label: chunk_label(label, i as nat, chunks.len()),
                done_before: done_before + crate::text::joined(chunks.take(i)).len(),
                done_after: Some(done_before + crate::text::joined(chunks.take(i + 1)).len()),
            },
    )
}

/// The sizes of the chunks that long nodes are cut into.
pub struct ChunkSizes {
    pub min: usize,
    pub target: usize,
    pub max: usize,
}

/// How a text node is translated. White space on either side is kept; where a
/// budget of characters is left, no more than that is sent, and the rest of the
/// node stays as it is.
pub open spec fn node_plan(
    text: Seq<char>,
    remaining: Option<nat>,
    chunks: Option<ChunkSizes>,
    label: Seq<char>,
    done_before: nat,
) -> PlanSpec {
    let t = crate::text::trimmed(text);
    if t.len() == 0 {
        keep_node(text, false)
    } else if remaining == Some(0nat) {
        keep_node(text, true)
    } else if remaining is Some && t.len() > remaining->0 {
        PlanSpec {
            prefix: leading(text),
            pieces: seq![
                PieceSpec {
                    text: t.take(remaining->0 as int),
                    sent: true,
                    label,
                    done_before,
                    done_after: None,
                },
            ],
            suffix: t.skip(remaining->0 as int) + trailing(text),
            consumed: remaining->0,
            exhausted: true,
        }
    } else {
        PlanSpec {
            prefix: leading(text),
            pieces: match chunks {
                Some(sizes) => chunk_pieces(
                    chunks_of(t, sizes.min as nat, sizes.target as nat, sizes.max as nat),
                    label,
                    done_before,
                ),
                None => seq![PieceSpec { text: t, sent: true, label, done_before, done_after: None }],
            },
            suffix: trailing(text),
            consumed: t.len(),
            exhausted: false,
        }
    }
}

/// The characters of each piece.
pub open spec fn piece_texts(list: Seq<PieceSpec>) -> Seq<Seq<char>> {
    list.map_values(|p: PieceSpec| p.text)
}

/// The chunks of a text, written one after another, are the text.
pub proof fn lemma_chunks_cover(text: Seq<char>, min: nat, target: nat, max: nat)
    ensures
        crate::text::joined(chunks_of(text, min, target, max)) == text,
{
    let segments = crate::sentences::sentence_segments(text, min, target, max);
    if segments.len() == 0 {
        crate::text::lemma_joined_cons(text, Seq::empty());
        assert(seq![text] + Seq::<Seq<char>>::empty() =~= seq![text]);
        assert(text + crate::text::joined(Seq::<Seq<char>>::empty()) =~= text);
    } else {
        crate::sentences::law_segments_tile_the_text(text, min, target, max);
        crate::sentences::lemma_tiles_join(text, segments, 0, text.len() as int);
        assert(text.subrange(0, text.len() as int) =~= text);
    }
}

/// Pieces that come back unchanged give the node back, with the white space
/// around it and with what the budget left out.
pub proof fn law_unchanged_pieces_give_the_node_back(
    text: Seq<char>,
    remaining: Option<nat>,
    chunks: Option<ChunkSizes>,
    label: Seq<char>,
    done_before: nat,
)
    ensures
        ({
            let plan = node_plan(text, remaining, chunks, label, done_before);
            plan.prefix + crate::text::joined(piece_texts(plan.pieces)) + plan.suffix == text
        }),
{
    let plan = node_plan(text, remaining, chunks, label, done_before);
    let t = crate::text::trimmed(text);
    lemma_trim_pieces(text);
    assert(text =~= leading(text) + t + trailing(text));
    let none = Seq::<Seq<char>>::empty();
    assert(crate::text::joined(none) =~= Seq::<char>::empty());
    if t.len() == 0 || remaining == Some(0nat) {
        assert(piece_texts(plan.pieces) =~= none);
        assert(plan.prefix + crate::text::joined(none) + plan.suffix =~= text);
    } else if remaining is Some && t.len() > remaining->0 {
        let head = t.take(remaining->0 as int);
        assert(piece_texts(plan.pieces) =~= seq![head]);
        crate::text::lemma_joined_cons(head, none);
        assert(seq![head] + none =~= seq![head]);
        assert(head + crate::text::joined(none) =~= head);
        assert(plan.prefix + head + plan.suffix =~= text);
    } else {
        match chunks {
            Some(sizes) => {
                let cs = chunks_of(t, sizes.min as nat, sizes.target as nat, sizes.max as nat);
                lemma_chunks_cover(t, sizes.min as nat, sizes.target as nat, sizes.max as nat);
                assert(piece_texts(plan.pieces) =~= cs);
            },
            None => {
                assert(piece_texts(plan.pieces) =~= seq![t]);
                crate::text::lemma_joined_cons(t, none);
                assert(seq![t] + none =~= seq![t]);
                assert(t + crate::text::joined(none) =~= t);
            },
        }
    }
}

/// A piece is sent exactly where it is not blank.
pub proof fn law_blank_pieces_are_not_sent(
    text: Seq<char>,
    remaining: Option<nat>,
    chunks: Option<ChunkSizes>,
    label: Seq<char>,
    done_before: nat,
    i: int,
)
    requires
        0 <= i < node_plan(text, remaining, chunks, label, done_before).pieces.len(),
    ensures
        ({
            let piece = node_plan(text, remaining, chunks, label, done_before).pieces[i];
            piece.sent <==> !crate::text::is_blank(piece.text)
        }),
{
    let t = crate::text::trimmed(text);
    let piece = node_plan(text, remaining, chunks, label, done_before).pieces[i];
    crate::text::lemma_trim_start_suffix(text);
    crate::text::lemma_trim_end_prefix(crate::text::trim_start(text));
    assert(t[0] == crate::text::trim_start(text)[0]);
    if remaining is Some && t.len() > remaining->0 || chunks is None {
        assert(piece.text[0] == t[0]);
    }
}

/// A plan stays within the budget, and says so when it uses it up.
pub proof fn law_plan_stays_within_the_budget(
    text: Seq<char>,
    remaining: nat,
    chunks: Option<ChunkSizes>,
    label: Seq<char>,
    done_before: nat,
)
    ensures
        ({
            let plan = node_plan(text, Some(remaining), chunks, label, done_before);
            &&& plan.consumed <= remaining
            &&& crate::text::joined(piece_texts(plan.pieces)).len() <= remaining
            &&& plan.exhausted <==> crate::text::trimmed(text).len() > remaining
        }),
{
    let plan = node_plan(text, Some(remaining), chunks, label, done_before);
    law_unchanged_pieces_give_the_node_back(text, Some(remaining), chunks, label, done_before);
    lemma_trim_pieces(text);
    let t = crate::text::trimmed(text);
    let parts = crate::text::joined(piece_texts(plan.pieces));
    assert((plan.prefix + parts + plan.suffix).len() == plan.prefix.len() + parts.len()
        + plan.suffix.len());
}

/// How the trimmed text and the white space around it make up a text.
pub proof fn lemma_trim_pieces(s: Seq<char>)
    ensures
        s == leading(s) + crate::text::trimmed(s) + trailing(s),
        crate::text::trimmed(s).len() <= s.len(),
        leading(s).len() + crate::text::trimmed(s).len() + trailing(s).len() == s.len(),
{
    crate::text::lemma_trim_start_suffix(s);
    crate::text::lemma_trim_end_prefix(crate::text::trim_start(s));
    let k = s.len() - crate::text::trim_start(s).len();
    assert(s =~= s.take(k) + s.skip(k));
    let u = crate::text::trim_start(s);
    let n = crate::text::trimmed(s).len() as int;
    assert(u =~= u.take(n) + u.skip(n));
    assert(leading(s) + crate::text::trimmed(s) + trailing(s) =~= s);
}

/// A part of a list is no longer than the list, when written out.
proof fn lemma_joined_take(parts: Seq<Seq<char>>, i: int)
    requires
        0 <= i <= parts.len(),
    ensures
        crate::text::joined(parts.take(i)).len() <= crate::text::joined(parts).len(),
{
    assert(parts =~= parts.take(i) + parts.skip(i));
    crate::text::lemma_joined_add(parts.take(i), parts.skip(i));
}

fn label_of_chunk(label: &str, index: usize, total: usize) -> (r: String)
    requires
        index < total,
    ensures
        r@ == chunk_label(label@, index as nat, total as nat),
{
    let mut out = label.to_string();
    if total > 1 {
        out.append(" (fragmento ");
        out.append(decimal_text(index as u64 + 1).as_str());
        out.append("/");
        out.append(decimal_text(total as u64).as_str());
        out.append(")");
    }
    out
}

/// Cuts a text into the pieces that its chunks are sent as.
fn plan_chunks(text: &str, sizes: &ChunkSizes, label: &str, done_before: usize) -> (r: Vec<
    TextPiece,
>)
    requires
        done_before + text@.len() <= usize::MAX,
    ensures
        r@.map_values(|p: TextPiece| p@) == chunk_pieces(
            chunks_of(text@, sizes.min as nat, sizes.target as nat, sizes.max as nat),
            label@,
            done_before as nat,
        ),
{
    let ghost wanted = chunks_of(text@, sizes.min as nat, sizes.target as nat, sizes.max as nat);
    let mut chunks = sentence_chunks(text, sizes.min, sizes.target, sizes.max);
    if chunks.len() == 0 {
        assert(crate::text::views(chunks@).len() == 0);
        chunks.push(text.to_string());
    }
    assert(crate::text::views(chunks@) =~= wanted);
    proof {
        lemma_chunks_cover(text@, sizes.min as nat, sizes.target as nat, sizes.max as nat);
    }
    let total = chunks.len();
    let mut pieces: Vec<TextPiece> = Vec::new();
    let mut done: usize = done_before;
    let mut i: usize = 0;
    let ghost goal = chunk_pieces(wanted, label@, done_before as nat);
    proof {
        assert(wanted.take(0) =~= Seq::<Seq<char>>::empty());
        assert(pieces@.map_values(|p: TextPiece| p@) =~= goal.take(0));
    }
    while i < total
        invariant
            i <= total,
            total == chunks.len(),
            wanted == crate::text::views(chunks@),
            crate::text::joined(wanted) == text@,
            done_before + text@.len() <= usize::MAX,
            done == done_before + crate::text::joined(wanted.take(i as int)).len(),
            goal == chunk_pieces(wanted, label@, done_before as nat),
            pieces@.map_values(|p: TextPiece| p@) == goal.take(i as int),
        decreases total - i,
    {
        proof {
            lemma_joined_take(wanted, i + 1);
            crate::text::lemma_joined_push(wanted.take(i as int), wanted[i as int]);
            assert(wanted.take(i + 1) =~= wanted.take(i as int).push(wanted[i as int]));
        }
        let chunk = chunks[i].clone();
        let before = done;
        let sent = !blank(chunk.as_str());
        done += char_count(chunk.as_str());
        let piece = TextPiece {
            text: chunk,
            sent,
            label: label_of_chunk(label, i, total),
            done_before: before,
            done_after: Some(done),
        };
        proof {
            assert(piece@ == goal[i as int]);
            assert(pieces@.push(piece).map_values(|p: TextPiece| p@) =~= pieces@.map_values(
                |p: TextPiece| p@,
            ).push(piece@));
            assert(goal.take(i + 1) =~= goal.take(i as int).push(goal[i as int]));
        }
        pieces.push(piece);
        i += 1;
    }
    assert(goal.take(goal.len() as int) =~= goal);
    pieces
}

/// Decides how a text node is translated.
pub fn plan_text_node(
    text: &str,
    remaining: Option<usize>,
    chunks: Option<ChunkSizes>,
    label: &str,
    done_before: usize,
) -> (r: TextNodePlan)
    requires
        done_before + text@.len() <= usize::MAX,
    ensures
        r@ == node_plan(
            text@,
            match remaining {
                Some(n) => Some(n as nat),
                None => None,
            },
            chunks,
            label@,
            done_before as nat,
        ),
{
    let chars = to_chars(text);
    let (a, b) = trim_bounds(&chars);
    let ghost s = text@;
    let ghost t = crate::text::trimmed(s);
    proof {
        crate::text::lemma_trimmed_empty(s);
        assert(t =~= s.subrange(a as int, b as int));
    }
    if a == b {
        return kept(text, false);
    }
    proof {
        crate::text::lemma_trim_start_at(s, a as int);
        assert(leading(s) =~= s.take(a as int));
        assert(trailing(s) =~= s.skip(b as int));
    }
    let count = b - a;
    if let Some(budget) = remaining {
        if budget == 0 {
            return kept(text, true);
        }
        if count > budget {
            let head = from_chars(&chars, a, a + budget);
            let prefix = from_chars(&chars, 0, a);
            let suffix = from_chars(&chars, a + budget, chars.len());
            let mut pieces: Vec<TextPiece> = Vec::new();
            pieces.push(
                TextPiece {
                    text: head,
                    sent: true,
                    label: label.to_string(),
                    done_before,
                    done_after: None,
                },
            );
            let plan = TextNodePlan { prefix, pieces, suffix, consumed: budget, exhausted: true };
            proof {
                assert(plan@.prefix =~= leading(s));
                assert(plan@.pieces[0].text =~= t.take(budget as int));
                assert(plan@.suffix =~= t.skip(budget as int) + trailing(s));
                assert(plan@.pieces =~= seq![
                    PieceSpec {
                        text: t.take(budget as int),
                        sent: true,
                        label: label@,
                        done_before: done_before as nat,
                        done_after: None,
                    },
                ]);
            }
            return plan;
        }
    }
    let prefix = from_chars(&chars, 0, a);
    let suffix = from_chars(&chars, b, chars.len());
    let body = from_chars(&chars, a, b);
    proof {
        assert(prefix@ =~= leading(s));
        assert(suffix@ =~= trailing(s));
        lemma_trim_pieces(s);
    }
    let pieces = match &chunks {
        Some(sizes) => plan_chunks(body.as_str(), sizes, label, done_before),
        None => {
            let mut one: Vec<TextPiece> = Vec::new();
            one.push(
                TextPiece {
                    text: body,
                    sent: true,
                    label: label.to_string(),
                    done_before,
                    done_after: None,
                },
            );
            assert(one@.map_values(|p: TextPiece| p@) =~= seq![
                PieceSpec {
                    text: t,
                    sent: true,
                    label: label@,
                    done_before: done_before as nat,
                    done_after: None,
                },
            ]);
            one
        },
    };
    TextNodePlan { prefix, pieces, suffix, consumed: count, exhausted: false }
}

fn kept(text: &str, exhausted: bool) -> (r: TextNodePlan)
    ensures
        r@ == keep_node(text@, exhausted),
{
    let plan = TextNodePlan {
        prefix: text.to_string(),
        pieces: Vec::new(),
        suffix: String::new(),
        consumed: 0,
        exhausted,
    };
    assert(plan@.pieces =~= Seq::<PieceSpec>::empty());
    plan
}

/// Puts a node together again around the pieces that came back.
pub fn finish_text_node(plan: &TextNodePlan, translated: &Vec<String>) -> (r: String)
    ensures
        r@ == finished_node(plan@, crate::text::views(translated@)),
{
    let mut text = plan.prefix.clone();
    text.append(join_all(translated).as_str());
    text.append(plan.suffix.as_str());
    text
}

/// A node around the pieces that came back.
pub open spec fn finished_node(plan: PlanSpec, translated: Seq<Seq<char>>) -> Seq<char> {
    plan.prefix + crate::text::joined(translated) + plan.suffix
}

// ---------------------------------------------------------------------------
// What is promised of text nodes
// ---------------------------------------------------------------------------
/// A text that begins and ends with something other than white space.
pub open spec fn solid(core: Seq<char>) -> bool {
    &&& core.len() > 0
    &&& !crate::text::is_white_space(core[0])
    &&& !crate::text::is_white_space(core.last())
}

proof fn lemma_around(front: Seq<char>, core: Seq<char>, back: Seq<char>)
    requires
        crate::text::is_blank(front),
        crate::text::is_blank(back),
        solid(core),
    ensures
        crate::text::trimmed(front + core + back) == core,
        leading(front + core + back) == front,
        trailing(front + core + back) == back,
{
    crate::text::law_trimming_takes_white_space_alone(front, core, back);
    let whole = front + core + back;
    assert(whole.take(front.len() as int) =~= front);
    assert((core + back).skip(core.len() as int) =~= back);
}

/// Where the budget allows it, or none is set, the whole text between the white
/// space of a node is sent, and what comes back for it stands between the same
/// white space, exactly as it came.
pub proof fn law_translations_stand_between_the_white_space(
    front: Seq<char>,
    core: Seq<char>,
    back: Seq<char>,
    remaining: Option<nat>,
    chunks: Option<ChunkSizes>,
    label: Seq<char>,
    done_before: nat,
    translated: Seq<Seq<char>>,
)
    requires
        crate::text::is_blank(front),
        crate::text::is_blank(back),
        solid(core),
        remaining matches Some(left) ==> core.len() <= left,
    ensures
        ({
            let plan = node_plan(front + core + back, remaining, chunks, label, done_before);
            &&& plan.prefix == front
            &&& plan.suffix == back
            &&& crate::text::joined(piece_texts(plan.pieces)) == core
            &&& plan.pieces.len() > 0
            &&& plan.consumed == core.len()
            &&& !plan.exhausted
            &&& finished_node(plan, translated) == front + crate::text::joined(translated) + back
        }),
{
    lemma_around(front, core, back);
    law_unchanged_pieces_give_the_node_back(
        front + core + back,
        remaining,
        chunks,
        label,
        done_before,
    );
    let plan = node_plan(front + core + back, remaining, chunks, label, done_before);
    let sent = crate::text::joined(piece_texts(plan.pieces));
    let whole = front + core + back;
    assert(front + sent + back == whole);
    assert(sent.len() == core.len());
    assert(sent =~= whole.subrange(front.len() as int, (front.len() + sent.len()) as int));
    assert(core =~= whole.subrange(front.len() as int, (front.len() + core.len()) as int));
    if plan.pieces.len() == 0 {
        assert(piece_texts(plan.pieces).len() == 0);
    }
}

/// Where a node is longer than the budget, as many of its characters are sent as
/// the budget has, the first ones, and the others stay behind them as they are.
pub proof fn law_the_budget_is_spent_to_the_last_character(
    front: Seq<char>,
    core: Seq<char>,
    back: Seq<char>,
    left: nat,
    chunks: Option<ChunkSizes>,
    label: Seq<char>,
    done_before: nat,
    translated: Seq<char>,
)
    requires
        crate::text::is_blank(front),
        crate::text::is_blank(back),
        solid(core),
        0 < left < core.len(),
    ensures
        ({
            let plan = node_plan(front + core + back, Some(left), chunks, label, done_before);
            &&& plan.pieces.len() == 1
            &&& plan.pieces[0].text == core.take(left as int)
            &&& plan.pieces[0].sent
            &&& plan.consumed == left
            &&& plan.exhausted
            &&& finished_node(plan, seq![translated]) == front + translated + core.skip(
                left as int,
            ) + back
        }),
{
    lemma_around(front, core, back);
    crate::text::law_joining_adds_nothing(Seq::empty(), translated, Seq::empty());
    let plan = node_plan(front + core + back, Some(left), chunks, label, done_before);
    assert(finished_node(plan, seq![translated]) =~= front + translated + core.skip(left as int)
        + back);
}

/// A node of white space alone, and one for which nothing of the budget is left,
/// stays as it is.
pub proof fn law_nodes_that_are_not_sent_stay(
    text: Seq<char>,
    remaining: Option<nat>,
    chunks: Option<ChunkSizes>,
    label: Seq<char>,
    done_before: nat,
)
    requires
        crate::text::trimmed(text).len() == 0 || remaining == Some(0nat),
    ensures
        ({
            let plan = node_plan(text, remaining, chunks, label, done_before);
            &&& plan.pieces.len() == 0
            &&& plan.consumed == 0
            &&& finished_node(plan, Seq::empty()) == text
            &&& plan.exhausted <==> crate::text::trimmed(text).len() > 0
        }),
{
    crate::text::law_joining_adds_nothing(Seq::empty(), text, Seq::empty());
    let plan = node_plan(text, remaining, chunks, label, done_before);
    assert(finished_node(plan, Seq::empty()) =~= text);
}

/// Without chunks a node is sent as one piece, with the label of its page.
pub proof fn law_short_nodes_are_sent_at_once(
    front: Seq<char>,
    core: Seq<char>,
    back: Seq<char>,
    remaining: Option<nat>,
    label: Seq<char>,
    done_before: nat,
)
    requires
        crate::text::is_blank(front),
        crate::text::is_blank(back),
        solid(core),
        remaining matches Some(left) ==> core.len() <= left,
    ensures
        ({
            let plan = node_plan(front + core + back, remaining, None, label, done_before);
            &&& plan.pieces.len() == 1
            &&& plan.pieces[0].text == core
            &&& plan.pieces[0].sent
            &&& plan.pieces[0].label == label
            &&& plan.pieces[0].done_before == done_before
        }),
{
    lemma_around(front, core, back);
}

/// With chunks a node is sent in pieces that end with a sentence near the wanted
/// size. Each is reported with its number and with how many characters of the
/// page are done before it and behind it.
pub proof fn law_long_nodes_are_sent_in_chunks(
    front: Seq<char>,
    core: Seq<char>,
    back: Seq<char>,
    remaining: Option<nat>,
    sizes: ChunkSizes,
    label: Seq<char>,
    done_before: nat,
    i: int,
)
    requires
        crate::text::is_blank(front),
        crate::text::is_blank(back),
        solid(core),
        sizes.max > 0,
        remaining matches Some(left) ==> core.len() <= left,
        0 <= i < node_plan(
            front + core + back,
            remaining,
            Some(sizes),
            label,
            done_before,
        ).pieces.len(),
    ensures
        ({
            let plan = node_plan(front + core + back, remaining, Some(sizes), label, done_before);
            let texts = piece_texts(plan.pieces);
            let piece = plan.pieces[i];
            let (a, b) = (
                crate::text::joined(texts.take(i)).len(),
                crate::text::joined(texts.take(i + 1)).len(),
            );
            &&& 0 < piece.text.len() <= sizes.max
            &&& piece.done_before == done_before + a
            &&& piece.done_after == Some(done_before + b)
            &&& b == a + piece.text.len()
            &&& crate::sentences::cut_at_its_size(
                core,
                a as int,
                b as int,
                sizes.min as nat,
                sizes.target as nat,
                sizes.max as nat,
            )
            &&& plan.pieces.len() == 1 ==> piece.label == label
            &&& plan.pieces.len() > 1 ==> piece.label == label + " (fragmento "@
                + crate::text::decimal((i + 1) as nat) + "/"@ + crate::text::decimal(
                plan.pieces.len(),
            ) + ")"@
        }),
{
    lemma_around(front, core, back);
    let (min, target, max) = (sizes.min as nat, sizes.target as nat, sizes.max as nat);
    let segments = crate::sentences::sentence_segments(core, min, target, max);
    let plan = node_plan(front + core + back, remaining, Some(sizes), label, done_before);
    let chunks = chunks_of(core, min, target, max);
    crate::sentences::law_segments_tile_the_text(core, min, target, max);
    assert(segments.len() > 0);
    assert(piece_texts(plan.pieces) =~= chunks);
    crate::sentences::law_segments_are_as_long_as_wanted(core, min, target, max, i);
    crate::sentences::lemma_tiles_add_up(core, segments, 0, core.len() as int, i);
    assert(crate::sentences::fair_segment(core, segments[i], max));
    crate::text::lemma_joined_push(chunks.take(i), chunks[i]);
    assert(chunks.take(i + 1) =~= chunks.take(i).push(chunks[i]));
    assert(chunks[i] == core.subrange(segments[i].0, segments[i].1));
}

/// Plans and pieces stand for what they hold.
pub proof fn law_plans_stand_for_what_they_hold(plan: TextNodePlan, i: int)
    requires
        0 <= i < plan.pieces@.len(),
    ensures
        plan@.prefix == plan.prefix@,
        plan@.suffix == plan.suffix@,
        plan@.consumed == plan.consumed,
        plan@.exhausted == plan.exhausted,
        plan@.pieces.len() == plan.pieces@.len(),
        plan@.pieces[i].text == plan.pieces@[i].text@,
        plan@.pieces[i].sent == plan.pieces@[i].sent,
        plan@.pieces[i].label == plan.pieces@[i].label@,
        plan@.pieces[i].done_before == plan.pieces@[i].done_before,
        plan.pieces@[i].done_after is None <==> plan@.pieces[i].done_after is None,
        plan.pieces@[i].done_after matches Some(n) ==> plan@.pieces[i].done_after == Some(n as nat),
{
}

} // verus!
