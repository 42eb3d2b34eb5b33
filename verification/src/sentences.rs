//! Cutting running text: at a number of characters, and at the ends of
//! sentences near a wanted size.

use crate::text::{from_chars, to_chars};
use vstd::prelude::*;
use vstd::string::*;
use vstd::utf8::*;

verus! {

broadcast use vstd::string::group_string_axioms;

// ---------------------------------------------------------------------------
// Bytes and characters
// ---------------------------------------------------------------------------
/// How many bytes a text takes in UTF-8.
pub open spec fn byte_len(s: Seq<char>) -> nat {
    encode_utf8(s).len()
}

/// The byte offset of the character at position `i`.
pub open spec fn byte_offset(s: Seq<char>, i: int) -> nat {
    byte_len(s.take(i))
}

/// Encoding works character by character.
pub proof fn lemma_encode_add(a: Seq<char>, b: Seq<char>)
    ensures
        encode_utf8(a + b) == encode_utf8(a) + encode_utf8(b),
    decreases a.len(),
{
    if a.len() == 0 {
        assert(a + b =~= b);
        assert(encode_utf8(a) + encode_utf8(b) =~= encode_utf8(b));
    } else {
        assert((a + b).drop_first() =~= a.drop_first() + b);
        lemma_encode_add(a.drop_first(), b);
        assert(encode_utf8(a + b) =~= encode_utf8(a) + encode_utf8(b));
    }
}

/// One more character takes as many bytes as it is wide.
proof fn lemma_byte_offset_step(s: Seq<char>, i: int)
    requires
        0 <= i < s.len(),
    ensures
        byte_offset(s, i + 1) == byte_offset(s, i) + encode_scalar(s[i] as u32).len(),
        byte_offset(s, i) < byte_offset(s, i + 1),
{
    let one = seq![s[i]];
    lemma_encode_add(s.take(i), one);
    assert(s.take(i + 1) =~= s.take(i) + one);
    assert(one.drop_first() =~= Seq::<char>::empty());
    assert(encode_utf8(Seq::<char>::empty()).len() == 0);
    assert(encode_utf8(one) =~= encode_scalar(s[i] as u32));
}

/// Offsets grow with positions.
pub proof fn lemma_byte_offset_grows(s: Seq<char>, i: int, j: int)
    requires
        0 <= i <= j <= s.len(),
    ensures
        byte_offset(s, i) <= byte_offset(s, j),
        i < j ==> byte_offset(s, i) < byte_offset(s, j),
    decreases j - i,
{
    if i < j {
        lemma_byte_offset_grows(s, i, j - 1);
        lemma_byte_offset_step(s, j - 1);
    }
}

/// The width of a character in UTF-8.
fn utf8_width(c: char) -> (r: usize)
    ensures
        r == encode_scalar(c as u32).len(),
{
    let v = c as u32;
    if v <= 0x7F {
        1
    } else if v <= 0x7FF {
        2
    } else if v <= 0xFFFF {
        3
    } else {
        4
    }
}

// ---------------------------------------------------------------------------
// A number of characters
// ---------------------------------------------------------------------------
/// Cuts a text behind its first `count` characters.
pub fn split_at_char_count(input: &str, char_count: usize) -> (r: (&str, &str))
    ensures
        r.0@ + r.1@ == input@,
        r.0@ == input@.take(
            if char_count <= input@.len() {
                char_count as int
            } else {
                input@.len() as int
            },
        ),
{
    let n = input.unicode_len();
    let cut: usize = if char_count <= n {
        char_count
    } else {
        n
    };
    let head = input.substring_char(0, cut);
    let tail = input.substring_char(cut, n);
    assert(input@.subrange(0, cut as int) =~= input@.take(cut as int));
    assert(head@ + tail@ =~= input@);
    (head, tail)
}

// ---------------------------------------------------------------------------
// Sentences
// ---------------------------------------------------------------------------
/// The marks that end a sentence, the ideographic ones among them.
pub open spec fn ends_sentence(c: char) -> bool {
    ||| c == '.'
    ||| c == '!'
    ||| c == '?'
    ||| c == '\n'
    ||| c == '\u{3002}'
    ||| c == '\u{FF01}'
    ||| c == '\u{FF1F}'
}

fn sentence_mark(c: char) -> (r: bool)
    ensures
        r == ends_sentence(c),
{
    c == '.' || c == '!' || c == '?' || c == '\n' || c == '\u{3002}' || c == '\u{FF01}' || c
        == '\u{FF1F}'
}

/// Where a segment that begins at `start` ends, `k` characters of it having
/// been read and `last` being the end of the last sentence among them. The
/// segment ends with the last full sentence once it holds `target` characters
/// (and `min`), or once it holds `max`; with no sentence in reach, it ends
/// after `max` characters.
pub open spec fn segment_end(
    s: Seq<char>,
    start: int,
    k: int,
    last: Option<int>,
    min: nat,
    target: nat,
    max: nat,
) -> int
    decreases s.len() - start - k,
{
    if start + k >= s.len() {
        s.len() as int
    } else {
        let k1 = k + 1;
        let last1 = if ends_sentence(s[start + k]) {
            Some(start + k1)
        } else {
            last
        };
        if k1 >= target && k1 >= min && last1 is Some {
            last1->0
        } else if k1 >= max {
            match last1 {
                Some(end) => end,
                None => start + k1,
            }
        } else {
            segment_end(s, start, k1, last1, min, target, max)
        }
    }
}

/// The segments of a text from `start` on, as positions of characters.
pub open spec fn segments_from(s: Seq<char>, start: int, min: nat, target: nat, max: nat) -> Seq<
    (int, int),
>
    decreases s.len() - start,
{
    let end = segment_end(s, start, 0, None, min, target, max);
    if start < s.len() && start < end <= s.len() {
        seq![(start, end)] + segments_from(s, end, min, target, max)
    } else {
        Seq::empty()
    }
}

/// The segments of a text, as positions of characters.
pub open spec fn sentence_segments(s: Seq<char>, min: nat, target: nat, max: nat) -> Seq<
    (int, int),
> {
    if max == 0 {
        Seq::empty()
    } else {
        segments_from(s, 0, min, target, max)
    }
}

/// What a segment's end is: behind its start, within the text, and no further
/// than `max` characters; short of the text's end it is the end of a sentence,
/// or the full `max` where none ends.
proof fn lemma_segment_end(
    s: Seq<char>,
    start: int,
    k: int,
    last: Option<int>,
    min: nat,
    target: nat,
    max: nat,
)
    requires
        0 <= start < s.len(),
        0 <= k,
        start + k <= s.len(),
        max > 0,
        k < max,
        k == 0 ==> last is None,
        last matches Some(e) ==> start < e <= start + k && ends_sentence(s[e - 1]),
        last is None ==> no_sentence_ends(s, start, start + k),
    ensures
        ({
            let e = segment_end(s, start, k, last, min, target, max);
            &&& start < e <= s.len()
            &&& e - start <= max
            &&& e < s.len() ==> ends_sentence(s[e - 1]) || (e - start == max && no_sentence_ends(
                s,
                start,
                e,
            ))
        }),
    decreases s.len() - start - k,
{
    if start + k < s.len() {
        let k1 = k + 1;
        let last1 = if ends_sentence(s[start + k]) {
            Some(start + k1)
        } else {
            last
        };
        if k1 >= target && k1 >= min && last1 is Some {
        } else if k1 >= max {
        } else {
            lemma_segment_end(s, start, k1, last1, min, target, max);
        }
    }
}

/// The segments follow one another, from `start` through the end of the text.
pub open spec fn tiles(segments: Seq<(int, int)>, start: int, end: int) -> bool
    decreases segments.len(),
{
    if segments.len() == 0 {
        start == end
    } else {
        &&& segments[0].0 == start
        &&& segments[0].0 < segments[0].1
        &&& tiles(segments.drop_first(), segments[0].1, end)
    }
}

/// No sentence ends between two positions.
pub open spec fn no_sentence_ends(s: Seq<char>, from: int, to: int) -> bool {
    forall|p: int| from <= p < to ==> !ends_sentence(#[trigger] s[p])
}

/// A segment is no longer than `max`, and is cut at the end of a sentence, at
/// the end of the text, or at `max` characters where no sentence ends in it.
pub open spec fn fair_segment(s: Seq<char>, seg: (int, int), max: nat) -> bool {
    &&& 0 <= seg.0 < seg.1 <= s.len()
    &&& seg.1 - seg.0 <= max
    &&& seg.1 < s.len() ==> ends_sentence(s[seg.1 - 1]) || (seg.1 - seg.0 == max
        && no_sentence_ends(s, seg.0, seg.1))
}

proof fn lemma_segments_from(s: Seq<char>, start: int, min: nat, target: nat, max: nat)
    requires
        0 <= start <= s.len(),
        max > 0,
    ensures
        tiles(segments_from(s, start, min, target, max), start, s.len() as int),
        forall|i: int|
            0 <= i < segments_from(s, start, min, target, max).len() ==> fair_segment(
                s,
                #[trigger] segments_from(s, start, min, target, max)[i],
                max,
            ),
    decreases s.len() - start,
{
    if start < s.len() {
        lemma_segment_end(s, start, 0, None, min, target, max);
        let end = segment_end(s, start, 0, None, min, target, max);
        let rest = segments_from(s, end, min, target, max);
        lemma_segments_from(s, end, min, target, max);
        let all = segments_from(s, start, min, target, max);
        assert(all =~= seq![(start, end)] + rest);
        assert(all.drop_first() =~= rest);
        assert forall|i: int| 0 <= i < all.len() implies fair_segment(
            s,
            #[trigger] all[i],
            max,
        ) by {
            if i > 0 {
                assert(all[i] == rest[i - 1]);
            }
        }
    }
}

/// The segments of a text cover it without gap or overlap, none is longer than
/// `max`, and each is cut at the end of a sentence where one is in reach.
pub proof fn law_segments_tile_the_text(s: Seq<char>, min: nat, target: nat, max: nat)
    requires
        max > 0,
    ensures
        tiles(sentence_segments(s, min, target, max), 0, s.len() as int),
        forall|i: int|
            0 <= i < sentence_segments(s, min, target, max).len() ==> fair_segment(
                s,
                #[trigger] sentence_segments(s, min, target, max)[i],
                max,
            ),
{
    lemma_segments_from(s, 0, min, target, max);
}

/// The characters of each segment.
pub open spec fn segment_texts(s: Seq<char>, segments: Seq<(int, int)>) -> Seq<Seq<char>> {
    segments.map_values(|seg: (int, int)| s.subrange(seg.0, seg.1))
}

/// Segments that tile a stretch of text make it up.
pub proof fn lemma_tiles_join(s: Seq<char>, segments: Seq<(int, int)>, start: int, end: int)
    requires
        tiles(segments, start, end),
        0 <= start,
        end <= s.len(),
    ensures
        start <= end,
        crate::text::joined(segment_texts(s, segments)) == s.subrange(start, end),
    decreases segments.len(),
{
    if segments.len() == 0 {
        assert(crate::text::joined(segment_texts(s, segments)) =~= s.subrange(start, end));
    } else {
        let first = segments[0];
        let rest = segments.drop_first();
        lemma_tiles_join(s, rest, first.1, end);
        let part = s.subrange(first.0, first.1);
        assert(segment_texts(s, segments) =~= seq![part] + segment_texts(s, rest));
        crate::text::lemma_joined_cons(part, segment_texts(s, rest));
        assert(part + s.subrange(first.1, end) =~= s.subrange(start, end));
    }
}

/// A segment begins where those in front of it, written out, end.
pub proof fn lemma_tiles_add_up(
    s: Seq<char>,
    segments: Seq<(int, int)>,
    start: int,
    end: int,
    i: int,
)
    requires
        tiles(segments, start, end),
        0 <= start,
        end <= s.len(),
        0 <= i < segments.len(),
    ensures
        start + crate::text::joined(segment_texts(s, segments).take(i)).len() == segments[i].0,
        segments[i].0 < segments[i].1 <= end,
    decreases segments.len(),
{
    let first = segments[0];
    let rest = segments.drop_first();
    lemma_tiles_join(s, rest, first.1, end);
    if i > 0 {
        lemma_tiles_add_up(s, rest, first.1, end, i - 1);
        let part = s.subrange(first.0, first.1);
        let more = segment_texts(s, rest).take(i - 1);
        assert(segment_texts(s, segments).take(i) =~= seq![part] + more);
        crate::text::lemma_joined_cons(part, more);
        assert(rest[i - 1] == segments[i]);
    } else {
        assert(segment_texts(s, segments).take(0) =~= Seq::<Seq<char>>::empty());
    }
}

/// Finds where the segment that begins at `start` ends.
fn find_segment_end(
    chars: &Vec<char>,
    start: usize,
    min_chars: usize,
    target_chars: usize,
    max_chars: usize,
) -> (r: usize)
    requires
        start < chars.len(),
        max_chars > 0,
    ensures
        r == segment_end(
            chars@,
            start as int,
            0,
            None,
            min_chars as nat,
            target_chars as nat,
            max_chars as nat,
        ),
        start < r <= chars.len(),
{
    let ghost (min, target, max) = (min_chars as nat, target_chars as nat, max_chars as nat);
    proof {
        lemma_segment_end(chars@, start as int, 0, None, min, target, max);
    }
    let mut k: usize = 0;
    let mut last: Option<usize> = None;
    while start + k < chars.len()
        invariant
            start < chars.len(),
            start + k <= chars.len(),
            k < max_chars,
            min == min_chars,
            target == target_chars,
            max == max_chars,
            start < segment_end(chars@, start as int, 0, None, min, target, max) <= chars.len(),
            segment_end(chars@, start as int, 0, None, min, target, max) == segment_end(
                chars@,
                start as int,
                k as int,
                match last {
                    Some(e) => Some(e as int),
                    None => None,
                },
                min,
                target,
                max,
            ),
        decreases chars.len() - start - k,
    {
        let idx = start + k;
        if sentence_mark(chars[idx]) {
            last = Some(idx + 1);
        }
        k += 1;
        if k >= target_chars && k >= min_chars {
            if let Some(end) = last {
                return end;
            }
        }
        if k >= max_chars {
            return match last {
                Some(end) => end,
                None => start + k,
            };
        }
    }
    chars.len()
}

/// Splits a text into segments, as positions of characters.
pub fn sentence_cuts(
    chars: &Vec<char>,
    min_chars: usize,
    target_chars: usize,
    max_chars: usize,
) -> (r: Vec<(usize, usize)>)
    ensures
        r@.map_values(|p: (usize, usize)| (p.0 as int, p.1 as int)) == sentence_segments(
            chars@,
            min_chars as nat,
            target_chars as nat,
            max_chars as nat,
        ),
        forall|i: int| 0 <= i < r@.len() ==> (#[trigger] r@[i]).0 < r@[i].1 <= chars.len(),
        max_chars > 0 ==> tiles(
            sentence_segments(
                chars@,
                min_chars as nat,
                target_chars as nat,
                max_chars as nat,
            ),
            0,
            chars@.len() as int,
        ),
{
    let ghost (min, target, max) = (min_chars as nat, target_chars as nat, max_chars as nat);
    let ghost as_ints = |p: (usize, usize)| (p.0 as int, p.1 as int);
    let mut cuts: Vec<(usize, usize)> = Vec::new();
    if max_chars == 0 {
        assert(cuts@.map_values(as_ints) =~= sentence_segments(chars@, min, target, max));
        return cuts;
    }
    let mut start: usize = 0;
    assert(cuts@.map_values(as_ints) + segments_from(chars@, 0, min, target, max)
        =~= sentence_segments(chars@, min, target, max));
    while start < chars.len()
        invariant
            start <= chars.len(),
            max_chars > 0,
            min == min_chars,
            target == target_chars,
            max == max_chars,
            as_ints == (|p: (usize, usize)| (p.0 as int, p.1 as int)),
            cuts@.map_values(as_ints) + segments_from(chars@, start as int, min, target, max)
                == sentence_segments(chars@, min, target, max),
            forall|i: int| 0 <= i < cuts@.len() ==> (#[trigger] cuts@[i]).0 < cuts@[i].1
                <= chars.len(),
        decreases chars.len() - start,
    {
        let end = find_segment_end(chars, start, min_chars, target_chars, max_chars);
        proof {
            let done = cuts@.map_values(as_ints);
            let tail = segments_from(chars@, end as int, min, target, max);
            assert(cuts@.push((start, end)).map_values(as_ints) =~= done.push(
                (start as int, end as int),
            ));
            assert(done + (seq![(start as int, end as int)] + tail) =~= done.push(
                (start as int, end as int),
            ) + tail);
        }
        cuts.push((start, end));
        start = end;
    }
    proof {
        assert(cuts@.map_values(as_ints) + segments_from(chars@, start as int, min, target, max)
            =~= cuts@.map_values(as_ints));
        law_segments_tile_the_text(chars@, min, target, max);
    }
    cuts
}

/// Segments as byte ranges of the text.
pub open spec fn byte_ranges(s: Seq<char>, segments: Seq<(int, int)>) -> Seq<(int, int)> {
    segments.map_values(
        |seg: (int, int)| (byte_offset(s, seg.0) as int, byte_offset(s, seg.1) as int),
    )
}

/// Splits a text into segments that end with a sentence near the wanted size,
/// as byte ranges of the text.
pub fn split_text_by_sentence(
    text: &str,
    min_chars: usize,
    target_chars: usize,
    max_chars: usize,
) -> (r: Vec<(usize, usize)>)
    ensures
        r@.map_values(|p: (usize, usize)| (p.0 as int, p.1 as int)) == byte_ranges(
            text@,
            sentence_segments(
                text@,
                min_chars as nat,
                target_chars as nat,
                max_chars as nat,
            ),
        ),
{
    let ghost (min, target, max) = (min_chars as nat, target_chars as nat, max_chars as nat);
    let ghost as_ints = |p: (usize, usize)| (p.0 as int, p.1 as int);
    let chars = to_chars(text);
    let total = text.as_bytes().len();
    let cuts = sentence_cuts(&chars, min_chars, target_chars, max_chars);
    let ghost segs = sentence_segments(text@, min, target, max);
    let ghost wanted = byte_ranges(text@, segs);
    let mut ranges: Vec<(usize, usize)> = Vec::new();
    let mut pos: usize = 0;
    let mut offset: usize = 0;
    let mut i: usize = 0;
    proof {
        assert(text@.take(text@.len() as int) =~= text@);
        assert(text@.take(0) =~= Seq::<char>::empty());
        assert(wanted.take(0) =~= ranges@.map_values(as_ints));
        assert(segs.skip(0) =~= segs);
    }
    while i < cuts.len()
        invariant
            i <= cuts.len(),
            chars@ == text@,
            total == byte_offset(text@, text@.len() as int),
            as_ints == (|p: (usize, usize)| (p.0 as int, p.1 as int)),
            segs == cuts@.map_values(as_ints),
            wanted == byte_ranges(text@, segs),
            forall|j: int| 0 <= j < cuts@.len() ==> (#[trigger] cuts@[j]).0 < cuts@[j].1
                <= chars.len(),
            i < cuts.len() ==> tiles(segs.skip(i as int), pos as int, text@.len() as int),
            pos <= chars.len(),
            offset == byte_offset(text@, pos as int),
            ranges@.map_values(as_ints) == wanted.take(i as int),
        decreases cuts.len() - i,
    {
        let end = cuts[i].1;
        let begin = offset;
        proof {
            assert(segs.skip(i as int)[0] == (cuts@[i as int].0 as int, end as int));
            assert(segs.skip(i as int).drop_first() =~= segs.skip(i + 1));
        }
        while pos < end
            invariant
                pos <= end <= chars.len(),
                chars@ == text@,
                total == byte_offset(text@, text@.len() as int),
                offset == byte_offset(text@, pos as int),
            decreases end - pos,
        {
            proof {
                lemma_byte_offset_step(text@, pos as int);
                lemma_byte_offset_grows(text@, pos + 1, text@.len() as int);
            }
            offset += utf8_width(chars[pos]);
            pos += 1;
        }
        ranges.push((begin, offset));
        proof {
            assert(wanted[i as int] == (begin as int, offset as int));
            assert(wanted.take(i + 1) =~= wanted.take(i as int).push((begin as int, offset as int)));
            assert(ranges@.map_values(as_ints) =~= wanted.take(i + 1));
        }
        i += 1;
    }
    assert(wanted.take(wanted.len() as int) =~= wanted);
    ranges
}

/// Splits a text into segments that end with a sentence near the wanted size.
pub fn sentence_chunks(
    text: &str,
    min_chars: usize,
    target_chars: usize,
    max_chars: usize,
) -> (r: Vec<String>)
    ensures
        crate::text::views(r@) == segment_texts(
            text@,
            sentence_segments(
                text@,
                min_chars as nat,
                target_chars as nat,
                max_chars as nat,
            ),
        ),
        max_chars > 0 ==> crate::text::joined(crate::text::views(r@)) == text@,
{
    let ghost (min, target, max) = (min_chars as nat, target_chars as nat, max_chars as nat);
    let ghost as_ints = |p: (usize, usize)| (p.0 as int, p.1 as int);
    let chars = to_chars(text);
    let cuts = sentence_cuts(&chars, min_chars, target_chars, max_chars);
    let ghost segs = sentence_segments(text@, min, target, max);
    let ghost wanted = segment_texts(text@, segs);
    let mut chunks: Vec<String> = Vec::new();
    let mut i: usize = 0;
    assert(wanted.take(0) =~= crate::text::views(chunks@));
    while i < cuts.len()
        invariant
            i <= cuts.len(),
            chars@ == text@,
            as_ints == (|p: (usize, usize)| (p.0 as int, p.1 as int)),
            segs == cuts@.map_values(as_ints),
            wanted == segment_texts(text@, segs),
            forall|j: int| 0 <= j < cuts@.len() ==> (#[trigger] cuts@[j]).0 < cuts@[j].1
                <= chars.len(),
            crate::text::views(chunks@) == wanted.take(i as int),
        decreases cuts.len() - i,
    {
        let (a, b) = cuts[i];
        let chunk = from_chars(&chars, a, b);
        proof {
            assert(segs[i as int] == (a as int, b as int));
            assert(wanted.take(i + 1) =~= wanted.take(i as int).push(chunk@));
            assert(crate::text::views(chunks@.push(chunk)) =~= crate::text::views(chunks@).push(
                chunk@,
            ));
        }
        chunks.push(chunk);
        i += 1;
    }
    proof {
        assert(wanted.take(wanted.len() as int) =~= wanted);
        if max_chars > 0 {
            lemma_tiles_join(text@, segs, 0, text@.len() as int);
            assert(text@.subrange(0, text@.len() as int) =~= text@);
        }
    }
    chunks
}

// ---------------------------------------------------------------------------
// What is promised of segments
// ---------------------------------------------------------------------------
/// Sentences end with a full stop, an exclamation mark, a question mark or a
/// line feed, and with the ideographic forms of the first three.
pub proof fn law_sentences_end_with_their_marks(c: char)
    ensures
        (c as u32) < 0x80 ==> (ends_sentence(c) <==> c == '.' || c == '!' || c == '?' || c == '\n'),
        (c as u32) >= 0x80 ==> (ends_sentence(c) <==> c as u32 == 0x3002 || c as u32 == 0xff01
            || c as u32 == 0xff1f),
{
}

/// How many characters of a segment are read before it may be cut.
pub open spec fn reach_of(min: nat, target: nat, max: nat) -> int {
    let wanted = if target < min {
        min
    } else {
        target
    };
    if max < wanted {
        max as int
    } else if wanted < 1 {
        1
    } else {
        wanted as int
    }
}

/// A segment is cut behind the last sentence within the wanted size; where none
/// ends there, behind the first that does, but never later than behind `max`
/// characters. What is shorter than the wanted size is not cut.
pub open spec fn cut_at_its_size(
    s: Seq<char>,
    start: int,
    end: int,
    min: nat,
    target: nat,
    max: nat,
) -> bool {
    let reach = start + reach_of(min, target, max);
    &&& reach > s.len() ==> end == s.len()
    &&& reach <= s.len() && !no_sentence_ends(s, start, reach) ==> {
        &&& start < end <= reach
        &&& ends_sentence(s[end - 1])
        &&& no_sentence_ends(s, end, reach)
    }
    &&& reach <= s.len() && no_sentence_ends(s, start, reach) ==> {
        &&& reach <= end <= s.len()
        &&& end - start <= max
        &&& no_sentence_ends(s, start, end - 1)
        &&& ends_sentence(s[end - 1]) || end - start == max || end == s.len()
    }
}

proof fn lemma_beyond_reach(s: Seq<char>, start: int, k: int, min: nat, target: nat, max: nat)
    requires
        0 <= start,
        reach_of(min, target, max) <= k < max,
        start + k <= s.len(),
        no_sentence_ends(s, start, start + k),
    ensures
        ({
            let e = segment_end(s, start, k, None, min, target, max);
            &&& start + k <= e <= s.len()
            &&& e - start <= max
            &&& no_sentence_ends(s, start, e - 1)
            &&& ends_sentence(s[e - 1]) || e - start == max || e == s.len()
        }),
    decreases s.len() - start - k,
{
    if start + k < s.len() && !ends_sentence(s[start + k]) && k + 1 < max {
        lemma_beyond_reach(s, start, k + 1, min, target, max);
    }
}

proof fn lemma_within_reach(
    s: Seq<char>,
    start: int,
    k: int,
    last: Option<int>,
    min: nat,
    target: nat,
    max: nat,
)
    requires
        0 <= start,
        max > 0,
        0 <= k < reach_of(min, target, max),
        start + k <= s.len(),
        last is None ==> no_sentence_ends(s, start, start + k),
        last matches Some(e) ==> start < e <= start + k && ends_sentence(s[e - 1])
            && no_sentence_ends(s, e, start + k),
    ensures
        cut_at_its_size(
            s,
            start,
            segment_end(s, start, k, last, min, target, max),
            min,
            target,
            max,
        ),
    decreases s.len() - start - k,
{
    if start + k < s.len() {
        let k1 = k + 1;
        let last1 = if ends_sentence(s[start + k]) {
            Some(start + k1)
        } else {
            last
        };
        if k1 < reach_of(min, target, max) {
            lemma_within_reach(s, start, k1, last1, min, target, max);
        } else {
            if last1 is None && k1 < max {
                lemma_beyond_reach(s, start, k1, min, target, max);
            }
            if last1 is Some {
                let e = last1->0;
                assert(ends_sentence(s[e - 1]));
                assert(!no_sentence_ends(s, start, start + k1));
            }
        }
    }
}

/// Every segment of a text is cut at its size.
pub proof fn law_segments_are_as_long_as_wanted(
    s: Seq<char>,
    min: nat,
    target: nat,
    max: nat,
    i: int,
)
    requires
        max > 0,
        0 <= i < sentence_segments(s, min, target, max).len(),
    ensures
        ({
            let (start, end) = sentence_segments(s, min, target, max)[i];
            cut_at_its_size(s, start, end, min, target, max)
        }),
{
    lemma_segments_at_size(s, 0, min, target, max, i);
}

proof fn lemma_segments_at_size(
    s: Seq<char>,
    from: int,
    min: nat,
    target: nat,
    max: nat,
    i: int,
)
    requires
        max > 0,
        0 <= from <= s.len(),
        0 <= i < segments_from(s, from, min, target, max).len(),
    ensures
        ({
            let (start, end) = segments_from(s, from, min, target, max)[i];
            cut_at_its_size(s, start, end, min, target, max)
        }),
    decreases s.len() - from,
{
    if from < s.len() {
        let end = segment_end(s, from, 0, None, min, target, max);
        let rest = segments_from(s, end, min, target, max);
        lemma_segment_end(s, from, 0, None, min, target, max);
        if i == 0 {
            lemma_within_reach(s, from, 0, None, min, target, max);
        } else {
            assert(segments_from(s, from, min, target, max)[i] == rest[i - 1]);
            lemma_segments_at_size(s, end, min, target, max, i - 1);
        }
    }
}

/// The bytes of a text in the range of a segment are the bytes of the segment.
pub proof fn law_ranges_hold_the_bytes_of_segments(s: Seq<char>, segments: Seq<(int, int)>, i: int)
    requires
        0 <= i < segments.len(),
        0 <= segments[i].0 <= segments[i].1 <= s.len(),
    ensures
        byte_ranges(s, segments).len() == segments.len(),
        0 <= byte_ranges(s, segments)[i].0 <= byte_ranges(s, segments)[i].1 <= encode_utf8(s).len(),
        encode_utf8(s).subrange(byte_ranges(s, segments)[i].0, byte_ranges(s, segments)[i].1)
            == encode_utf8(segment_texts(s, segments)[i]),
        segment_texts(s, segments)[i] == s.subrange(segments[i].0, segments[i].1),
{
    let (a, b) = segments[i];
    let part = s.subrange(a, b);
    lemma_encode_add(s.take(a), part);
    lemma_encode_add(s.take(b), s.skip(b));
    assert(s.take(b) =~= s.take(a) + part);
    assert(s =~= s.take(b) + s.skip(b));
    assert(encode_utf8(s).subrange(byte_offset(s, a) as int, byte_offset(s, b) as int)
        =~= encode_utf8(part));
}

} // verus!
