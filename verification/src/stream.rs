//! Reading an answer that arrives as server-sent events.

use crate::json::{read_json_text, Json, JsonModel};
use crate::response::{decode_lossy, judge};
use crate::text::{blank, from_chars, same_text, split, starts_with, to_chars, trim};
use vstd::prelude::*;
use vstd::string::*;

verus! {

broadcast use vstd::string::group_string_axioms;

// ---------------------------------------------------------------------------
// Events
// ---------------------------------------------------------------------------
/// The first empty line at or behind `from`: where two line feeds follow each
/// other, or the end of the text.
pub open spec fn first_gap(s: Seq<char>, from: int) -> int
    decreases s.len() - from,
{
    if from < 0 || from + 1 >= s.len() {
        s.len() as int
    } else if s[from] == '\n' && s[from + 1] == '\n' {
        from
    } else {
        first_gap(s, from + 1)
    }
}

/// The data of an event's lines, up to the end mark.
pub open spec fn data_of(lines: Seq<Seq<char>>) -> Seq<Seq<char>>
    decreases lines.len(),
{
    if lines.len() == 0 {
        Seq::empty()
    } else if !crate::text::has_prefix(lines[0], "data:"@) {
        data_of(lines.drop_first())
    } else {
        let payload = crate::text::trimmed(lines[0].skip(5));
        if payload == "[DONE]"@ {
            Seq::empty()
        } else {
            seq![payload] + data_of(lines.drop_first())
        }
    }
}

/// The data of the events that are complete.
pub open spec fn payloads_in(s: Seq<char>) -> Seq<Seq<char>>
    decreases s.len(),
{
    let gap = first_gap(s, 0);
    if 0 <= gap && gap + 2 <= s.len() {
        data_of(crate::text::split_on(s.take(gap), '\n')) + payloads_in(s.skip(gap + 2))
    } else {
        Seq::empty()
    }
}

/// What is left behind the events that are complete.
pub open spec fn left_over(s: Seq<char>) -> Seq<char>
    decreases s.len(),
{
    let gap = first_gap(s, 0);
    if 0 <= gap && gap + 2 <= s.len() {
        left_over(s.skip(gap + 2))
    } else {
        s
    }
}

/// A gap is found before the end or not at all.
proof fn lemma_first_gap(s: Seq<char>, from: int)
    requires
        0 <= from <= s.len(),
    ensures
        from <= first_gap(s, from) <= s.len(),
        first_gap(s, from) < s.len() ==> first_gap(s, from) + 2 <= s.len(),
    decreases s.len() - from,
{
    if from + 1 < s.len() && !(s[from] == '\n' && s[from + 1] == '\n') {
        lemma_first_gap(s, from + 1);
    }
}

/// What follows does not move a gap.
proof fn lemma_gap_stays(s: Seq<char>, more: Seq<char>, from: int)
    requires
        0 <= from <= s.len(),
        first_gap(s, from) < s.len(),
    ensures
        first_gap(s + more, from) == first_gap(s, from),
    decreases s.len() - from,
{
    if from + 1 < s.len() {
        assert((s + more)[from] == s[from]);
        assert((s + more)[from + 1] == s[from + 1]);
        if !(s[from] == '\n' && s[from + 1] == '\n') {
            lemma_gap_stays(s, more, from + 1);
        }
    }
}

/// How a stream is cut into chunks does not matter: what is read from one chunk
/// and then from what it left over and the next is what is read from both at
/// once.
pub proof fn law_chunks_may_be_cut_anywhere(s: Seq<char>, more: Seq<char>)
    ensures
        payloads_in(s + more) == payloads_in(s) + payloads_in(left_over(s) + more),
        left_over(s + more) == left_over(left_over(s) + more),
    decreases s.len(),
{
    lemma_first_gap(s, 0);
    let gap = first_gap(s, 0);
    if gap + 2 <= s.len() {
        lemma_gap_stays(s, more, 0);
        let rest = s.skip(gap + 2);
        law_chunks_may_be_cut_anywhere(rest, more);
        assert((s + more).take(gap) =~= s.take(gap));
        assert((s + more).skip(gap + 2) =~= rest + more);
        let here = data_of(crate::text::split_on(s.take(gap), '\n'));
        assert(here + (payloads_in(rest) + payloads_in(left_over(rest) + more)) =~= (here
            + payloads_in(rest)) + payloads_in(left_over(rest) + more));
    } else {
        assert(payloads_in(s) + payloads_in(s + more) =~= payloads_in(s + more));
    }
}

fn find_gap(s: &Vec<char>, from: usize) -> (r: usize)
    requires
        from <= s.len(),
    ensures
        r == first_gap(s@, from as int),
        from <= r <= s.len(),
        r < s.len() ==> r + 2 <= s.len(),
{
    let mut i: usize = from;
    while i < s.len() && i + 1 < s.len()
        invariant
            from <= i <= s.len(),
            first_gap(s@, i as int) == first_gap(s@, from as int),
        decreases s.len() - i,
    {
        if s[i] == '\n' && s[i + 1] == '\n' {
            return i;
        }
        i += 1;
    }
    s.len()
}

/// Searching behind a position is searching the rest.
proof fn lemma_gap_in_rest(s: Seq<char>, start: int, k: int)
    requires
        0 <= start,
        0 <= k,
        start + k <= s.len(),
    ensures
        first_gap(s, start + k) == start + first_gap(s.skip(start), k),
    decreases s.len() - start - k,
{
    let rest = s.skip(start);
    if start + k + 1 < s.len() {
        assert(rest[k] == s[start + k]);
        assert(rest[k + 1] == s[start + k + 1]);
        lemma_gap_in_rest(s, start, k + 1);
    }
}

/// The data of an event, up to the end mark.
pub fn event_payloads(event: &str) -> (r: Vec<String>)
    ensures
        crate::text::views(r@) == data_of(crate::text::split_on(event@, '\n')),
{
    let lines = split(event, '\n');
    let ghost all = crate::text::views(lines@);
    let mut found: Vec<String> = Vec::new();
    let mut i: usize = 0;
    assert(all.skip(0) =~= all);
    assert(crate::text::views(found@) + data_of(all) =~= data_of(all));
    while i < lines.len()
        invariant
            i <= lines.len(),
            all == crate::text::views(lines@),
            all == crate::text::split_on(event@, '\n'),
            crate::text::views(found@) + data_of(all.skip(i as int)) == data_of(all),
        decreases lines.len() - i,
    {
        let line = &lines[i];
        let ghost rest = all.skip(i as int);
        assert(rest[0] == line@);
        assert(rest.drop_first() =~= all.skip(i + 1));
        if starts_with(line.as_str(), "data:") {
            proof {
                reveal_strlit("data:");
            }
            let chars = to_chars(line.as_str());
            let payload = trim(from_chars(&chars, 5, chars.len()).as_str());
            assert(line@.subrange(5, line@.len() as int) =~= line@.skip(5));
            if same_text(payload.as_str(), "[DONE]") {
                assert(crate::text::views(found@) + Seq::<Seq<char>>::empty()
                    =~= crate::text::views(found@));
                return found;
            }
            let ghost before = crate::text::views(found@);
            let ghost p = payload@;
            found.push(payload);
            proof {
                assert(crate::text::views(found@) =~= before.push(p));
                let tail = data_of(all.skip(i + 1));
                assert(before + (seq![p] + tail) =~= before.push(p) + tail);
            }
        }
        i += 1;
    }
    assert(crate::text::views(found@) + data_of(all.skip(i as int)) =~= crate::text::views(found@));
    found
}

// ---------------------------------------------------------------------------
// Messages
// ---------------------------------------------------------------------------
/// The first of three values that is there.
pub open spec fn first_found(
    a: Option<JsonModel>,
    b: Option<JsonModel>,
    c: Option<JsonModel>,
) -> Option<JsonModel> {
    if a is Some {
        a
    } else if b is Some {
        b
    } else {
        c
    }
}

/// The choice that a message speaks of.
pub open spec fn message_choice(message: JsonModel) -> Option<JsonModel> {
    match message.at_key("choices"@) {
        Some(choices) => choices.first_item(),
        None => None,
    }
}

/// Why an answer ended, where a message says so.
pub open spec fn message_reason(message: JsonModel) -> Option<Seq<char>> {
    match message_choice(message) {
        Some(choice) => match choice.at_key("finish_reason"@) {
            Some(reason) => reason.characters(),
            None => None,
        },
        None => None,
    }
}

/// The text that a message adds.
pub open spec fn message_text(message: JsonModel) -> Seq<char> {
    let found = match message_choice(message) {
        Some(choice) => first_found(
            crate::response::nested(choice, "delta"@, "content"@),
            crate::response::nested(choice, "message"@, "content"@),
            choice.at_key("text"@),
        ),
        None => None,
    };
    match found {
        Some(value) => match value.characters() {
            Some(text) => text,
            None => Seq::empty(),
        },
        None => Seq::empty(),
    }
}

/// An answer while it arrives: its text so far, why it ended, the pieces that
/// were reported, and the error that ended it.
pub struct Heard {
    pub translated: Seq<char>,
    pub reason: Option<Seq<char>>,
    pub deltas: Seq<Seq<char>>,
    pub error: Option<Seq<char>>,
}

impl Heard {
    /// A message is taken in.
    pub open spec fn with(self, message: JsonModel) -> Heard {
        Heard {
            translated: self.translated + message_text(message),
            reason: if message_reason(message) is Some {
                message_reason(message)
            } else {
                self.reason
            },
            deltas: if message_text(message).len() > 0 {
                self.deltas.push(message_text(message))
            } else {
                self.deltas
            },
            ..self
        }
    }
}

/// The error of a message that is no JSON.
pub open spec fn unreadable_message(provider: Seq<char>, error: Seq<char>) -> Seq<char> {
    "Respuesta streaming invalida del proveedor "@ + provider + ": "@ + error
}

/// Messages are taken in one by one, up to the first that is no JSON.
pub open spec fn heard_all(h: Heard, payloads: Seq<Seq<char>>, provider: Seq<char>) -> Heard
    decreases payloads.len(),
{
    if payloads.len() == 0 {
        h
    } else {
        match crate::json::json_of_text(payloads[0]) {
            Ok(message) => heard_all(h.with(message), payloads.drop_first(), provider),
            Err(error) => Heard { error: Some(unreadable_message(provider, error)), ..h },
        }
    }
}

/// The pieces that are reported add up to the text.
pub proof fn law_reported_pieces_add_up(
    h: Heard,
    start: Seq<char>,
    payloads: Seq<Seq<char>>,
    provider: Seq<char>,
)
    requires
        h.translated == start + crate::text::joined(h.deltas),
    ensures
        heard_all(h, payloads, provider).translated == start + crate::text::joined(
            heard_all(h, payloads, provider).deltas,
        ),
    decreases payloads.len(),
{
    if payloads.len() > 0 {
        match crate::json::json_of_text(payloads[0]) {
            Ok(message) => {
                let text = message_text(message);
                crate::text::lemma_joined_push(h.deltas, text);
                assert(h.with(message).translated =~= start + crate::text::joined(
                    h.with(message).deltas,
                ));
                law_reported_pieces_add_up(
                    h.with(message),
                    start,
                    payloads.drop_first(),
                    provider,
                );
            },
            Err(_) => {},
        }
    }
}

/// An answer while it arrives.
pub struct StreamState {
    pub buffer: Seq<char>,
    pub translated: Seq<char>,
    pub reason: Option<Seq<char>>,
}

impl StreamState {
    /// Nothing has arrived.
    pub open spec fn fresh() -> StreamState {
        StreamState { buffer: Seq::empty(), translated: Seq::empty(), reason: None }
    }

    /// Nothing has been reported yet of what arrives next.
    pub open spec fn listening(self) -> Heard {
        Heard {
            translated: self.translated,
            reason: self.reason,
            deltas: Seq::empty(),
            error: None,
        }
    }

    /// What a chunk brings.
    pub open spec fn hears(self, chunk: Seq<char>, provider: Seq<char>) -> Heard {
        heard_all(self.listening(), payloads_in(self.buffer + chunk), provider)
    }

    /// A chunk is taken in.
    pub open spec fn after(self, chunk: Seq<char>, provider: Seq<char>) -> StreamState {
        StreamState {
            buffer: left_over(self.buffer + chunk),
            translated: self.hears(chunk, provider).translated,
            reason: self.hears(chunk, provider).reason,
        }
    }

    /// What chunks bring one after another, up to the error that ends the answer.
    pub open spec fn hears_chunks(self, chunks: Seq<Seq<char>>, provider: Seq<char>) -> Heard
        decreases chunks.len(),
    {
        if chunks.len() == 0 {
            self.listening()
        } else {
            let heard = self.hears(chunks[0], provider);
            if heard.error is Some {
                heard
            } else {
                let rest = self.after(chunks[0], provider).hears_chunks(
                    chunks.drop_first(),
                    provider,
                );
                Heard { deltas: heard.deltas + rest.deltas, ..rest }
            }
        }
    }
}

/// The translation that the text of an answer which has ended gives.
pub open spec fn ended(
    source: Seq<char>,
    translated: Seq<char>,
    reason: Option<Seq<char>>,
) -> Result<Seq<char>, Seq<char>> {
    if crate::text::trimmed(translated).len() == 0 {
        Err("DeepSeek devolvio una traduccion vacia"@)
    } else {
        crate::response::judged(source, crate::text::trimmed(translated), reason)
    }
}

/// The translation that a whole answer gives.
pub open spec fn answered(source: Seq<char>, heard: Heard) -> Result<Seq<char>, Seq<char>> {
    match heard.error {
        Some(error) => Err(error),
        None => ended(source, heard.translated, heard.reason),
    }
}

/// The characters of each chunk.
pub open spec fn decoded(chunks: Seq<Seq<u8>>) -> Seq<Seq<char>> {
    chunks.map_values(|chunk: Seq<u8>| vstd::utf8::decode_utf8(chunk))
}

/// What is left over holds no complete event.
proof fn lemma_left_over_is_open(s: Seq<char>)
    ensures
        payloads_in(left_over(s)) == Seq::<Seq<char>>::empty(),
    decreases s.len(),
{
    let gap = first_gap(s, 0);
    if 0 <= gap && gap + 2 <= s.len() {
        lemma_left_over_is_open(s.skip(gap + 2));
    }
}

/// Messages may be taken in one part after another, unless the first part ends
/// the answer.
proof fn lemma_heard_add(h: Heard, a: Seq<Seq<char>>, b: Seq<Seq<char>>, provider: Seq<char>)
    requires
        h.error is None,
    ensures
        heard_all(h, a + b, provider) == (if heard_all(h, a, provider).error is Some {
            heard_all(h, a, provider)
        } else {
            heard_all(heard_all(h, a, provider), b, provider)
        }),
    decreases a.len(),
{
    if a.len() == 0 {
        assert(a + b =~= b);
    } else {
        assert((a + b)[0] == a[0]);
        assert((a + b).drop_first() =~= a.drop_first() + b);
        match crate::json::json_of_text(a[0]) {
            Ok(message) => {
                lemma_heard_add(h.with(message), a.drop_first(), b, provider);
            },
            Err(_) => {},
        }
    }
}

/// What was reported before stays in front.
proof fn lemma_heard_behind(
    h: Heard,
    front: Seq<Seq<char>>,
    payloads: Seq<Seq<char>>,
    provider: Seq<char>,
)
    ensures
        heard_all(Heard { deltas: front + h.deltas, ..h }, payloads, provider) == (Heard {
            deltas: front + heard_all(h, payloads, provider).deltas,
            ..heard_all(h, payloads, provider)
        }),
    decreases payloads.len(),
{
    if payloads.len() > 0 {
        match crate::json::json_of_text(payloads[0]) {
            Ok(message) => {
                let text = message_text(message);
                assert((front + h.deltas).push(text) =~= front + h.deltas.push(text));
                lemma_heard_behind(h.with(message), front, payloads.drop_first(), provider);
            },
            Err(_) => {},
        }
    }
}

/// Chunks bring what they would bring at once.
proof fn lemma_chunks_are_heard_at_once(
    s: StreamState,
    chunks: Seq<Seq<char>>,
    provider: Seq<char>,
)
    requires
        payloads_in(s.buffer) == Seq::<Seq<char>>::empty(),
    ensures
        s.hears_chunks(chunks, provider) == s.hears(crate::text::joined(chunks), provider),
    decreases chunks.len(),
{
    if chunks.len() == 0 {
        assert(s.buffer + crate::text::joined(chunks) =~= s.buffer);
    } else {
        let rest = chunks.drop_first();
        let all = s.buffer + chunks[0];
        let heard = s.hears(chunks[0], provider);
        let next = s.after(chunks[0], provider);
        let more = crate::text::joined(rest);
        crate::text::lemma_joined_cons(chunks[0], rest);
        assert(seq![chunks[0]] + rest =~= chunks);
        assert(s.buffer + crate::text::joined(chunks) =~= all + more);
        law_chunks_may_be_cut_anywhere(all, more);
        lemma_heard_add(s.listening(), payloads_in(all), payloads_in(left_over(all) + more), provider);
        if heard.error is None {
            lemma_left_over_is_open(all);
            lemma_chunks_are_heard_at_once(next, rest, provider);
            lemma_heard_behind(
                next.listening(),
                heard.deltas,
                payloads_in(left_over(all) + more),
                provider,
            );
            assert(heard.deltas + next.listening().deltas =~= heard.deltas);
        }
    }
}

/// Chunks that are each UTF-8 stand for what their bytes stand for at once.
proof fn lemma_decoded_chunks(chunks: Seq<Seq<u8>>)
    requires
        forall|i: int| 0 <= i < chunks.len() ==> vstd::utf8::valid_utf8(#[trigger] chunks[i]),
    ensures
        vstd::utf8::valid_utf8(chunks.flatten()),
        vstd::utf8::decode_utf8(chunks.flatten()) == crate::text::joined(decoded(chunks)),
    decreases chunks.len(),
{
    if chunks.len() > 0 {
        let first = chunks[0];
        let rest = chunks.drop_first();
        assert forall|i: int| 0 <= i < rest.len() implies vstd::utf8::valid_utf8(
            #[trigger] rest[i],
        ) by {
            assert(rest[i] == chunks[i + 1]);
        }
        lemma_decoded_chunks(rest);
        let (a, b) = (vstd::utf8::decode_utf8(first), crate::text::joined(decoded(rest)));
        crate::text::lemma_joined_cons(a, decoded(rest));
        assert(decoded(chunks) =~= seq![a] + decoded(rest));
        vstd::utf8::decode_utf8_encode_utf8(first);
        vstd::utf8::decode_utf8_encode_utf8(rest.flatten());
        crate::sentences::lemma_encode_add(a, b);
        assert(chunks.flatten() =~= first + rest.flatten());
        vstd::utf8::encode_utf8_valid_utf8(a + b);
        vstd::utf8::encode_utf8_decode_utf8(a + b);
    }
}

/// How the bytes of an answer are cut into chunks does not matter, as long as no
/// character is cut: the pieces that are reported, the error that ends the
/// answer and the translation that it gives are those of the bytes read at once.
pub proof fn law_answers_may_be_cut_between_characters(
    source: Seq<char>,
    a: Seq<Seq<u8>>,
    b: Seq<Seq<u8>>,
    provider: Seq<char>,
)
    requires
        forall|i: int| 0 <= i < a.len() ==> vstd::utf8::valid_utf8(#[trigger] a[i]),
        forall|i: int| 0 <= i < b.len() ==> vstd::utf8::valid_utf8(#[trigger] b[i]),
        a.flatten() == b.flatten(),
    ensures
        StreamState::fresh().hears_chunks(decoded(a), provider)
            == StreamState::fresh().hears_chunks(decoded(b), provider),
        answered(source, StreamState::fresh().hears_chunks(decoded(a), provider)) == answered(
            source,
            StreamState::fresh().hears_chunks(decoded(b), provider),
        ),
        StreamState::fresh().hears_chunks(decoded(a), provider) == StreamState::fresh().hears(
            vstd::utf8::decode_utf8(a.flatten()),
            provider,
        ),
{
    lemma_decoded_chunks(a);
    lemma_decoded_chunks(b);
    lemma_chunks_are_heard_at_once(StreamState::fresh(), decoded(a), provider);
    lemma_chunks_are_heard_at_once(StreamState::fresh(), decoded(b), provider);
}

/// What a chunk of an answer brought.
pub struct ChunkReport {
    /// The pieces of text, in order.
    pub deltas: Vec<String>,
    /// The error that ends the answer.
    pub error: Option<String>,
}

/// Reads an answer chunk by chunk.
pub struct StreamReader {
    buffer: String,
    translated: String,
    reason: Option<String>,
}

impl View for StreamReader {
    type V = StreamState;

    closed spec fn view(&self) -> StreamState {
        StreamState {
            buffer: self.buffer@,
            translated: self.translated@,
            reason: crate::response::opt_text(self.reason),
        }
    }
}

impl StreamReader {
    /// Nothing has arrived.
    pub fn new() -> (r: StreamReader)
        ensures
            r@ == StreamState::fresh(),
    {
        let reader = StreamReader {
            buffer: String::new(),
            translated: String::new(),
            reason: None,
        };
        assert(reader@.buffer =~= Seq::<char>::empty());
        assert(reader@.translated =~= Seq::<char>::empty());
        reader
    }

    /// Takes in a text, and gives the data of the events that are complete.
    pub fn take_events(&mut self, text: &str) -> (r: Vec<String>)
        ensures
            crate::text::views(r@) == payloads_in(old(self)@.buffer + text@),
            final(self)@ == (StreamState {
                buffer: left_over(old(self)@.buffer + text@),
                ..old(self)@
            }),
    {
        let ghost s = self.buffer@ + text@;
        self.buffer.append(text);
        let chars = to_chars(self.buffer.as_str());
        let mut found: Vec<String> = Vec::new();
        let mut start: usize = 0;
        let mut gap = find_gap(&chars, 0);
        assert(s.skip(0) =~= s);
        assert(crate::text::views(found@) + payloads_in(s) =~= payloads_in(s));
        while gap < chars.len()
            invariant
                start <= gap <= chars.len(),
                chars@ == s,
                gap < chars.len() ==> gap + 2 <= chars.len(),
                gap == first_gap(s, start as int),
                crate::text::views(found@) + payloads_in(s.skip(start as int)) == payloads_in(s),
                left_over(s.skip(start as int)) == left_over(s),
            decreases chars.len() - start,
        {
            let ghost rest = s.skip(start as int);
            let ghost g = first_gap(rest, 0);
            proof {
                lemma_gap_in_rest(s, start as int, 0);
                assert(gap == start + g);
            }
            let event = from_chars(&chars, start, gap);
            let mut data = event_payloads(event.as_str());
            let ghost before = crate::text::views(found@);
            let ghost here = crate::text::views(data@);
            let ghost (f, d) = (found@, data@);
            found.append(&mut data);
            proof {
                assert(event@ =~= rest.take(g));
                assert(rest.skip(g + 2) =~= s.skip(gap + 2));
                assert(found@ =~= f + d);
                assert(crate::text::views(found@) =~= before + here);
                let tail = payloads_in(s.skip(gap + 2));
                assert(before + (here + tail) =~= (before + here) + tail);
            }
            start = gap + 2;
            gap = find_gap(&chars, start);
        }
        proof {
            lemma_gap_in_rest(s, start as int, 0);
            assert(payloads_in(s.skip(start as int)) =~= Seq::<Seq<char>>::empty());
            assert(crate::text::views(found@) + Seq::<Seq<char>>::empty() =~= crate::text::views(
                found@,
            ));
        }
        self.buffer = from_chars(&chars, start, chars.len());
        assert(self.buffer@ =~= s.skip(start as int));
        found
    }

    /// Takes in a message, and gives the text that it adds.
    pub fn on_message(&mut self, message: &Json) -> (r: Option<String>)
        ensures
            final(self)@ == (StreamState {
                translated: old(self)@.translated + message_text(message.model()),
                reason: if message_reason(message.model()) is Some {
                    message_reason(message.model())
                } else {
                    old(self)@.reason
                },
                ..old(self)@
            }),
            match r {
                Some(text) => text@ == message_text(message.model()) && text@.len() > 0,
                None => message_text(message.model()).len() == 0,
            },
    {
        let choice = match message.get("choices") {
            Some(choices) => choices.first(),
            None => None,
        };
        let choice = match choice {
            Some(choice) => choice,
            None => {
                assert(self@.translated + Seq::<char>::empty() =~= self@.translated);
                return None;
            },
        };
        if let Some(value) = choice.get("finish_reason") {
            if let Some(reason) = value.as_str() {
                self.reason = Some(reason.to_string());
            }
        }
        let delta = match choice.get("delta") {
            Some(delta) => delta.get("content"),
            None => None,
        };
        let whole = match choice.get("message") {
            Some(message) => message.get("content"),
            None => None,
        };
        let found = if delta.is_some() {
            delta
        } else if whole.is_some() {
            whole
        } else {
            choice.get("text")
        };
        if let Some(value) = found {
            if let Some(text) = value.as_str() {
                if !text.is_empty() {
                    self.translated.append(text);
                    return Some(text.to_string());
                }
            }
        }
        assert(self@.translated + Seq::<char>::empty() =~= self@.translated);
        assert(message_text(message.model()) =~= Seq::<char>::empty());
        None
    }

    /// Takes in what parsing a message gave: the text that it adds, or the error
    /// that ends the answer.
    pub fn on_parsed(&mut self, parsed: Result<Json, String>, provider: &str) -> (r: Result<
        Option<String>,
        String,
    >)
        ensures
            match parsed {
                Ok(message) => {
                    &&& final(self)@ == (StreamState {
                        translated: old(self)@.translated + message_text(message.model()),
                        reason: if message_reason(message.model()) is Some {
                            message_reason(message.model())
                        } else {
                            old(self)@.reason
                        },
                        ..old(self)@
                    })
                    &&& r is Ok
                    &&& match r->Ok_0 {
                        Some(text) => text@ == message_text(message.model()) && text@.len() > 0,
                        None => message_text(message.model()).len() == 0,
                    }
                },
                Err(error) => {
                    &&& final(self)@ == old(self)@
                    &&& r is Err
                    &&& r->Err_0@ == unreadable_message(provider@, error@)
                },
            },
    {
        match parsed {
            Ok(message) => Ok(self.on_message(&message)),
            Err(error) => {
                let mut text = "Respuesta streaming invalida del proveedor ".to_string();
                text.append(provider);
                text.append(": ");
                text.append(error.as_str());
                Err(text)
            },
        }
    }

    /// Takes in a chunk, and gives the pieces of text that it brings and the
    /// error that ends the answer.
    pub fn push_chunk(&mut self, bytes: &[u8], provider: &str) -> (r: ChunkReport)
        ensures
            ({
                let chunk = crate::response::lossy_text(bytes@);
                let heard = old(self)@.hears(chunk, provider@);
                &&& final(self)@ == old(self)@.after(chunk, provider@)
                &&& crate::text::views(r.deltas@) == heard.deltas
                &&& crate::response::opt_text(r.error) == heard.error
            }),
            vstd::utf8::valid_utf8(bytes@) ==> crate::response::lossy_text(bytes@)
                == vstd::utf8::decode_utf8(bytes@),
    {
        let ghost first = self@.listening();
        let text = decode_lossy(bytes);
        let payloads = self.take_events(text.as_str());
        let ghost all = crate::text::views(payloads@);
        let ghost goal = heard_all(first, all, provider@);
        let ghost buffer = self@.buffer;
        let mut deltas: Vec<String> = Vec::new();
        let mut i: usize = 0;
        assert(all.skip(0) =~= all);
        assert(crate::text::views(deltas@) =~= Seq::<Seq<char>>::empty());
        while i < payloads.len()
            invariant
                i <= payloads.len(),
                all == crate::text::views(payloads@),
                self@.buffer == buffer,
                heard_all(
                    Heard {
                        translated: self@.translated,
                        reason: self@.reason,
                        deltas: crate::text::views(deltas@),
                        error: None,
                    },
                    all.skip(i as int),
                    provider@,
                ) == goal,
                goal == heard_all(old(self)@.listening(), all, provider@),
                all == payloads_in(old(self)@.buffer + crate::response::lossy_text(bytes@)),
                vstd::utf8::valid_utf8(bytes@) ==> crate::response::lossy_text(bytes@)
                    == vstd::utf8::decode_utf8(bytes@),
                buffer == left_over(old(self)@.buffer + crate::response::lossy_text(bytes@)),
            decreases payloads.len() - i,
        {
            assert(all.skip(i as int)[0] == payloads@[i as int]@);
            assert(all.skip(i as int).drop_first() =~= all.skip(i + 1));
            let ghost before = crate::text::views(deltas@);
            match self.on_parsed(read_json_text(payloads[i].as_str()), provider) {
                Ok(Some(delta)) => {
                    let ghost d = delta@;
                    deltas.push(delta);
                    assert(crate::text::views(deltas@) =~= before.push(d));
                },
                Ok(None) => {},
                Err(error) => {
                    return ChunkReport { deltas, error: Some(error) };
                },
            }
            i += 1;
        }
        assert(all.skip(all.len() as int) =~= Seq::<Seq<char>>::empty());
        ChunkReport { deltas, error: None }
    }

    /// The translation of a source, once the answer has ended.
    pub fn finish(&self, source: &str) -> (r: Result<String, String>)
        ensures
            crate::response::answer_view(r) == ended(source@, self@.translated, self@.reason),
    {
        if blank(self.translated.as_str()) {
            return Err("DeepSeek devolvio una traduccion vacia".to_string());
        }
        judge(source, trim(self.translated.as_str()), &self.reason)
    }
}

// ---------------------------------------------------------------------------
// What is promised of streams
// ---------------------------------------------------------------------------
/// The text that a message adds is that of its first choice, character by
/// character and with the white space around it: the content of its delta, or
/// of its message where there is none, or its own text where there is neither.
pub proof fn law_messages_add_their_text(
    message: JsonModel,
    choices: Seq<JsonModel>,
    inner: JsonModel,
    text: Seq<char>,
)
    requires
        message.at_key("choices"@) == Some(JsonModel::List(choices)),
        choices.len() > 0,
    ensures
        choices[0].at_key("delta"@) == Some(inner) && inner.at_key("content"@) == Some(
            JsonModel::Text(text),
        ) ==> message_text(message) == text,
        choices[0].at_key("delta"@) is None && choices[0].at_key("message"@) == Some(inner)
            && inner.at_key("content"@) == Some(JsonModel::Text(text)) ==> message_text(message)
            == text,
        choices[0].at_key("delta"@) is None && choices[0].at_key("message"@) is None
            && choices[0].at_key("text"@) == Some(JsonModel::Text(text)) ==> message_text(message)
            == text,
        choices[0].at_key("delta"@) == Some(inner) && inner.at_key("content"@) is None
            && choices[0].at_key("message"@) is None && choices[0].at_key("text"@) == Some(
            JsonModel::Text(text),
        ) ==> message_text(message) == text,
        choices[0].at_key("delta"@) == Some(inner) && inner.at_key("content"@) is None
            && choices[0].at_key("message"@) is None && choices[0].at_key("text"@) is None
            ==> message_text(message) == Seq::<char>::empty(),
        choices[0].at_key("delta"@) == Some(inner) && inner.at_key("content"@) == Some(
            JsonModel::Null,
        ) ==> message_text(message) == Seq::<char>::empty(),
{
}

/// Why an answer ended is said by the first choice of a message.
pub proof fn law_messages_say_why_an_answer_ended(
    message: JsonModel,
    choices: Seq<JsonModel>,
    reason: Seq<char>,
)
    requires
        message.at_key("choices"@) == Some(JsonModel::List(choices)),
        choices.len() > 0,
    ensures
        choices[0].at_key("finish_reason"@) == Some(JsonModel::Text(reason)) ==> message_reason(
            message,
        ) == Some(reason),
        choices[0].at_key("finish_reason"@) is None || choices[0].at_key("finish_reason"@) == Some(
            JsonModel::Null,
        ) ==> message_reason(message) is None,
{
}

/// A message without a choice adds nothing.
pub proof fn law_messages_without_choices_add_nothing(message: JsonModel)
    requires
        message.at_key("choices"@) is None || message.at_key("choices"@) == Some(
            JsonModel::List(Seq::empty()),
        ),
    ensures
        message_text(message) == Seq::<char>::empty(),
        message_reason(message) is None,
{
}

/// A message that is heard adds its text to what was translated and is reported,
/// exactly as it is, where it is not empty. One that cannot be read ends the
/// answer and changes nothing else.
pub proof fn law_messages_are_heard_as_they_are(h: Heard, payload: Seq<char>, provider: Seq<char>)
    ensures
        match crate::json::json_of_text(payload) {
            Ok(message) => {
                let after = heard_all(h, seq![payload], provider);
                &&& after.translated == h.translated + message_text(message)
                &&& message_text(message).len() > 0 ==> after.deltas == h.deltas.push(
                    message_text(message),
                )
                &&& message_text(message).len() == 0 ==> after.deltas == h.deltas
                &&& message_reason(message) is Some ==> after.reason == message_reason(message)
                &&& message_reason(message) is None ==> after.reason == h.reason
                &&& after.error == h.error
            },
            Err(error) => heard_all(h, seq![payload], provider) == (Heard {
                error: Some(
                    "Respuesta streaming invalida del proveedor "@ + provider + ": "@ + error,
                ),
                ..h
            }),
        },
        heard_all(h, Seq::empty(), provider) == h,
{
    assert(seq![payload].drop_first() =~= Seq::empty());
    assert(seq![payload][0] == payload);
    match crate::json::json_of_text(payload) {
        Ok(message) => {
            assert(heard_all(h.with(message), Seq::empty(), provider) == h.with(message));
        },
        Err(_) => {},
    }
}

/// Messages are heard in the order in which they come, and none after the one
/// that ends the answer.
pub proof fn law_messages_are_heard_in_order(
    h: Heard,
    a: Seq<Seq<char>>,
    b: Seq<Seq<char>>,
    provider: Seq<char>,
)
    requires
        h.error is None,
    ensures
        heard_all(h, a, provider).error is Some ==> heard_all(h, a + b, provider) == heard_all(
            h,
            a,
            provider,
        ),
        heard_all(h, a, provider).error is None ==> heard_all(h, a + b, provider) == heard_all(
            heard_all(h, a, provider),
            b,
            provider,
        ),
{
    lemma_heard_add(h, a, b, provider);
}

/// A text without line feeds and then two of them.
proof fn lemma_line_and_gap(line: Seq<char>, rest: Seq<char>)
    requires
        forall|i: int| 0 <= i < line.len() ==> #[trigger] line[i] != '\n',
    ensures
        ({
            let s = line + seq!['\n', '\n'] + rest;
            &&& first_gap(s, 0) == line.len()
            &&& s.take(line.len() as int) == line
            &&& s.skip(line.len() as int + 2) == rest
            &&& crate::text::split_on(line, '\n') == seq![line]
        }),
{
    let s = line + seq!['\n', '\n'] + rest;
    lemma_gap_at(s, 0, line.len() as int);
    assert(s.take(line.len() as int) =~= line);
    assert(s.skip(line.len() as int + 2) =~= rest);
    crate::text::law_texts_are_split_at_a_character(Seq::empty(), line, '\n');
}

proof fn lemma_gap_at(s: Seq<char>, from: int, at: int)
    requires
        0 <= from <= at,
        at + 1 < s.len(),
        s[at] == '\n',
        s[at + 1] == '\n',
        forall|i: int| from <= i < at ==> #[trigger] s[i] != '\n',
    ensures
        first_gap(s, from) == at,
    decreases at - from,
{
    if from < at {
        lemma_gap_at(s, from + 1, at);
    }
}

/// An event is a line that begins with `data:` and an empty line behind it. What
/// it brings is what stands behind `data:`, without the white space around it;
/// the mark of the end brings nothing, and neither does any other line.
pub proof fn law_events_bring_their_data(data: Seq<char>, line: Seq<char>, rest: Seq<char>)
    requires
        forall|i: int| 0 <= i < data.len() ==> #[trigger] data[i] != '\n',
        forall|i: int| 0 <= i < line.len() ==> #[trigger] line[i] != '\n',
        !crate::text::has_prefix(line, "data:"@),
    ensures
        crate::text::trimmed(data) != "[DONE]"@ ==> payloads_in(
            "data:"@ + data + seq!['\n', '\n'] + rest,
        ) == seq![crate::text::trimmed(data)] + payloads_in(rest),
        crate::text::trimmed(data) == "[DONE]"@ ==> payloads_in(
            "data:"@ + data + seq!['\n', '\n'] + rest,
        ) == payloads_in(rest),
        payloads_in(line + seq!['\n', '\n'] + rest) == payloads_in(rest),
        left_over("data:"@ + data + seq!['\n', '\n'] + rest) == left_over(rest),
        left_over(line + seq!['\n', '\n'] + rest) == left_over(rest),
{
    reveal_strlit("data:");
    let full = "data:"@ + data;
    assert forall|i: int| 0 <= i < full.len() implies #[trigger] full[i] != '\n' by {
        if i >= 5 {
            assert(full[i] == data[i - 5]);
        }
    }
    lemma_line_and_gap(full, rest);
    lemma_line_and_gap(line, rest);
    law_lines_bring_their_data(data, line, Seq::empty());
    assert(seq![full] + Seq::<Seq<char>>::empty() =~= seq![full]);
    assert(seq![line] + Seq::<Seq<char>>::empty() =~= seq![line]);
    assert(data_of(Seq::<Seq<char>>::empty()) =~= Seq::empty());
    let one = seq![crate::text::trimmed(data)];
    assert(one + Seq::<Seq<char>>::empty() =~= one);
    assert(Seq::<Seq<char>>::empty() + payloads_in(rest) =~= payloads_in(rest));
}

/// The lines of an event bring their data one after another, up to the mark of
/// the end.
pub proof fn law_lines_bring_their_data(data: Seq<char>, line: Seq<char>, lines: Seq<Seq<char>>)
    requires
        !crate::text::has_prefix(line, "data:"@),
    ensures
        crate::text::trimmed(data) != "[DONE]"@ ==> data_of(seq!["data:"@ + data] + lines) == seq![
            crate::text::trimmed(data),
        ] + data_of(lines),
        crate::text::trimmed(data) == "[DONE]"@ ==> data_of(seq!["data:"@ + data] + lines)
            == Seq::<Seq<char>>::empty(),
        data_of(seq![line] + lines) == data_of(lines),
        data_of(Seq::empty()) == Seq::<Seq<char>>::empty(),
{
    reveal_strlit("data:");
    let full = "data:"@ + data;
    crate::text::law_what_stands_in_a_text_is_found(Seq::empty(), "data:"@, data);
    assert(full.skip(5) =~= data);
    assert((seq![full] + lines).drop_first() =~= lines);
    assert((seq![line] + lines).drop_first() =~= lines);
}

/// An event that is not complete waits: nothing is read of it, and nothing of it
/// is lost.
pub proof fn law_unfinished_events_wait(s: Seq<char>)
    requires
        forall|i: int| 0 <= i < s.len() - 1 && s[i] == '\n' ==> #[trigger] s[i + 1] != '\n',
    ensures
        payloads_in(s) == Seq::<Seq<char>>::empty(),
        left_over(s) == s,
{
    lemma_no_gap(s, 0);
}

proof fn lemma_no_gap(s: Seq<char>, from: int)
    requires
        0 <= from <= s.len(),
        forall|i: int| 0 <= i < s.len() - 1 && s[i] == '\n' ==> #[trigger] s[i + 1] != '\n',
    ensures
        first_gap(s, from) == s.len(),
    decreases s.len() - from,
{
    if from + 1 < s.len() {
        assert(s[from] == '\n' ==> s[from + 1] != '\n');
        lemma_no_gap(s, from + 1);
    }
}

/// The translation of an answer that has ended is its text without the white
/// space around it. It is refused where it was cut short and where it does not
/// fit its source, and an answer without text is refused too.
pub proof fn law_ended_answers_give_their_text(
    source: Seq<char>,
    front: Seq<char>,
    core: Seq<char>,
    back: Seq<char>,
    reason: Option<Seq<char>>,
)
    requires
        forall|i: int| 0 <= i < front.len() ==> crate::text::is_white_space(#[trigger] front[i]),
        forall|i: int| 0 <= i < back.len() ==> crate::text::is_white_space(#[trigger] back[i]),
        core.len() > 0,
        !crate::text::is_white_space(core[0]),
        !crate::text::is_white_space(core.last()),
    ensures
        reason == Some("length"@) ==> ended(source, front + core + back, reason) == Err::<
            Seq<char>,
            Seq<char>,
        >("TRUNCATED_BY_LENGTH"@),
        reason != Some("length"@) ==> match crate::quality::translation_fault(source, core) {
            None => ended(source, front + core + back, reason) == Ok::<Seq<char>, Seq<char>>(core),
            Some(fault) => ended(source, front + core + back, reason) == Err::<
                Seq<char>,
                Seq<char>,
            >(fault),
        },
        ended(source, front, reason) == Err::<Seq<char>, Seq<char>>(
            "DeepSeek devolvio una traduccion vacia"@,
        ),
{
    crate::text::law_trimming_takes_white_space_alone(front, core, back);
    crate::text::lemma_trimmed_empty(front);
}

/// A chunk continues the answer where the chunk before left off: what waited is
/// read together with it, what it brings is added to the text, and the pieces
/// that are reported of it are exactly what is added.
pub proof fn law_chunks_continue_the_answer(
    s: StreamState,
    chunk: Seq<char>,
    provider: Seq<char>,
)
    ensures
        s.after(chunk, provider).translated == s.translated + crate::text::joined(
            s.hears(chunk, provider).deltas,
        ),
        s.after(chunk, provider).translated == s.hears(chunk, provider).translated,
        s.after(chunk, provider).reason == s.hears(chunk, provider).reason,
        s.after(chunk, provider).buffer == left_over(s.buffer + chunk),
        s.hears(chunk, provider) == heard_all(
            Heard {
                translated: s.translated,
                reason: s.reason,
                deltas: Seq::empty(),
                error: None,
            },
            payloads_in(s.buffer + chunk),
            provider,
        ),
        StreamState::fresh().buffer == Seq::<char>::empty(),
        StreamState::fresh().translated == Seq::<char>::empty(),
        StreamState::fresh().reason is None,
{
    assert(s.translated + crate::text::joined(Seq::<Seq<char>>::empty()) =~= s.translated);
    law_reported_pieces_add_up(
        s.listening(),
        s.translated,
        payloads_in(s.buffer + chunk),
        provider,
    );
}

/// Where the delta of a choice has no content its message counts, and where that
/// has none either, the text of the choice.
pub proof fn law_messages_fall_back(
    message: JsonModel,
    choices: Seq<JsonModel>,
    delta: JsonModel,
    inner: JsonModel,
    text: Seq<char>,
)
    requires
        message.at_key("choices"@) == Some(JsonModel::List(choices)),
        choices.len() > 0,
        choices[0].at_key("delta"@) is None || choices[0].at_key("delta"@) == Some(delta)
            && delta.at_key("content"@) is None,
    ensures
        choices[0].at_key("message"@) == Some(inner) && inner.at_key("content"@) == Some(
            JsonModel::Text(text),
        ) ==> message_text(message) == text,
        (choices[0].at_key("message"@) is None || choices[0].at_key("message"@) == Some(inner)
            && inner.at_key("content"@) is None) && choices[0].at_key("text"@) == Some(
            JsonModel::Text(text),
        ) ==> message_text(message) == text,
        (choices[0].at_key("message"@) is None || choices[0].at_key("message"@) == Some(inner)
            && inner.at_key("content"@) is None) && choices[0].at_key("text"@) is None
            ==> message_text(message) == Seq::<char>::empty(),
{
}

} // verus!
