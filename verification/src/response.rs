//! Reading the answers of the providers.

use crate::json::{read_json, Json, JsonModel};
use crate::quality::validate_translation_output;
use crate::text::{blank, same_text, to_chars, trim};
use vstd::prelude::*;
use vstd::string::*;

verus! {

broadcast use vstd::string::group_string_axioms;

/// A text that may be missing, as characters.
pub open spec fn opt_text(s: Option<String>) -> Option<Seq<char>> {
    match s {
        Some(t) => Some(t@),
        None => None,
    }
}

// ---------------------------------------------------------------------------
// Previews of bodies that cannot be read
// ---------------------------------------------------------------------------
/// The text that bytes stand for, with a replacement character wherever they
/// are not UTF-8.
pub uninterp spec fn lossy_text(bytes: Seq<u8>) -> Seq<char>;

/// `String::from_utf8_lossy` gives the text that bytes stand for, and the bytes'
/// own characters where they are UTF-8. Which bytes a replacement character
/// stands for is left unsaid.
#[verifier::external_body]
pub(crate) fn decode_lossy(bytes: &[u8]) -> (r: String)
    ensures
        r@ == lossy_text(bytes@),
        vstd::utf8::valid_utf8(bytes@) ==> r@ == vstd::utf8::decode_utf8(bytes@),
{
    String::from_utf8_lossy(bytes).into_owned()
}

/// Line feeds written as a backslash and the letter n.
pub open spec fn escaped(s: Seq<char>) -> Seq<char>
    decreases s.len(),
{
    if s.len() == 0 {
        Seq::empty()
    } else {
        escaped(s.drop_last()) + if s.last() == '\n' {
            seq!['\\', 'n']
        } else {
            seq![s.last()]
        }
    }
}

/// The first characters of a text.
pub open spec fn at_most(s: Seq<char>, max_chars: nat) -> Seq<char> {
    if s.len() <= max_chars {
        s
    } else {
        s.take(max_chars as int)
    }
}

/// The first characters of a text, on one line.
pub fn text_preview(text: &str, max_chars: usize) -> (r: String)
    ensures
        r@ == escaped(at_most(text@, max_chars as nat)),
{
    let chars = to_chars(text);
    let end = if chars.len() <= max_chars {
        chars.len()
    } else {
        max_chars
    };
    let mut out = String::new();
    let mut i: usize = 0;
    assert(escaped(text@.take(0)) =~= Seq::<char>::empty());
    while i < end
        invariant
            i <= end <= chars.len(),
            chars@ == text@,
            out@ == escaped(text@.take(i as int)),
        decreases end - i,
    {
        assert(text@.take(i + 1).drop_last() =~= text@.take(i as int));
        if chars[i] == '\n' {
            out.push('\\');
            out.push('n');
            assert(out@ =~= escaped(text@.take(i as int)) + seq!['\\', 'n']);
        } else {
            out.push(chars[i]);
            assert(out@ =~= escaped(text@.take(i as int)) + seq![chars@[i as int]]);
        }
        i += 1;
    }
    assert(text@.take(end as int) =~= at_most(text@, max_chars as nat));
    out
}

/// The first characters of a body, on one line.
pub fn safe_body_preview(bytes: &[u8], max_chars: usize) -> (r: String)
    ensures
        r@ == escaped(at_most(lossy_text(bytes@), max_chars as nat)),
        vstd::utf8::valid_utf8(bytes@) ==> r@ == escaped(
            at_most(vstd::utf8::decode_utf8(bytes@), max_chars as nat),
        ),
{
    let text = decode_lossy(bytes);
    text_preview(text.as_str(), max_chars)
}

// ---------------------------------------------------------------------------
// Completions
// ---------------------------------------------------------------------------
/// The characters of a string without the white space around them, where there
/// are any.
pub open spec fn solid_text(value: Option<JsonModel>) -> Option<Seq<char>> {
    match value {
        Some(json) => match json.characters() {
            Some(text) => if crate::text::trimmed(text).len() > 0 {
                Some(crate::text::trimmed(text))
            } else {
                None
            },
            None => None,
        },
        None => None,
    }
}

fn solid(value: Option<&Json>) -> (r: Option<String>)
    ensures
        opt_text(r) == solid_text(crate::json::opt_model(value)),
{
    match value {
        Some(json) => match json.as_str() {
            Some(text) => if blank(text) {
                None
            } else {
                Some(trim(text))
            },
            None => None,
        },
        None => None,
    }
}

/// The value under one key inside the value under another.
pub open spec fn nested(json: JsonModel, outer: Seq<char>, inner: Seq<char>) -> Option<JsonModel> {
    match json.at_key(outer) {
        Some(value) => value.at_key(inner),
        None => None,
    }
}

/// What an item of a content list adds: its text, or itself where it is a
/// string.
pub open spec fn item_text(item: JsonModel) -> Seq<char> {
    let inside = match item.at_key("text"@) {
        Some(value) => value.characters(),
        None => None,
    };
    match inside {
        Some(text) => text,
        None => match item.characters() {
            Some(text) => text,
            None => Seq::empty(),
        },
    }
}

/// What the items of a content list add up to.
pub open spec fn items_text(items: Seq<JsonModel>) -> Seq<char>
    decreases items.len(),
{
    if items.len() == 0 {
        Seq::empty()
    } else {
        items_text(items.drop_last()) + item_text(items.last())
    }
}

/// The text of a choice: its own, that of its message, or that of the items of
/// its message; without white space around it, and none where nothing is left.
pub open spec fn choice_text(choice: JsonModel) -> Option<Seq<char>> {
    let content = nested(choice, "message"@, "content"@);
    if solid_text(choice.at_key("text"@)) is Some {
        solid_text(choice.at_key("text"@))
    } else if solid_text(content) is Some {
        solid_text(content)
    } else {
        match content {
            Some(json) => match json.items() {
                Some(items) => if crate::text::trimmed(items_text(items)).len() > 0 {
                    Some(crate::text::trimmed(items_text(items)))
                } else {
                    None
                },
                None => None,
            },
            None => None,
        }
    }
}

/// The text of a choice.
pub fn extract_text_from_choice(choice: &Json) -> (r: Option<String>)
    ensures
        opt_text(r) == choice_text(choice.model()),
{
    let own = solid(choice.get("text"));
    if own.is_some() {
        return own;
    }
    let content = match choice.get("message") {
        Some(message) => message.get("content"),
        None => None,
    };
    let direct = solid(content);
    if direct.is_some() {
        return direct;
    }
    let items = match content {
        Some(json) => match json.as_list() {
            Some(items) => items,
            None => {
                return None;
            },
        },
        None => {
            return None;
        },
    };
    let ghost all = crate::json::models(items@);
    let mut joined = String::new();
    let mut i: usize = 0;
    assert(items_text(all.take(0)) =~= Seq::<char>::empty());
    while i < items.len()
        invariant
            i <= items.len(),
            all == crate::json::models(items@),
            joined@ == items_text(all.take(i as int)),
        decreases items.len() - i,
    {
        assert(all.take(i + 1).drop_last() =~= all.take(i as int));
        assert(all[i as int] == items@[i as int].model());
        let inside = match items[i].get("text") {
            Some(value) => value.as_str(),
            None => None,
        };
        match inside {
            Some(text) => joined.append(text),
            None => match items[i].as_str() {
                Some(text) => joined.append(text),
                None => {
                    assert(joined@ + Seq::<char>::empty() =~= joined@);
                },
            },
        }
        i += 1;
    }
    assert(all.take(all.len() as int) =~= all);
    if blank(joined.as_str()) {
        None
    } else {
        Some(trim(joined.as_str()))
    }
}

/// What a chat completion says: its text and why it ended, or an error.
pub open spec fn completion(payload: JsonModel) -> Result<(Seq<char>, Option<Seq<char>>), Seq<char>> {
    let choice = match payload.at_key("choices"@) {
        Some(choices) => choices.first_item(),
        None => None,
    };
    match choice {
        None => Err("DeepSeek devolvio una respuesta sin opciones"@),
        Some(choice) => match choice_text(choice) {
            None => Err("DeepSeek devolvio una traduccion vacia"@),
            Some(text) => Ok(
                (
                    text,
                    match choice.at_key("finish_reason"@) {
                        Some(reason) => reason.characters(),
                        None => None,
                    },
                ),
            ),
        },
    }
}

/// A completion, as characters.
pub open spec fn completion_view(r: Result<(String, Option<String>), String>) -> Result<
    (Seq<char>, Option<Seq<char>>),
    Seq<char>,
> {
    match r {
        Ok((text, reason)) => Ok((text@, opt_text(reason))),
        Err(error) => Err(error@),
    }
}

/// Reads the text of a chat completion and why it ended.
pub fn read_completion(payload: &Json) -> (r: Result<(String, Option<String>), String>)
    ensures
        completion_view(r) == completion(payload.model()),
{
    let choice = match payload.get("choices") {
        Some(choices) => choices.first(),
        None => None,
    };
    match choice {
        None => Err("DeepSeek devolvio una respuesta sin opciones".to_string()),
        Some(choice) => {
            let reason = match choice.get("finish_reason") {
                Some(value) => match value.as_str() {
                    Some(text) => Some(text.to_string()),
                    None => None,
                },
                None => None,
            };
            match extract_text_from_choice(choice) {
                None => Err("DeepSeek devolvio una traduccion vacia".to_string()),
                Some(text) => Ok((text, reason)),
            }
        },
    }
}

/// The error of a body that is no JSON.
pub open spec fn unreadable_body(error: Seq<char>, preview: Seq<char>) -> Seq<char> {
    "Respuesta invalida de DeepSeek: "@ + error + " (preview="@ + preview + ")"@
}

/// What a body says, from what parsing it gives and from its text.
pub open spec fn body_completion(
    parsed: Result<JsonModel, Seq<char>>,
    text: Seq<char>,
) -> Result<(Seq<char>, Option<Seq<char>>), Seq<char>> {
    match parsed {
        Ok(payload) => completion(payload),
        Err(error) => Err(unreadable_body(error, escaped(at_most(text, 280)))),
    }
}

/// What a body says, from what parsing it gives and from its text.
pub fn interpret_body(parsed: Result<Json, String>, text: &str) -> (r: Result<
    (String, Option<String>),
    String,
>)
    ensures
        completion_view(r) == body_completion(crate::json::parse_model(parsed), text@),
{
    match parsed {
        Ok(payload) => read_completion(&payload),
        Err(error) => {
            let preview = text_preview(text, 280);
            let mut message = "Respuesta invalida de DeepSeek: ".to_string();
            message.append(error.as_str());
            message.append(" (preview=");
            message.append(preview.as_str());
            message.append(")");
            Err(message)
        },
    }
}

/// Reads the body of a chat completion: its text and why it ended, or an error.
pub fn extract_text_and_finish_reason(bytes: &[u8]) -> (r: Result<
    (String, Option<String>),
    String,
>)
    ensures
        completion_view(r) == body_completion(
            crate::json::json_of_bytes(bytes@),
            lossy_text(bytes@),
        ),
        vstd::utf8::valid_utf8(bytes@) ==> completion_view(r) == body_completion(
            crate::json::json_of_bytes(bytes@),
            vstd::utf8::decode_utf8(bytes@),
        ),
{
    match read_json(bytes) {
        Ok(payload) => interpret_body(Ok(payload), ""),
        Err(error) => interpret_body(Err(error), decode_lossy(bytes).as_str()),
    }
}

// ---------------------------------------------------------------------------
// Answers
// ---------------------------------------------------------------------------
/// An answer, as characters.
pub open spec fn answer_view(r: Result<String, String>) -> Result<Seq<char>, Seq<char>> {
    match r {
        Ok(text) => Ok(text@),
        Err(error) => Err(error@),
    }
}

/// What becomes of a translation: it is refused where it was cut short or does
/// not fit its source.
pub open spec fn judged(source: Seq<char>, translated: Seq<char>, reason: Option<Seq<char>>) -> Result<
    Seq<char>,
    Seq<char>,
> {
    if reason == Some("length"@) {
        Err("TRUNCATED_BY_LENGTH"@)
    } else {
        match crate::quality::translation_fault(source, translated) {
            Some(fault) => Err(fault),
            None => Ok(translated),
        }
    }
}

/// Decides what becomes of a translation.
pub fn judge(source: &str, translated: String, reason: &Option<String>) -> (r: Result<
    String,
    String,
>)
    ensures
        answer_view(r) == judged(source@, translated@, opt_text(*reason)),
{
    if let Some(text) = reason {
        if same_text(text.as_str(), "length") {
            return Err("TRUNCATED_BY_LENGTH".to_string());
        }
    }
    match validate_translation_output(source, translated.as_str()) {
        Ok(()) => Ok(translated),
        Err(fault) => Err(fault),
    }
}

/// What becomes of a completion.
pub open spec fn judged_completion(
    source: Seq<char>,
    found: Result<(Seq<char>, Option<Seq<char>>), Seq<char>>,
) -> Result<Seq<char>, Seq<char>> {
    match found {
        Ok((text, reason)) => judged(source, text, reason),
        Err(error) => Err(error),
    }
}

/// Reads the translation of a source from the body of a chat completion.
pub fn translation_from_body(source: &str, bytes: &[u8]) -> (r: Result<String, String>)
    ensures
        answer_view(r) == judged_completion(
            source@,
            body_completion(crate::json::json_of_bytes(bytes@), lossy_text(bytes@)),
        ),
        vstd::utf8::valid_utf8(bytes@) ==> answer_view(r) == judged_completion(
            source@,
            body_completion(
                crate::json::json_of_bytes(bytes@),
                vstd::utf8::decode_utf8(bytes@),
            ),
        ),
{
    match extract_text_and_finish_reason(bytes) {
        Ok((text, reason)) => judge(source, text, &reason),
        Err(error) => Err(error),
    }
}

/// An answer that was cut short is never taken for a translation.
pub proof fn law_truncated_answers_are_refused(source: Seq<char>, text: Seq<char>)
    ensures
        judged(source, text, Some("length"@)) == Err::<Seq<char>, Seq<char>>("TRUNCATED_BY_LENGTH"@),
{
}

/// A translation that is taken is the answer's own text and fits its source.
pub proof fn law_taken_translations_fit(
    source: Seq<char>,
    text: Seq<char>,
    reason: Option<Seq<char>>,
    taken: Seq<char>,
)
    requires
        judged(source, text, reason) == Ok::<Seq<char>, Seq<char>>(taken),
    ensures
        taken == text,
        crate::quality::translation_fault(source, text) is None,
        crate::text::trimmed(text).len() > 0,
        reason != Some("length"@),
{
}

// ---------------------------------------------------------------------------
// Gemini
// ---------------------------------------------------------------------------
/// What the parts of an answer add up to.
pub open spec fn parts_text(parts: Seq<JsonModel>) -> Seq<char>
    decreases parts.len(),
{
    if parts.len() == 0 {
        Seq::empty()
    } else {
        parts_text(parts.drop_last()) + match parts.last().at_key("text"@) {
            Some(value) => match value.characters() {
                Some(text) => text,
                None => Seq::empty(),
            },
            None => Seq::empty(),
        }
    }
}

/// The parts of the first candidate of an answer.
pub open spec fn candidate_parts(payload: JsonModel) -> Option<Seq<JsonModel>> {
    match payload.at_key("candidates"@) {
        Some(candidates) => match candidates.first_item() {
            Some(candidate) => match nested(candidate, "content"@, "parts"@) {
                Some(parts) => parts.items(),
                None => None,
            },
            None => None,
        },
        None => None,
    }
}

/// The text of an answer, without white space around it; an error where nothing
/// is left.
pub open spec fn gemini_text(payload: JsonModel) -> Result<Seq<char>, Seq<char>> {
    let text = match candidate_parts(payload) {
        Some(parts) => parts_text(parts),
        None => Seq::empty(),
    };
    if crate::text::trimmed(text).len() == 0 {
        Err("Gemini devolvio una traduccion vacia"@)
    } else {
        Ok(crate::text::trimmed(text))
    }
}

fn find_parts(payload: &Json) -> (r: Option<&Vec<Json>>)
    ensures
        match r {
            Some(parts) => candidate_parts(payload.model()) == Some(crate::json::models(parts@)),
            None => candidate_parts(payload.model()) is None,
        },
{
    match payload.get("candidates") {
        Some(candidates) => match candidates.first() {
            Some(candidate) => match candidate.get("content") {
                Some(content) => match content.get("parts") {
                    Some(parts) => parts.as_list(),
                    None => None,
                },
                None => None,
            },
            None => None,
        },
        None => None,
    }
}

/// Reads the text of an answer of Gemini.
pub fn gemini_output(payload: &Json) -> (r: Result<String, String>)
    ensures
        answer_view(r) == gemini_text(payload.model()),
{
    let mut output = String::new();
    let ghost text = match candidate_parts(payload.model()) {
        Some(parts) => parts_text(parts),
        None => Seq::empty(),
    };
    if let Some(parts) = find_parts(payload) {
        let ghost all = crate::json::models(parts@);
        let mut i: usize = 0;
        assert(parts_text(all.take(0)) =~= Seq::<char>::empty());
        while i < parts.len()
            invariant
                i <= parts.len(),
                all == crate::json::models(parts@),
                output@ == parts_text(all.take(i as int)),
            decreases parts.len() - i,
        {
            assert(all.take(i + 1).drop_last() =~= all.take(i as int));
            assert(all[i as int] == parts@[i as int].model());
            assert(output@ + Seq::<char>::empty() =~= output@);
            if let Some(value) = parts[i].get("text") {
                if let Some(piece) = value.as_str() {
                    output.append(piece);
                }
            }
            i += 1;
        }
        assert(all.take(all.len() as int) =~= all);
    }
    assert(output@ =~= text);
    if blank(output.as_str()) {
        Err("Gemini devolvio una traduccion vacia".to_string())
    } else {
        Ok(trim(output.as_str()))
    }
}

/// Reads the translation of a source from an answer of Gemini.
pub fn translation_from_gemini(source: &str, payload: &Json) -> (r: Result<String, String>)
    ensures
        answer_view(r) == (match gemini_text(payload.model()) {
            Ok(text) => judged(source@, text, None),
            Err(error) => Err(error),
        }),
{
    match gemini_output(payload) {
        Ok(text) => judge(source, text, &None),
        Err(error) => Err(error),
    }
}

// ---------------------------------------------------------------------------
// What is promised of answers
// ---------------------------------------------------------------------------
/// A preview is the beginning of a text, with every line feed written as a
/// backslash and an `n` and every other character as it is.
pub proof fn law_previews_are_on_one_line(a: Seq<char>, c: char, b: Seq<char>, max: nat)
    ensures
        escaped(a + seq![c] + b) == escaped(a) + (if c == '\n' {
            seq!['\\', 'n']
        } else {
            seq![c]
        }) + escaped(b),
        escaped(Seq::empty()) == Seq::<char>::empty(),
        at_most(a, max).len() <= max,
        a.len() <= max ==> at_most(a, max) == a,
        a.len() > max ==> at_most(a, max).len() == max && a == at_most(a, max) + a.skip(
            max as int,
        ),
    decreases b.len(),
{
    assert(a.len() > max ==> a =~= a.take(max as int) + a.skip(max as int));
    let one = if c == '\n' {
        seq!['\\', 'n']
    } else {
        seq![c]
    };
    if b.len() == 0 {
        assert(a + seq![c] + b =~= a.push(c));
        assert(a.push(c).drop_last() =~= a);
        assert(escaped(a) + one + escaped(b) =~= escaped(a) + one);
    } else {
        law_previews_are_on_one_line(a, c, b.drop_last(), max);
        assert((a + seq![c] + b).drop_last() =~= a + seq![c] + b.drop_last());
        let last = if b.last() == '\n' {
            seq!['\\', 'n']
        } else {
            seq![b.last()]
        };
        assert(escaped(a) + one + escaped(b.drop_last()) + last =~= escaped(a) + one + (escaped(
            b.drop_last(),
        ) + last));
    }
}

/// The text of a choice is its own or, where it has none, that of its message,
/// without the white space around it and with everything between.
pub proof fn law_choices_give_their_text(
    choice: JsonModel,
    message: JsonModel,
    front: Seq<char>,
    core: Seq<char>,
    back: Seq<char>,
)
    requires
        forall|i: int| 0 <= i < front.len() ==> crate::text::is_white_space(#[trigger] front[i]),
        forall|i: int| 0 <= i < back.len() ==> crate::text::is_white_space(#[trigger] back[i]),
        core.len() > 0,
        !crate::text::is_white_space(core[0]),
        !crate::text::is_white_space(core.last()),
    ensures
        choice.at_key("text"@) == Some(JsonModel::Text(front + core + back)) ==> choice_text(choice)
            == Some(core),
        (choice.at_key("text"@) is None || choice.at_key("text"@) == Some(JsonModel::Null)
            || choice.at_key("text"@) == Some(JsonModel::Text(front))) && choice.at_key("message"@) == Some(message) && message.at_key("content"@) == Some(
            JsonModel::Text(front + core + back),
        ) ==> choice_text(choice) == Some(core),
        choice.at_key("text"@) is None && choice.at_key("message"@) is None ==> choice_text(choice)
            is None,
        choice.at_key("text"@) is None && choice.at_key("message"@) == Some(message)
            && message.at_key("content"@) == Some(JsonModel::Text(front)) ==> choice_text(choice)
            is None,
{
    crate::text::law_trimming_takes_white_space_alone(front, core, back);
    crate::text::lemma_trimmed_empty(front);
}

/// Where the content of a message is a list, the texts of its items follow one
/// another in order, with nothing between them.
pub proof fn law_listed_contents_are_joined(
    choice: JsonModel,
    message: JsonModel,
    items: Seq<JsonModel>,
    texts: Seq<Seq<char>>,
)
    requires
        choice.at_key("text"@) is None,
        choice.at_key("message"@) == Some(message),
        message.at_key("content"@) == Some(JsonModel::List(items)),
        items.len() == texts.len(),
        forall|i: int|
            0 <= i < items.len() ==> (#[trigger] items[i]).at_key("text"@) == Some(
                JsonModel::Text(texts[i]),
            ) || items[i] == JsonModel::Text(texts[i]) || (items[i].at_key("text"@) is None
                && items[i].characters() is None && texts[i] == Seq::<char>::empty()),
    ensures
        crate::text::trimmed(crate::text::joined(texts)).len() > 0 ==> choice_text(choice) == Some(
            crate::text::trimmed(crate::text::joined(texts)),
        ),
        crate::text::trimmed(crate::text::joined(texts)).len() == 0 ==> choice_text(choice) is None,
{
    lemma_items_text(items, texts);
}

proof fn lemma_items_text(items: Seq<JsonModel>, texts: Seq<Seq<char>>)
    requires
        items.len() == texts.len(),
        forall|i: int|
            0 <= i < items.len() ==> (#[trigger] items[i]).at_key("text"@) == Some(
                JsonModel::Text(texts[i]),
            ) || items[i] == JsonModel::Text(texts[i]) || (items[i].at_key("text"@) is None
                && items[i].characters() is None && texts[i] == Seq::<char>::empty()),
    ensures
        items_text(items) == crate::text::joined(texts),
    decreases items.len(),
{
    if items.len() > 0 {
        let (a, b) = (items.drop_last(), texts.drop_last());
        assert forall|i: int| 0 <= i < a.len() implies (#[trigger] a[i]).at_key("text"@) == Some(
            JsonModel::Text(b[i]),
        ) || a[i] == JsonModel::Text(b[i]) || (a[i].at_key("text"@) is None && a[i].characters()
            is None && b[i] == Seq::<char>::empty()) by {
            assert(a[i] == items[i]);
        }
        lemma_items_text(a, b);
        assert(items.last() == items[items.len() - 1]);
    }
}

/// A completion is its first choice: the text of it, and why it ended.
pub proof fn law_completions_are_their_first_choice(
    payload: JsonModel,
    choices: Seq<JsonModel>,
    reason: Seq<char>,
)
    ensures
        payload.at_key("choices"@) == Some(JsonModel::List(choices)) && choices.len() > 0
            ==> match choice_text(choices[0]) {
            None => completion(payload) == Err::<(Seq<char>, Option<Seq<char>>), Seq<char>>(
                "DeepSeek devolvio una traduccion vacia"@,
            ),
            Some(text) => {
                &&& completion(payload) is Ok
                &&& (completion(payload)->Ok_0).0 == text
                &&& choices[0].at_key("finish_reason"@) == Some(JsonModel::Text(reason)) ==> (
                completion(payload)->Ok_0).1 == Some(reason)
                &&& choices[0].at_key("finish_reason"@) is None || choices[0].at_key(
                    "finish_reason"@,
                ) == Some(JsonModel::Null) ==> (completion(payload)->Ok_0).1 is None
            },
        },
        payload.at_key("choices"@) is None || payload.at_key("choices"@) == Some(
            JsonModel::List(Seq::empty()),
        ) ==> completion(payload) == Err::<(Seq<char>, Option<Seq<char>>), Seq<char>>(
            "DeepSeek devolvio una respuesta sin opciones"@,
        ),
{
}

/// A body that is no JSON is refused with the error and the beginning of the
/// body; any other gives what its completion does.
pub proof fn law_bodies_give_their_completions(
    payload: JsonModel,
    error: Seq<char>,
    text: Seq<char>,
)
    ensures
        body_completion(Ok(payload), text) == completion(payload),
        body_completion(Err(error), text) == Err::<(Seq<char>, Option<Seq<char>>), Seq<char>>(
            "Respuesta invalida de DeepSeek: "@ + error + " (preview="@ + escaped(
                at_most(text, 280),
            ) + ")"@,
        ),
{
}

/// A translation is taken exactly as it came, or refused: where it was cut
/// short, and where it does not fit its source, with the fault as the error.
pub proof fn law_translations_are_taken_as_they_came(
    source: Seq<char>,
    text: Seq<char>,
    reason: Option<Seq<char>>,
    error: Seq<char>,
)
    ensures
        reason != Some("length"@) && crate::quality::translation_fault(source, text) is None
            ==> judged(source, text, reason) == Ok::<Seq<char>, Seq<char>>(text),
        reason != Some("length"@) && crate::quality::translation_fault(source, text) == Some(error)
            ==> judged(source, text, reason) == Err::<Seq<char>, Seq<char>>(error),
        reason == Some("length"@) ==> judged(source, text, reason) == Err::<Seq<char>, Seq<char>>(
            "TRUNCATED_BY_LENGTH"@,
        ),
        judged_completion(source, Ok((text, reason))) == judged(source, text, reason),
        judged_completion(source, Err(error)) == Err::<Seq<char>, Seq<char>>(error),
{
}

/// An answer of Gemini is the texts of the parts of its first candidate, one
/// after another and with nothing between them, without the white space around
/// the whole; one without text is refused.
pub proof fn law_gemini_answers_are_their_parts(
    payload: JsonModel,
    candidates: Seq<JsonModel>,
    content: JsonModel,
    parts: Seq<JsonModel>,
    texts: Seq<Seq<char>>,
)
    requires
        payload.at_key("candidates"@) == Some(JsonModel::List(candidates)),
        candidates.len() > 0,
        candidates[0].at_key("content"@) == Some(content),
        content.at_key("parts"@) == Some(JsonModel::List(parts)),
        parts.len() == texts.len(),
        forall|i: int|
            0 <= i < parts.len() ==> (#[trigger] parts[i]).at_key("text"@) == Some(
                JsonModel::Text(texts[i]),
            ) || (parts[i].at_key("text"@) is None && texts[i] == Seq::<char>::empty()),
    ensures
        crate::text::trimmed(crate::text::joined(texts)).len() > 0 ==> gemini_text(payload) == Ok::<
            Seq<char>,
            Seq<char>,
        >(crate::text::trimmed(crate::text::joined(texts))),
        crate::text::trimmed(crate::text::joined(texts)).len() == 0 ==> gemini_text(payload)
            == Err::<Seq<char>, Seq<char>>("Gemini devolvio una traduccion vacia"@),
{
    lemma_parts_text(parts, texts);
}

proof fn lemma_parts_text(parts: Seq<JsonModel>, texts: Seq<Seq<char>>)
    requires
        parts.len() == texts.len(),
        forall|i: int|
            0 <= i < parts.len() ==> (#[trigger] parts[i]).at_key("text"@) == Some(
                JsonModel::Text(texts[i]),
            ) || (parts[i].at_key("text"@) is None && texts[i] == Seq::<char>::empty()),
    ensures
        parts_text(parts) == crate::text::joined(texts),
    decreases parts.len(),
{
    if parts.len() > 0 {
        let (a, b) = (parts.drop_last(), texts.drop_last());
        assert forall|i: int| 0 <= i < a.len() implies (#[trigger] a[i]).at_key("text"@) == Some(
            JsonModel::Text(b[i]),
        ) || (a[i].at_key("text"@) is None && b[i] == Seq::<char>::empty()) by {
            assert(a[i] == parts[i]);
        }
        lemma_parts_text(a, b);
        assert(parts.last() == parts[parts.len() - 1]);
    }
}

/// An answer of Gemini without a candidate is refused.
pub proof fn law_gemini_answers_without_candidates_are_refused(payload: JsonModel)
    requires
        payload.at_key("candidates"@) is None || payload.at_key("candidates"@) == Some(
            JsonModel::List(Seq::empty()),
        ),
    ensures
        gemini_text(payload) == Err::<Seq<char>, Seq<char>>("Gemini devolvio una traduccion vacia"@),
{
    crate::text::lemma_trimmed_empty(Seq::empty());
}

/// Answers and completions stand for what they hold.
pub proof fn law_answers_stand_for_what_they_hold(
    text: String,
    reason: String,
    error: String,
)
    ensures
        opt_text(Some(text)) == Some(text@),
        opt_text(None) is None,
        answer_view(Ok(text)) == Ok::<Seq<char>, Seq<char>>(text@),
        answer_view(Err(error)) == Err::<Seq<char>, Seq<char>>(error@),
        completion_view(Ok((text, Some(reason)))) == Ok::<
            (Seq<char>, Option<Seq<char>>),
            Seq<char>,
        >((text@, Some(reason@))),
        completion_view(Ok((text, None))) == Ok::<(Seq<char>, Option<Seq<char>>), Seq<char>>(
            (text@, None),
        ),
        completion_view(Err(error)) == Err::<(Seq<char>, Option<Seq<char>>), Seq<char>>(error@),
{
}

} // verus!
