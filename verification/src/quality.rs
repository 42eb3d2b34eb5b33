//! What is accepted as a translation: tag consistency, length ratio, and the
//! absence of Han characters in Spanish text.

use crate::text::{contains, same_text, to_ascii_lowercase, to_chars, trim, white_space};
use vstd::prelude::*;

verus! {

/// Source texts with fewer characters than this are not held to a length ratio.
pub const MIN_CONTENT_CHARS_FOR_RATIO_CHECK: usize = 40;

/// A letter of the ASCII alphabet.
pub open spec fn is_ascii_letter(c: char) -> bool {
    ('a' <= c && c <= 'z') || ('A' <= c && c <= 'Z')
}

/// At `i` stands something that opens a tag, a closing tag or a declaration.
pub open spec fn tag_like_at(s: Seq<char>, i: int) -> bool {
    &&& 0 <= i
    &&& i + 1 < s.len()
    &&& s[i] == '<'
    &&& (s[i + 1] == '!' || s[i + 1] == '/' || is_ascii_letter(s[i + 1]))
}

/// Something in `s` looks like a tag.
pub open spec fn looks_tagged(s: Seq<char>) -> bool {
    exists|i: int| #[trigger] tag_like_at(s, i)
}

/// Whether a text holds something that looks like a tag.
pub fn has_tag_like_fragment(input: &str) -> (r: bool)
    ensures
        r == looks_tagged(input@),
{
    let chars = to_chars(input);
    let mut i: usize = 0;
    while i < chars.len()
        invariant
            i <= chars.len(),
            chars@ == input@,
            forall|j: int| j < i ==> !#[trigger] tag_like_at(input@, j),
        decreases chars.len() - i,
    {
        if chars[i] == '<' && i + 1 < chars.len() {
            let next = chars[i + 1];
            if next == '!' || next == '/' || ('a' <= next && next <= 'z') || ('A' <= next && next
                <= 'Z') {
                assert(tag_like_at(input@, i as int));
                return true;
            }
        }
        i += 1;
    }
    false
}

/// The test for being `c`.
pub open spec fn is_the_char(c: char) -> spec_fn(char) -> bool {
    |x: char| x == c
}

/// How often `c` stands in `s`.
pub open spec fn occurrences(s: Seq<char>, c: char) -> nat {
    crate::text::count_where(s, is_the_char(c))
}

/// How many characters of `s` are not white space.
pub open spec fn content_len(s: Seq<char>) -> nat {
    crate::text::count_where(s, |x: char| !crate::text::is_white_space(x))
}

/// Counts how often `c` stands in a text.
pub fn count_char(text: &str, c: char) -> (r: usize)
    ensures
        r == occurrences(text@, c),
{
    let chars = to_chars(text);
    let ghost f = is_the_char(c);
    let mut n: usize = 0;
    let mut i: usize = 0;
    assert(text@.take(0) =~= Seq::<char>::empty());
    while i < chars.len()
        invariant
            i <= chars.len(),
            chars@ == text@,
            n <= i,
            f == is_the_char(c),
            n == crate::text::count_where(text@.take(i as int), f),
        decreases chars.len() - i,
    {
        assert(text@.take(i + 1).drop_last() =~= text@.take(i as int));
        if chars[i] == c {
            n += 1;
        }
        i += 1;
    }
    assert(text@.take(text@.len() as int) =~= text@);
    n
}

/// Counts the characters of a text that are not white space.
pub fn count_content(text: &str) -> (r: usize)
    ensures
        r == content_len(text@),
{
    let chars = to_chars(text);
    let ghost f = |x: char| !crate::text::is_white_space(x);
    let mut n: usize = 0;
    let mut i: usize = 0;
    assert(text@.take(0) =~= Seq::<char>::empty());
    while i < chars.len()
        invariant
            i <= chars.len(),
            chars@ == text@,
            n <= i,
            f == (|x: char| !crate::text::is_white_space(x)),
            n == crate::text::count_where(text@.take(i as int), f),
        decreases chars.len() - i,
    {
        assert(text@.take(i + 1).drop_last() =~= text@.take(i as int));
        if !white_space(chars[i]) {
            n += 1;
        }
        i += 1;
    }
    assert(text@.take(text@.len() as int) =~= text@);
    n
}

/// Why a translation is turned down, or `None` where it is accepted.
pub open spec fn translation_fault(source: Seq<char>, translated: Seq<char>) -> Option<Seq<char>> {
    let s = crate::text::trimmed(source);
    let t = crate::text::trimmed(translated);
    if t.len() == 0 {
        Some("DeepSeek devolvio una traduccion vacia"@)
    } else if crate::text::has_part(t, "```"@) {
        Some("DeepSeek devolvio formato de bloque de codigo no permitido"@)
    } else if !looks_tagged(s) && looks_tagged(t) {
        Some("DeepSeek introdujo etiquetas no esperadas"@)
    } else if looks_tagged(s) && occurrences(s, '<') >= 4 && occurrences(t, '<') * 2 < occurrences(
        s,
        '<',
    ) {
        Some("DeepSeek devolvio una traduccion posiblemente incompleta (faltan etiquetas)"@)
    } else if content_len(s) >= MIN_CONTENT_CHARS_FOR_RATIO_CHECK && content_len(t) * 3
        < content_len(s) {
        Some("DeepSeek devolvio una traduccion demasiado corta"@)
    } else if content_len(s) >= MIN_CONTENT_CHARS_FOR_RATIO_CHECK && content_len(t) > content_len(s)
        * 6 {
        Some("DeepSeek devolvio una traduccion demasiado extensa"@)
    } else {
        None
    }
}

/// Accepts or turns down a translation by comparing it with its source: it is
/// not empty, holds no code block, brings no tags of its own, keeps at least
/// half of the tags, and is neither three times shorter nor six times longer.
pub fn validate_translation_output(source: &str, translated: &str) -> (r: Result<(), String>)
    ensures
        match r {
            Ok(()) => translation_fault(source@, translated@) is None,
            Err(message) => translation_fault(source@, translated@) == Some(message@),
        },
{
    let s = trim(source);
    let t = trim(translated);
    if t.as_str().is_empty() {
        return Err("DeepSeek devolvio una traduccion vacia".to_string());
    }
    if contains(t.as_str(), "```") {
        return Err("DeepSeek devolvio formato de bloque de codigo no permitido".to_string());
    }
    let source_tagged = has_tag_like_fragment(s.as_str());
    let translated_tagged = has_tag_like_fragment(t.as_str());
    if !source_tagged && translated_tagged {
        return Err("DeepSeek introdujo etiquetas no esperadas".to_string());
    }
    if source_tagged {
        let source_markers = count_char(s.as_str(), '<');
        let translated_markers = count_char(t.as_str(), '<');
        // Half of the source's markers, rounded up: fewer than this are too few.
        let needed = source_markers / 2 + source_markers % 2;
        if source_markers >= 4 && translated_markers < needed {
            return Err(
                "DeepSeek devolvio una traduccion posiblemente incompleta (faltan etiquetas)".to_string(),
            );
        }
    }
    let source_len = count_content(s.as_str());
    let translated_len = count_content(t.as_str());
    if source_len >= MIN_CONTENT_CHARS_FOR_RATIO_CHECK {
        if translated_len as u128 * 3 < source_len as u128 {
            return Err("DeepSeek devolvio una traduccion demasiado corta".to_string());
        }
        if translated_len as u128 > source_len as u128 * 6 {
            return Err("DeepSeek devolvio una traduccion demasiado extensa".to_string());
        }
    }
    Ok(())
}

/// A Han character: one of the CJK ideograph blocks.
pub open spec fn is_han(ch: char) -> bool {
    let c = ch as u32;
    ||| 0x4E00 <= c <= 0x9FFF
    ||| 0x3400 <= c <= 0x4DBF
    ||| 0x20000 <= c <= 0x2A6DF
    ||| 0x2A700 <= c <= 0x2B73F
    ||| 0x2B740 <= c <= 0x2B81F
    ||| 0x2B820 <= c <= 0x2CEAF
    ||| 0xF900 <= c <= 0xFAFF
    ||| 0x2F800 <= c <= 0x2FA1F
}

/// Whether a character is a Han character.
pub fn is_cjk_han(ch: char) -> (r: bool)
    ensures
        r == is_han(ch),
{
    let c = ch as u32;
    (0x4E00 <= c && c <= 0x9FFF) || (0x3400 <= c && c <= 0x4DBF) || (0x20000 <= c && c <= 0x2A6DF)
        || (0x2A700 <= c && c <= 0x2B73F) || (0x2B740 <= c && c <= 0x2B81F) || (0x2B820 <= c && c
        <= 0x2CEAF) || (0xF900 <= c && c <= 0xFAFF) || (0x2F800 <= c && c <= 0x2FA1F)
}

/// How many Han characters a text holds.
pub open spec fn han_count(s: Seq<char>) -> nat {
    crate::text::count_where(s, |x: char| is_han(x))
}

/// Counts the Han characters of a text.
pub fn count_han(text: &str) -> (r: usize)
    ensures
        r == han_count(text@),
{
    let chars = to_chars(text);
    let ghost f = |x: char| is_han(x);
    let mut n: usize = 0;
    let mut i: usize = 0;
    assert(text@.take(0) =~= Seq::<char>::empty());
    while i < chars.len()
        invariant
            i <= chars.len(),
            chars@ == text@,
            n <= i,
            f == (|x: char| is_han(x)),
            n == crate::text::count_where(text@.take(i as int), f),
        decreases chars.len() - i,
    {
        assert(text@.take(i + 1).drop_last() =~= text@.take(i as int));
        if is_cjk_han(chars[i]) {
            n += 1;
        }
        i += 1;
    }
    assert(text@.take(text@.len() as int) =~= text@);
    n
}

/// The target language is declared to be Spanish, with a plain n or one with a
/// tilde.
pub open spec fn names_spanish(target_language: Seq<char>) -> bool {
    let lower = crate::text::ascii_lower(target_language);
    ||| crate::text::has_part(lower, "espan"@)
    ||| crate::text::has_part(lower, "españ"@)
    ||| crate::text::has_part(lower, "espaÑ"@)
    ||| lower == "es"@
}

/// Whether the target language is Spanish.
pub fn is_spanish_target(target_language: &str) -> (r: bool)
    ensures
        r == names_spanish(target_language@),
{
    let lower = to_ascii_lowercase(target_language);
    contains(lower.as_str(), "espan") || contains(lower.as_str(), "españ") || contains(
        lower.as_str(),
        "espaÑ",
    ) || same_text(lower.as_str(), "es")
}

/// A translation into Spanish that holds three Han characters or more.
pub open spec fn han_intrudes(target_language: Seq<char>, translated: Seq<char>) -> bool {
    names_spanish(target_language) && han_count(translated) >= 3
}

/// Whether a translation is to be asked for again because Han characters have
/// slipped into Spanish text.
pub fn should_retry_for_han(target_language: &str, translated: &str) -> (r: bool)
    ensures
        r == han_intrudes(target_language@, translated@),
{
    if !is_spanish_target(target_language) {
        return false;
    }
    count_han(translated) >= 3
}

/// Whether a text is written in Han characters, each of which makes up about
/// one token where four letters of an alphabet do: Han characters are detected
/// in it.
pub fn is_mostly_cjk(text: &str) -> (r: bool)
    ensures
        r == (han_count(text@) > 0),
{
    count_han(text) > 0
}

// ---------------------------------------------------------------------------
// What is promised of translations
// ---------------------------------------------------------------------------
/// What looks like a tag is a `<` with a letter, a slash or an exclamation mark
/// right behind it, wherever it stands.
pub proof fn law_tags_are_told_by_their_first_two_characters(
    front: Seq<char>,
    c: char,
    back: Seq<char>,
)
    ensures
        'a' <= c && c <= 'z' || 'A' <= c && c <= 'Z' || c == '/' || c == '!' ==> looks_tagged(
            front + seq!['<', c] + back,
        ),
        (forall|i: int| 0 <= i < front.len() ==> #[trigger] front[i] != '<') ==> !looks_tagged(
            front,
        ),
        (forall|i: int| 0 <= i < front.len() ==> #[trigger] front[i] != '<') && !('a' <= c && c
            <= 'z' || 'A' <= c && c <= 'Z' || c == '/' || c == '!') && c != '<' && (forall|i: int|
            0 <= i < back.len() ==> #[trigger] back[i] != '<') ==> !looks_tagged(
            front + seq!['<', c] + back,
        ),
{
    let whole = front + seq!['<', c] + back;
    let n = front.len() as int;
    assert(whole[n] == '<');
    assert(whole[n + 1] == c);
    if 'a' <= c && c <= 'z' || 'A' <= c && c <= 'Z' || c == '/' || c == '!' {
        assert(tag_like_at(whole, n));
    }
}

/// A text looks tagged only where such a pair of characters stands in it.
pub proof fn law_nothing_else_looks_like_a_tag(s: Seq<char>)
    ensures
        looks_tagged(s) ==> exists|i: int|
            0 <= i < s.len() - 1 && #[trigger] s[i] == '<' && (s[i + 1] == '!' || s[i + 1] == '/'
                || 'a' <= s[i + 1] && s[i + 1] <= 'z' || 'A' <= s[i + 1] && s[i + 1] <= 'Z'),
{
    if looks_tagged(s) {
        let i = choose|i: int| #[trigger] tag_like_at(s, i);
        assert(s[i] == '<');
    }
}

/// The length of a text is that of its characters which are not white space,
/// wherever white space stands.
pub proof fn law_white_space_has_no_length(a: Seq<char>, c: char, b: Seq<char>)
    ensures
        content_len(a + seq![c] + b) == content_len(a + b) + if crate::text::is_white_space(c) {
            0nat
        } else {
            1nat
        },
        content_len(Seq::empty()) == 0,
        content_len(crate::text::trimmed(a)) == content_len(a),
{
    let f = |x: char| !crate::text::is_white_space(x);
    crate::text::law_counts_add_up(a, seq![c], c, f);
    crate::text::law_counts_add_up(a + seq![c], b, c, f);
    crate::text::law_counts_add_up(a, b, c, f);
    crate::text::lemma_count_trimmed(a, f);
}

/// Each `<` counts once, wherever it stands, and nothing else does.
pub proof fn law_marks_are_counted_one_by_one(a: Seq<char>, x: char, b: Seq<char>, c: char)
    ensures
        occurrences(a + seq![x] + b, c) == occurrences(a + b, c) + if x == c {
            1nat
        } else {
            0nat
        },
        occurrences(Seq::empty(), c) == 0,
        !crate::text::is_white_space(c) ==> occurrences(crate::text::trimmed(a), c) == occurrences(
            a,
            c,
        ),
{
    let f = is_the_char(c);
    crate::text::law_counts_add_up(a, seq![x], x, f);
    crate::text::law_counts_add_up(a + seq![x], b, x, f);
    crate::text::law_counts_add_up(a, b, x, f);
    if !crate::text::is_white_space(c) {
        crate::text::lemma_count_trimmed(a, f);
    }
}

/// A translation that is accepted holds something besides white space and no
/// code block; it brings no tags where the source has none, and keeps at least
/// half of the `<` of a source with tags and four of them; and whatever the
/// source is, with tags or without, once it has forty characters that are not
/// white space the translation has at least a third as many and at most six
/// times as many.
pub proof fn law_accepted_translations_are_faithful(source: Seq<char>, translated: Seq<char>)
    requires
        translation_fault(source, translated) is None,
    ensures
        content_len(translated) > 0,
        !crate::text::has_part(crate::text::trimmed(translated), "```"@),
        looks_tagged(crate::text::trimmed(translated)) ==> looks_tagged(
            crate::text::trimmed(source),
        ),
        looks_tagged(crate::text::trimmed(source)) && occurrences(source, '<') >= 4 ==> 2
            * occurrences(translated, '<') >= occurrences(source, '<'),
        content_len(source) >= 40 ==> 3 * content_len(translated) >= content_len(source),
        content_len(source) >= 40 ==> content_len(translated) <= 6 * content_len(source),
{
    lemma_fault_over_whole_texts(source, translated);
    let t = crate::text::trimmed(translated);
    let (front, back) = crate::text::law_every_text_can_be_trimmed(translated);
    assert(t =~= Seq::empty() + seq![t[0]] + t.drop_first());
    law_white_space_has_no_length(Seq::empty(), t[0], t.drop_first());
}

proof fn lemma_fault_over_whole_texts(source: Seq<char>, translated: Seq<char>)
    ensures
        content_len(crate::text::trimmed(source)) == content_len(source),
        content_len(crate::text::trimmed(translated)) == content_len(translated),
        occurrences(crate::text::trimmed(source), '<') == occurrences(source, '<'),
        occurrences(crate::text::trimmed(translated), '<') == occurrences(translated, '<'),
{
    law_white_space_has_no_length(source, ' ', Seq::empty());
    law_white_space_has_no_length(translated, ' ', Seq::empty());
    law_marks_are_counted_one_by_one(source, ' ', Seq::empty(), '<');
    law_marks_are_counted_one_by_one(translated, ' ', Seq::empty(), '<');
}

/// A translation of which all that holds is accepted.
pub proof fn law_faithful_translations_are_accepted(source: Seq<char>, translated: Seq<char>)
    requires
        content_len(translated) > 0,
        !crate::text::has_part(crate::text::trimmed(translated), "```"@),
        looks_tagged(crate::text::trimmed(translated)) ==> looks_tagged(
            crate::text::trimmed(source),
        ),
        looks_tagged(crate::text::trimmed(source)) && occurrences(source, '<') >= 4 ==> 2
            * occurrences(translated, '<') >= occurrences(source, '<'),
        content_len(source) >= 40 ==> 3 * content_len(translated) >= content_len(source),
        content_len(source) >= 40 ==> content_len(translated) <= 6 * content_len(source),
    ensures
        translation_fault(source, translated) is None,
{
    lemma_fault_over_whole_texts(source, translated);
    if crate::text::trimmed(translated).len() == 0 {
        assert(crate::text::trimmed(translated) =~= Seq::empty());
        law_white_space_has_no_length(Seq::empty(), ' ', Seq::empty());
    }
}

/// A refusal names what is wrong: an empty translation, a code block, tags of
/// its own, tags that are missing, and a length out of proportion, in this
/// order.
pub proof fn law_refusals_say_why(source: Seq<char>, translated: Seq<char>)
    ensures
        ({
            let fault = translation_fault(source, translated);
            let empty = content_len(translated) == 0;
            let code = crate::text::has_part(crate::text::trimmed(translated), "```"@);
            let new_tags = !looks_tagged(crate::text::trimmed(source)) && looks_tagged(
                crate::text::trimmed(translated),
            );
            let lost_tags = looks_tagged(crate::text::trimmed(source)) && occurrences(source, '<')
                >= 4 && 2 * occurrences(translated, '<') < occurrences(source, '<');
            let short = content_len(source) >= 40 && 3 * content_len(translated) < content_len(
                source,
            );
            let long = content_len(source) >= 40 && content_len(translated) > 6 * content_len(
                source,
            );
            &&& empty ==> fault == Some("DeepSeek devolvio una traduccion vacia"@)
            &&& !empty && code ==> fault == Some(
                "DeepSeek devolvio formato de bloque de codigo no permitido"@,
            )
            &&& !empty && !code && new_tags ==> fault == Some(
                "DeepSeek introdujo etiquetas no esperadas"@,
            )
            &&& !empty && !code && !new_tags && lost_tags ==> fault == Some(
                "DeepSeek devolvio una traduccion posiblemente incompleta (faltan etiquetas)"@,
            )
            &&& !empty && !code && !new_tags && !lost_tags && short ==> fault == Some(
                "DeepSeek devolvio una traduccion demasiado corta"@,
            )
            &&& !empty && !code && !new_tags && !lost_tags && !short && long ==> fault == Some(
                "DeepSeek devolvio una traduccion demasiado extensa"@,
            )
        }),
{
    lemma_fault_over_whole_texts(source, translated);
    let t = crate::text::trimmed(translated);
    if t.len() == 0 {
        assert(t =~= Seq::empty());
        law_white_space_has_no_length(Seq::empty(), ' ', Seq::empty());
    } else {
        let (front, back) = crate::text::law_every_text_can_be_trimmed(translated);
        assert(t =~= Seq::empty() + seq![t[0]] + t.drop_first());
        law_white_space_has_no_length(Seq::empty(), t[0], t.drop_first());
    }
}

/// The ideographs of the unified block and its first extension are Han
/// characters, as are those of the later ones and of the compatibility blocks;
/// letters, digits, marks and kana are none.
pub proof fn law_han_characters_are_the_ideographs(c: char)
    ensures
        0x4e00 <= c as u32 <= 0x9fff || 0x3400 <= c as u32 <= 0x4dbf ==> is_han(c),
        0xf900 <= c as u32 <= 0xfaff || 0x2f800 <= c as u32 <= 0x2fa1f ==> is_han(c),
        0x20000 <= c as u32 <= 0x2a6df || 0x2a700 <= c as u32 <= 0x2ceaf ==> is_han(c),
        (c as u32) < 0x3400 ==> !is_han(c),
        0x4dc0 <= c as u32 <= 0x4dff || 0xa000 <= c as u32 <= 0xf8ff ==> !is_han(c),
        0xfb00 <= c as u32 <= 0x1ffff ==> !is_han(c),
        0x2a6e0 <= c as u32 <= 0x2a6ff || 0x2ceb0 <= c as u32 <= 0x2f7ff || c as u32 >= 0x2fa20
            ==> !is_han(c),
{
}

/// Han characters are counted one by one, wherever they stand.
pub proof fn law_han_characters_are_counted_one_by_one(a: Seq<char>, c: char, b: Seq<char>)
    ensures
        han_count(a + seq![c] + b) == han_count(a + b) + if is_han(c) {
            1nat
        } else {
            0nat
        },
        han_count(Seq::empty()) == 0,
{
    let f = |x: char| is_han(x);
    crate::text::law_counts_add_up(a, seq![c], c, f);
    crate::text::law_counts_add_up(a + seq![c], b, c, f);
    crate::text::law_counts_add_up(a, b, c, f);
}

/// A language whose name holds `espan`, in capitals or not, is Spanish.
pub proof fn law_spanish_is_told_by_its_name(front: Seq<char>, back: Seq<char>)
    ensures
        names_spanish(front + "espan"@ + back),
        names_spanish(front + "españ"@ + back),
        names_spanish("es"@),
        names_spanish(crate::text::ascii_lower(front)) == names_spanish(front),
        names_spanish(front) ==> crate::text::ascii_lower(front) == "es"@ || crate::text::has_part(
            crate::text::ascii_lower(front),
            "espa"@,
        ),
{
    reveal_strlit("espan");
    reveal_strlit("españ");
    reveal_strlit("es");
    assert(crate::text::ascii_lower("espan"@) =~= "espan"@);
    assert(crate::text::ascii_lower("españ"@) =~= "españ"@);
    assert(crate::text::ascii_lower("es"@) =~= "es"@);
    let lower = crate::text::ascii_lower(front);
    assert(crate::text::ascii_lower(lower) =~= lower);
    reveal_strlit("espaÑ");
    reveal_strlit("espa");
    lemma_shorter_part(lower, "espan"@, "espa"@);
    lemma_shorter_part(lower, "españ"@, "espa"@);
    lemma_shorter_part(lower, "espaÑ"@, "espa"@);
    crate::text::law_what_stands_in_a_text_is_found(
        lower,
        "espan"@,
        crate::text::ascii_lower(back),
    );
    crate::text::law_what_stands_in_a_text_is_found(
        lower,
        "españ"@,
        crate::text::ascii_lower(back),
    );
    assert(crate::text::ascii_lower(front + "espan"@ + back) =~= lower + "espan"@
        + crate::text::ascii_lower(back));
    assert(crate::text::ascii_lower(front + "españ"@ + back) =~= lower + "españ"@
        + crate::text::ascii_lower(back));
}

/// What begins a part of a text is a part of it.
proof fn lemma_shorter_part(s: Seq<char>, part: Seq<char>, front: Seq<char>)
    requires
        front.len() <= part.len(),
        part.take(front.len() as int) =~= front,
    ensures
        crate::text::has_part(s, part) ==> crate::text::has_part(s, front),
{
    if crate::text::has_part(s, part) {
        let i = choose|i: int| #[trigger] crate::text::occurs_at(s, part, i);
        assert(s.subrange(i, i + front.len()) =~= s.subrange(i, i + part.len()).take(
            front.len() as int,
        ));
        assert(crate::text::occurs_at(s, front, i));
    }
}

/// A language whose name has no `p` in it, and is not `es`, is not Spanish.
pub proof fn law_other_languages_are_not_spanish(name: Seq<char>)
    requires
        forall|i: int| 0 <= i < name.len() ==> #[trigger] name[i] != 'p' && name[i] != 'P',
        name.len() != 2,
    ensures
        !names_spanish(name),
{
    reveal_strlit("espan");
    reveal_strlit("españ");
    reveal_strlit("espaÑ");
    reveal_strlit("es");
    let lower = crate::text::ascii_lower(name);
    assert(lower.len() == name.len());
    assert("es"@.len() == 2);
    assert(lower != "es"@);
    assert forall|i: int| 0 <= i < lower.len() implies #[trigger] lower[i] != 'p' by {
        assert(name[i] != 'p' && name[i] != 'P');
    }
    assert forall|i: int| !#[trigger] crate::text::occurs_at(lower, "espan"@, i) by {
        if crate::text::occurs_at(lower, "espan"@, i) {
            assert(lower.subrange(i, i + 5)[2] == lower[i + 2]);
        }
    }
    assert forall|i: int| !#[trigger] crate::text::occurs_at(lower, "españ"@, i) by {
        if crate::text::occurs_at(lower, "españ"@, i) {
            assert(lower.subrange(i, i + 5)[2] == lower[i + 2]);
        }
    }
    assert forall|i: int| !#[trigger] crate::text::occurs_at(lower, "espaÑ"@, i) by {
        if crate::text::occurs_at(lower, "espaÑ"@, i) {
            assert(lower.subrange(i, i + 5)[2] == lower[i + 2]);
        }
    }
}

/// Two Han characters are let pass in a translation into Spanish, three are not;
/// in a translation into another language any number is.
pub proof fn law_three_han_characters_are_too_many(language: Seq<char>, translated: Seq<char>)
    ensures
        names_spanish(language) && han_count(translated) > 2 ==> han_intrudes(language, translated),
        han_count(translated) <= 2 || !names_spanish(language) ==> !han_intrudes(
            language,
            translated,
        ),
{
}

} // verus!
