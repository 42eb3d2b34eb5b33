//! A linear HTML tokenizer, the tracking of script and style elements, and the
//! splitting of a page into blocks of a bounded size.

use crate::text::{
    blank, char_count, find_char, from_chars, same_text, starts_with, to_ascii_lowercase, to_chars,
    trim,
};
use vstd::prelude::*;
use vstd::string::*;

verus! {

broadcast use vstd::string::group_string_axioms;

/// What a token is: markup between `<` and `>`, or the text around it.
#[derive(Debug, Clone, Copy, PartialEq, Eq, Structural)]
pub enum HtmlTokenKind {
    Tag,
    Text,
}

/// A stretch of a page that is markup, or that is text.
#[derive(Debug)]
pub struct HtmlToken {
    pub kind: HtmlTokenKind,
    pub value: String,
}

/// A token's kind and characters.
pub struct Piece {
    pub kind: HtmlTokenKind,
    pub text: Seq<char>,
}

impl View for HtmlToken {
    type V = Piece;

    open spec fn view(&self) -> Piece {
        Piece { kind: self.kind, text: self.value@ }
    }
}

/// The pieces that a list of tokens stands for.
pub open spec fn pieces(tokens: Seq<HtmlToken>) -> Seq<Piece> {
    tokens.map_values(|t: HtmlToken| t@)
}

/// The characters of each piece.
pub open spec fn texts(list: Seq<Piece>) -> Seq<Seq<char>> {
    list.map_values(|p: Piece| p.text)
}

/// All pieces written one after another.
pub open spec fn source_of(list: Seq<Piece>) -> Seq<char> {
    crate::text::joined(texts(list))
}

/// The source of a list with one more piece.
pub proof fn lemma_source_push(list: Seq<Piece>, p: Piece)
    ensures
        source_of(list.push(p)) == source_of(list) + p.text,
{
    assert(texts(list.push(p)) =~= texts(list).push(p.text));
    crate::text::lemma_joined_push(texts(list), p.text);
}

/// The source of two lists in a row.
pub proof fn lemma_source_add(left: Seq<Piece>, right: Seq<Piece>)
    ensures
        source_of(left + right) == source_of(left) + source_of(right),
{
    assert(texts(left + right) =~= texts(left) + texts(right));
    crate::text::lemma_joined_add(texts(left), texts(right));
}

// ---------------------------------------------------------------------------
// Tokens
// ---------------------------------------------------------------------------
/// Where the token at the front of `s` ends: markup runs through the first
/// `>`, text runs up to the first `<`.
pub open spec fn token_end(s: Seq<char>) -> int {
    if s.len() > 0 && s[0] == '<' {
        let close = crate::text::first_at(s, '>', 0);
        if close < s.len() {
            close + 1
        } else {
            s.len() as int
        }
    } else {
        crate::text::first_at(s, '<', 0)
    }
}

/// The kind of the token at the front of `s`.
pub open spec fn front_kind(s: Seq<char>) -> HtmlTokenKind {
    if s.len() > 0 && s[0] == '<' {
        HtmlTokenKind::Tag
    } else {
        HtmlTokenKind::Text
    }
}

/// The tokens of a page.
pub open spec fn tokenized(s: Seq<char>) -> Seq<Piece>
    decreases s.len(),
{
    let end = token_end(s);
    if 0 < end <= s.len() {
        seq![Piece { kind: front_kind(s), text: s.take(end) }] + tokenized(s.skip(end))
    } else {
        Seq::empty()
    }
}

/// A token is never empty where characters are left.
proof fn lemma_token_end(s: Seq<char>)
    requires
        s.len() > 0,
    ensures
        0 < token_end(s) <= s.len(),
{
    crate::text::lemma_first_at(s, '>', 0);
    crate::text::lemma_first_at(s, '<', 0);
}

/// The tokens of a page, written one after another, are the page.
pub proof fn law_tokens_cover_the_page(s: Seq<char>)
    ensures
        source_of(tokenized(s)) == s,
    decreases s.len(),
{
    if s.len() == 0 {
        assert(source_of(tokenized(s)) =~= s);
    } else {
        lemma_token_end(s);
        let end = token_end(s);
        let first = Piece { kind: front_kind(s), text: s.take(end) };
        let rest = tokenized(s.skip(end));
        law_tokens_cover_the_page(s.skip(end));
        lemma_source_add(seq![first], rest);
        lemma_source_push(Seq::<Piece>::empty(), first);
        assert(Seq::<Piece>::empty().push(first) =~= seq![first]);
        assert(source_of(Seq::<Piece>::empty()) =~= Seq::<char>::empty());
        assert(s =~= s.take(end) + s.skip(end));
    }
}

/// A piece is well formed: markup begins with `<` and holds `>` at most at its
/// end, text holds no `<`, and neither is empty.
pub open spec fn well_formed_piece(p: Piece) -> bool {
    &&& p.text.len() > 0
    &&& match p.kind {
        HtmlTokenKind::Tag => p.text[0] == '<' && forall|i: int|
            0 <= i < p.text.len() - 1 ==> #[trigger] p.text[i] != '>',
        HtmlTokenKind::Text => forall|i: int| 0 <= i < p.text.len() ==> #[trigger] p.text[i] != '<',
    }
}

/// Every token of a page is well formed.
pub proof fn law_tokens_are_well_formed(s: Seq<char>)
    ensures
        forall|i: int|
            0 <= i < tokenized(s).len() ==> well_formed_piece(#[trigger] tokenized(s)[i]),
    decreases s.len(),
{
    if s.len() > 0 {
        lemma_token_end(s);
        let end = token_end(s);
        let first = Piece { kind: front_kind(s), text: s.take(end) };
        let rest = tokenized(s.skip(end));
        law_tokens_are_well_formed(s.skip(end));
        crate::text::lemma_first_at(s, '>', 0);
        crate::text::lemma_first_at(s, '<', 0);
        assert(well_formed_piece(first));
        assert forall|i: int| 0 <= i < tokenized(s).len() implies well_formed_piece(
            #[trigger] tokenized(s)[i],
        ) by {
            if i > 0 {
                assert(tokenized(s)[i] == rest[i - 1]);
            }
        }
    }
}

/// Splits a page into markup and text.
pub fn tokenize_html(html: &str) -> (r: Vec<HtmlToken>)
    ensures
        pieces(r@) == tokenized(html@),
        source_of(pieces(r@)) == html@,
        html@.len() <= usize::MAX,
{
    let chars = to_chars(html);
    let mut tokens: Vec<HtmlToken> = Vec::new();
    let mut start: usize = 0;
    assert(html@.skip(0) =~= html@);
    assert(pieces(tokens@) + tokenized(html@) =~= tokenized(html@));
    while start < chars.len()
        invariant
            start <= chars.len(),
            chars@ == html@,
            pieces(tokens@) + tokenized(html@.skip(start as int)) == tokenized(html@),
        decreases chars.len() - start,
    {
        let ghost rest = html@.skip(start as int);
        let is_tag = chars[start] == '<';
        let stop = if is_tag {
            find_char(&chars, '>', start)
        } else {
            find_char(&chars, '<', start)
        };
        let end = if is_tag && stop < chars.len() {
            stop + 1
        } else {
            stop
        };
        proof {
            crate::text::lemma_first_at_shift(html@, '>', start as int, 0);
            crate::text::lemma_first_at_shift(html@, '<', start as int, 0);
            lemma_token_end(rest);
            assert(rest[0] == html@[start as int]);
            assert(end == start + token_end(rest));
        }
        let kind = if is_tag {
            HtmlTokenKind::Tag
        } else {
            HtmlTokenKind::Text
        };
        let token = HtmlToken { kind, value: from_chars(&chars, start, end) };
        proof {
            assert(token@.text =~= rest.take(token_end(rest)));
            assert(rest.skip(token_end(rest)) =~= html@.skip(end as int));
            let done = pieces(tokens@);
            let tail = tokenized(html@.skip(end as int));
            assert(tokenized(rest) == seq![token@] + tail);
            assert(pieces(tokens@.push(token)) =~= done.push(token@));
            assert(done + (seq![token@] + tail) =~= done.push(token@) + tail);
        }
        tokens.push(token);
        start = end;
    }
    proof {
        assert(html@.skip(start as int) =~= Seq::<char>::empty());
        assert(pieces(tokens@) + tokenized(html@.skip(start as int)) =~= pieces(tokens@));
        law_tokens_cover_the_page(html@);
    }
    tokens
}

// ---------------------------------------------------------------------------
// Tags
// ---------------------------------------------------------------------------
/// White space of the ASCII range, as HTML knows it.
pub open spec fn is_ascii_white_space(c: char) -> bool {
    c == ' ' || c == '\t' || c == '\n' || c == '\u{c}' || c == '\r'
}

/// The characters of a tag's name.
pub open spec fn is_name_char(c: char) -> bool {
    ||| 'a' <= c && c <= 'z'
    ||| 'A' <= c && c <= 'Z'
    ||| '0' <= c && c <= '9'
    ||| c == ':'
    ||| c == '-'
    ||| c == '_'
}

/// The first position at or after `from` that holds no ASCII white space.
pub open spec fn skip_white(s: Seq<char>, from: int) -> int
    decreases s.len() - from,
{
    if 0 <= from < s.len() && is_ascii_white_space(s[from]) {
        skip_white(s, from + 1)
    } else {
        from
    }
}

/// The first position at or after `from` that holds no name character.
pub open spec fn skip_name(s: Seq<char>, from: int) -> int
    decreases s.len() - from,
{
    if 0 <= from < s.len() && is_name_char(s[from]) {
        skip_name(s, from + 1)
    } else {
        from
    }
}

/// Whether a slash follows the opening bracket.
pub open spec fn tag_closes(s: Seq<char>) -> bool {
    let p = skip_white(s, 1);
    0 <= p < s.len() && s[p] == '/'
}

/// Where a tag's name begins.
pub open spec fn name_start(s: Seq<char>) -> int {
    let p = skip_white(s, 1);
    skip_white(
        s,
        if tag_closes(s) {
            p + 1
        } else {
            p
        },
    )
}

/// A tag's name, whether it is a closing tag, and whether it closes itself.
pub open spec fn tag_parts(s: Seq<char>) -> Option<(Seq<char>, bool, bool)> {
    let a = name_start(s);
    let b = skip_name(s, a);
    if s.len() < 3 || s[0] != '<' || a == b {
        None
    } else {
        Some(
            (
                s.subrange(a, b),
                tag_closes(s),
                crate::text::has_suffix(crate::text::trim_end(s), "/>"@),
            ),
        )
    }
}

fn ascii_white_space(c: char) -> (r: bool)
    ensures
        r == is_ascii_white_space(c),
{
    c == ' ' || c == '\t' || c == '\n' || c == '\u{c}' || c == '\r'
}

fn name_char(c: char) -> (r: bool)
    ensures
        r == is_name_char(c),
{
    ('a' <= c && c <= 'z') || ('A' <= c && c <= 'Z') || ('0' <= c && c <= '9') || c == ':' || c
        == '-' || c == '_'
}

fn after_white(s: &Vec<char>, from: usize) -> (r: usize)
    requires
        from <= s.len(),
    ensures
        r == skip_white(s@, from as int),
        from <= r <= s.len(),
{
    let mut i: usize = from;
    while i < s.len() && ascii_white_space(s[i])
        invariant
            from <= i <= s.len(),
            skip_white(s@, i as int) == skip_white(s@, from as int),
        decreases s.len() - i,
    {
        i += 1;
    }
    i
}

fn after_name(s: &Vec<char>, from: usize) -> (r: usize)
    requires
        from <= s.len(),
    ensures
        r == skip_name(s@, from as int),
        from <= r <= s.len(),
{
    let mut i: usize = from;
    while i < s.len() && name_char(s[i])
        invariant
            from <= i <= s.len(),
            skip_name(s@, i as int) == skip_name(s@, from as int),
        decreases s.len() - i,
    {
        i += 1;
    }
    i
}

/// Reads a tag's name, whether it is a closing tag, and whether it closes
/// itself.
pub fn parse_tag_name(tag: &str) -> (r: Option<(&str, bool, bool)>)
    ensures
        match r {
            Some((name, closing, self_closing)) => tag_parts(tag@) == Some(
                (name@, closing, self_closing),
            ),
            None => tag_parts(tag@) is None,
        },
{
    let chars = to_chars(tag);
    if chars.len() < 3 || chars[0] != '<' {
        return None;
    }
    let mut p = after_white(&chars, 1);
    let mut closing = false;
    if p < chars.len() && chars[p] == '/' {
        closing = true;
        p += 1;
    }
    let a = after_white(&chars, p);
    let b = after_name(&chars, a);
    if a == b {
        return None;
    }
    let n = trim_end_len(&chars);
    let self_closing = n >= 2 && chars[n - 2] == '/' && chars[n - 1] == '>';
    proof {
        reveal_strlit("/>");
        let t = crate::text::trim_end(tag@);
        if n >= 2 {
            assert(t.subrange(n - 2, n as int) =~= seq![tag@[n - 2], tag@[n - 1]]);
            assert("/>"@ =~= seq!['/', '>']);
        }
        if self_closing {
            assert(crate::text::has_suffix(t, "/>"@));
        } else if n >= 2 {
            assert(seq![tag@[n - 2], tag@[n - 1]][0] == tag@[n - 2]);
            assert(seq![tag@[n - 2], tag@[n - 1]][1] == tag@[n - 1]);
        }
    }
    Some((tag.substring_char(a, b), closing, self_closing))
}

/// The length without the white space behind.
fn trim_end_len(s: &Vec<char>) -> (n: usize)
    ensures
        n <= s.len(),
        crate::text::trim_end(s@) == s@.take(n as int),
{
    let mut n = s.len();
    assert(s@.take(n as int) =~= s@);
    while n > 0 && crate::text::white_space(s[n - 1])
        invariant
            n <= s.len(),
            crate::text::trim_end(s@) == crate::text::trim_end(s@.take(n as int)),
        decreases n,
    {
        assert(s@.take(n as int).drop_last() =~= s@.take(n - 1));
        n -= 1;
    }
    n
}

/// The nesting depth of script and style elements after a tag.
pub open spec fn depth_after(tag: Seq<char>, depth: nat) -> nat {
    let t = crate::text::trimmed(tag);
    if crate::text::has_prefix(t, "<!"@) || crate::text::has_prefix(t, "<?"@) {
        depth
    } else {
        match tag_parts(t) {
            None => depth,
            Some((name, closing, self_closing)) => {
                let lower = crate::text::ascii_lower(name);
                if lower != "script"@ && lower != "style"@ {
                    depth
                } else if closing {
                    if depth > 0 {
                        (depth - 1) as nat
                    } else {
                        depth
                    }
                } else if self_closing {
                    depth
                } else {
                    depth + 1
                }
            },
        }
    }
}

/// Keeps the nesting depth of script and style elements across a tag.
pub fn update_skip_depth(tag: &str, depth: &mut usize)
    requires
        depth_after(tag@, *old(depth) as nat) <= usize::MAX,
    ensures
        *final(depth) == depth_after(tag@, *old(depth) as nat),
{
    let normalized = trim(tag);
    if starts_with(normalized.as_str(), "<!") || starts_with(normalized.as_str(), "<?") {
        return;
    }
    if let Some((name, closing, self_closing)) = parse_tag_name(normalized.as_str()) {
        let lower = to_ascii_lowercase(name);
        if !same_text(lower.as_str(), "script") && !same_text(lower.as_str(), "style") {
            return;
        }
        if closing {
            if *depth > 0 {
                *depth -= 1;
            }
            return;
        }
        if !self_closing {
            *depth += 1;
        }
    }
}

/// A tag after which a page may be cut.
pub open spec fn is_boundary(tag: Seq<char>) -> bool {
    let lower = crate::text::ascii_lower(tag);
    ||| crate::text::has_prefix(lower, "</p"@)
    ||| crate::text::has_prefix(lower, "</div"@)
    ||| crate::text::has_prefix(lower, "</section"@)
    ||| crate::text::has_prefix(lower, "</article"@)
    ||| crate::text::has_prefix(lower, "</li"@)
    ||| crate::text::has_prefix(lower, "</h1"@)
    ||| crate::text::has_prefix(lower, "</h2"@)
    ||| crate::text::has_prefix(lower, "</h3"@)
    ||| crate::text::has_prefix(lower, "</h4"@)
    ||| crate::text::has_prefix(lower, "</blockquote"@)
    ||| crate::text::has_prefix(lower, "</br"@)
}

/// Whether a page may be cut after a tag.
pub fn is_html_boundary_tag(tag: &str) -> (r: bool)
    ensures
        r == is_boundary(tag@),
{
    let lower = to_ascii_lowercase(tag);
    let l = lower.as_str();
    starts_with(l, "</p") || starts_with(l, "</div") || starts_with(l, "</section") || starts_with(
        l,
        "</article",
    ) || starts_with(l, "</li") || starts_with(l, "</h1") || starts_with(l, "</h2") || starts_with(
        l,
        "</h3",
    ) || starts_with(l, "</h4") || starts_with(l, "</blockquote") || starts_with(l, "</br")
}

// ---------------------------------------------------------------------------
// Translatable text
// ---------------------------------------------------------------------------
/// The nesting depth of script and style elements after a list of pieces.
pub open spec fn depth_of(list: Seq<Piece>) -> nat
    decreases list.len(),
{
    if list.len() == 0 {
        0
    } else {
        let before = depth_of(list.drop_last());
        match list.last().kind {
            HtmlTokenKind::Tag => depth_after(list.last().text, before),
            HtmlTokenKind::Text => before,
        }
    }
}

/// Elements are at most as deep as there are pieces.
pub proof fn lemma_depth_bound(list: Seq<Piece>)
    ensures
        depth_of(list) <= list.len(),
    decreases list.len(),
{
    if list.len() > 0 {
        lemma_depth_bound(list.drop_last());
    }
}

/// How many characters of text stand outside script and style elements.
pub open spec fn translatable_chars(list: Seq<Piece>) -> nat
    decreases list.len(),
{
    if list.len() == 0 {
        0
    } else {
        translatable_chars(list.drop_last()) + if list.last().kind == HtmlTokenKind::Text
            && depth_of(list.drop_last()) == 0 {
            list.last().text.len()
        } else {
            0nat
        }
    }
}

/// No more text is translatable than there is.
pub proof fn lemma_translatable_bound(list: Seq<Piece>)
    ensures
        translatable_chars(list) <= source_of(list).len(),
    decreases list.len(),
{
    if list.len() > 0 {
        lemma_translatable_bound(list.drop_last());
        lemma_source_push(list.drop_last(), list.last());
        assert(list.drop_last().push(list.last()) =~= list);
    }
}

/// No more text is translatable in a prefix than in the whole.
pub proof fn lemma_translatable_take(list: Seq<Piece>, i: int)
    requires
        0 <= i <= list.len(),
    ensures
        translatable_chars(list.take(i)) <= translatable_chars(list),
    decreases list.len() - i,
{
    if i < list.len() {
        lemma_translatable_take(list, i + 1);
        assert(list.take(i + 1).drop_last() =~= list.take(i));
    } else {
        assert(list.take(i) =~= list);
    }
}

/// A prefix is no longer than the whole.
pub proof fn lemma_source_take(list: Seq<Piece>, i: int)
    requires
        0 <= i <= list.len(),
    ensures
        source_of(list.take(i)).len() <= source_of(list).len(),
{
    assert(list =~= list.take(i) + list.skip(i));
    lemma_source_add(list.take(i), list.skip(i));
}

/// Counts the characters of text outside script and style elements.
pub fn count_translatable_text_chars(tokens: &[HtmlToken]) -> (r: usize)
    requires
        source_of(pieces(tokens@)).len() <= usize::MAX,
    ensures
        r == translatable_chars(pieces(tokens@)),
{
    let ghost list = pieces(tokens@);
    let mut total: usize = 0;
    let mut depth: usize = 0;
    let mut i: usize = 0;
    assert(list.take(0) =~= Seq::<Piece>::empty());
    while i < tokens.len()
        invariant
            i <= tokens.len(),
            list == pieces(tokens@),
            source_of(list).len() <= usize::MAX,
            total == translatable_chars(list.take(i as int)),
            depth == depth_of(list.take(i as int)),
        decreases tokens.len() - i,
    {
        let token = &tokens[i];
        proof {
            assert(list.take(i + 1).drop_last() =~= list.take(i as int));
            assert(list.take(i + 1).last() == token@);
            lemma_depth_bound(list.take(i as int));
            lemma_translatable_bound(list.take(i + 1));
            lemma_source_take(list, i + 1);
        }
        match token.kind {
            HtmlTokenKind::Tag => {
                update_skip_depth(token.value.as_str(), &mut depth);
            },
            HtmlTokenKind::Text => {
                if depth == 0 {
                    total += char_count(token.value.as_str());
                }
            },
        }
        i += 1;
    }
    assert(list.take(list.len() as int) =~= list);
    total
}

// ---------------------------------------------------------------------------
// Blocks
// ---------------------------------------------------------------------------
/// What has been gathered on the way through a page: the blocks already cut,
/// the block that is open, and how much text outside script and style elements
/// the open block holds.
pub struct Gathered {
    pub blocks: Seq<Seq<char>>,
    pub current: Seq<char>,
    pub chars: nat,
}

/// What has been gathered after a list of pieces. A block is cut after a tag
/// that closes a structure once it holds `target` characters (and `min`), and
/// after any tag once it holds `max` characters.
pub open spec fn gathered(list: Seq<Piece>, min: nat, target: nat, max: nat) -> Gathered
    decreases list.len(),
{
    if list.len() == 0 {
        Gathered { blocks: Seq::empty(), current: Seq::empty(), chars: 0 }
    } else {
        let g = gathered(list.drop_last(), min, target, max);
        let p = list.last();
        let current = g.current + p.text;
        match p.kind {
            HtmlTokenKind::Tag => {
                if (g.chars >= target && g.chars >= min && is_boundary(p.text)) || g.chars >= max {
                    Gathered { blocks: g.blocks.push(current), current: Seq::empty(), chars: 0 }
                } else {
                    Gathered { blocks: g.blocks, current, chars: g.chars }
                }
            },
            HtmlTokenKind::Text => {
                let counted = depth_of(list.drop_last()) == 0 && !crate::text::is_blank(p.text);
                Gathered {
                    blocks: g.blocks,
                    current,
                    chars: g.chars + if counted {
                        p.text.len()
                    } else {
                        0nat
                    },
                }
            },
        }
    }
}

/// The blocks of a page.
pub open spec fn blocks_of(list: Seq<Piece>, min: nat, target: nat, max: nat) -> Seq<Seq<char>> {
    let g = gathered(list, min, target, max);
    if g.current.len() > 0 {
        g.blocks.push(g.current)
    } else {
        g.blocks
    }
}

/// Nothing is lost on the way: the cut blocks and the open one are the source.
pub proof fn lemma_gathered_covers(list: Seq<Piece>, min: nat, target: nat, max: nat)
    ensures
        ({
            let g = gathered(list, min, target, max);
            &&& crate::text::joined(g.blocks) + g.current == source_of(list)
            &&& g.chars <= g.current.len()
        }),
    decreases list.len(),
{
    if list.len() == 0 {
        assert(crate::text::joined(Seq::<Seq<char>>::empty()) + Seq::<char>::empty() =~= source_of(
            list,
        ));
    } else {
        let g = gathered(list.drop_last(), min, target, max);
        let p = list.last();
        lemma_gathered_covers(list.drop_last(), min, target, max);
        lemma_source_push(list.drop_last(), p);
        assert(list.drop_last().push(p) =~= list);
        crate::text::lemma_joined_push(g.blocks, g.current + p.text);
        let joined = crate::text::joined(g.blocks);
        assert(joined + (g.current + p.text) =~= (joined + g.current) + p.text);
        assert(joined + (g.current + p.text) + Seq::<char>::empty() =~= joined + (g.current
            + p.text));
    }
}

/// The blocks of a page, written one after another, are the page.
pub proof fn law_blocks_cover_the_page(list: Seq<Piece>, min: nat, target: nat, max: nat)
    ensures
        crate::text::joined(blocks_of(list, min, target, max)) == source_of(list),
{
    let g = gathered(list, min, target, max);
    lemma_gathered_covers(list, min, target, max);
    if g.current.len() > 0 {
        crate::text::lemma_joined_push(g.blocks, g.current);
    } else {
        assert(crate::text::joined(g.blocks) + g.current =~= crate::text::joined(g.blocks));
    }
}

/// No block of a page is empty.
pub proof fn law_blocks_are_not_empty(html: Seq<char>, min: nat, target: nat, max: nat)
    ensures
        forall|i: int|
            0 <= i < blocks_of(tokenized(html), min, target, max).len() ==> (
            #[trigger] blocks_of(tokenized(html), min, target, max)[i]).len() > 0,
{
    law_tokens_are_well_formed(html);
    lemma_gathered_is_not_empty(tokenized(html), min, target, max);
}

proof fn lemma_gathered_is_not_empty(list: Seq<Piece>, min: nat, target: nat, max: nat)
    requires
        forall|i: int| 0 <= i < list.len() ==> well_formed_piece(#[trigger] list[i]),
    ensures
        forall|i: int|
            0 <= i < gathered(list, min, target, max).blocks.len() ==> (
            #[trigger] gathered(list, min, target, max).blocks[i]).len() > 0,
    decreases list.len(),
{
    if list.len() > 0 {
        let init = list.drop_last();
        assert forall|i: int| 0 <= i < init.len() implies well_formed_piece(#[trigger] init[i]) by {
            assert(init[i] == list[i]);
        }
        lemma_gathered_is_not_empty(init, min, target, max);
        assert(well_formed_piece(list[list.len() - 1]));
        let before = gathered(init, min, target, max).blocks;
        let now = gathered(list, min, target, max).blocks;
        assert forall|i: int| 0 <= i < now.len() implies (#[trigger] now[i]).len() > 0 by {
            if i < before.len() {
                assert(now[i] == before[i]);
                assert(before[i].len() > 0);
            }
        }
    }
}

/// How many characters of a piece count towards a block: those of text that is
/// not blank and stands outside script and style elements.
pub open spec fn counted_at(list: Seq<Piece>, p: int) -> nat {
    if list[p].kind == HtmlTokenKind::Text && depth_of(list.take(p)) == 0
        && !crate::text::is_blank(list[p].text) {
        list[p].text.len()
    } else {
        0
    }
}

/// How many characters of the pieces from one place to another count.
pub open spec fn counted(list: Seq<Piece>, from: int, to: int) -> nat
    decreases to - from,
{
    if to <= from {
        0
    } else {
        counted(list, from, to - 1) + counted_at(list, to - 1)
    }
}

/// A block that begins at one place may be cut at another, behind a tag: one
/// that closes a structure once enough text counts, or any once too much does.
pub open spec fn allows_cut(
    list: Seq<Piece>,
    from: int,
    to: int,
    sizes: (nat, nat, nat),
) -> bool {
    let (min, target, max) = sizes;
    &&& list[to - 1].kind == HtmlTokenKind::Tag
    &&& (is_boundary(list[to - 1].text) && counted(list, from, to) >= target && counted(
        list,
        from,
        to,
    ) >= min) || counted(list, from, to) >= max
}

/// A block is made of the pieces from one place to another, and no tag inside
/// it allows a cut. The tag at its end does, unless the block is the last.
pub open spec fn fair_cut(
    list: Seq<Piece>,
    blocks: Seq<Seq<char>>,
    i: int,
    from: int,
    to: int,
    sizes: (nat, nat, nat),
) -> bool {
    &&& 0 <= from < to <= list.len()
    &&& blocks[i] == source_of(list.subrange(from, to))
    &&& crate::text::joined(blocks.take(i + 1)) == source_of(list.take(to))
    &&& forall|k: int| from < k < to ==> !#[trigger] allows_cut(list, from, k, sizes)
    &&& i < blocks.len() - 1 ==> allows_cut(list, from, to, sizes)
}

/// What counts in a prefix counts in the whole.
proof fn lemma_counted_prefix(list: Seq<Piece>, n: int, from: int, to: int)
    requires
        0 <= from,
        to <= n <= list.len(),
    ensures
        counted(list.take(n), from, to) == counted(list, from, to),
    decreases to - from,
{
    if from < to {
        lemma_counted_prefix(list, n, from, to - 1);
        assert(list.take(n).take(to - 1) =~= list.take(to - 1));
    }
}

/// What allows no cut in a prefix allows none in the whole.
proof fn lemma_cuts_prefix(
    list: Seq<Piece>,
    n: int,
    from: int,
    to: int,
    sizes: (nat, nat, nat),
)
    requires
        0 <= from,
        to - 1 <= n <= list.len(),
        forall|k: int| from < k < to ==> !#[trigger] allows_cut(list.take(n), from, k, sizes),
    ensures
        forall|k: int| from < k < to ==> !#[trigger] allows_cut(list, from, k, sizes),
{
    assert forall|k: int| from < k < to implies !#[trigger] allows_cut(list, from, k, sizes) by {
        lemma_counted_prefix(list, n, from, k);
        assert(list.take(n)[k - 1] == list[k - 1]);
        assert(!allows_cut(list.take(n), from, k, sizes));
    }
}

/// The open block is made of the pieces behind the last cut, and no tag in it
/// allows one.
proof fn lemma_open_block(list: Seq<Piece>, min: nat, target: nat, max: nat) -> (from: int)
    ensures
        0 <= from <= list.len(),
        gathered(list, min, target, max).current == source_of(
            list.subrange(from, list.len() as int),
        ),
        gathered(list, min, target, max).chars == counted(list, from, list.len() as int),
        forall|k: int|
            from < k <= list.len() ==> !#[trigger] allows_cut(list, from, k, (min, target, max)),
    decreases list.len(),
{
    let n = list.len() as int;
    if n == 0 {
        assert(source_of(list.subrange(0, 0)) =~= Seq::<char>::empty());
        0
    } else {
        let init = list.drop_last();
        let g = gathered(list, min, target, max);
        let from = lemma_open_block(init, min, target, max);
        assert(init =~= list.take(n - 1));
        lemma_counted_prefix(list, n - 1, from, n - 1);
        lemma_source_push(init.subrange(from, n - 1), list.last());
        assert(list.subrange(from, n) =~= init.subrange(from, n - 1).push(list.last()));
        lemma_cuts_prefix(list, n - 1, from, n, (min, target, max));
        if list.last().kind == HtmlTokenKind::Tag && g.current.len() == 0 && g.blocks.len()
            > gathered(init, min, target, max).blocks.len() {
            assert(source_of(list.subrange(n, n)) =~= Seq::<char>::empty());
            n
        } else {
            from
        }
    }
}

proof fn lemma_gathered_cuts(list: Seq<Piece>, min: nat, target: nat, max: nat, i: int) -> (r: (
    int,
    int,
))
    requires
        0 <= i < gathered(list, min, target, max).blocks.len(),
    ensures
        fair_cut(
            list,
            gathered(list, min, target, max).blocks,
            i,
            r.0,
            r.1,
            (min, target, max),
        ),
        allows_cut(list, r.0, r.1, (min, target, max)),
    decreases list.len(),
{
    let n = list.len() as int;
    let init = list.drop_last();
    let before = gathered(init, min, target, max);
    let g = gathered(list, min, target, max);
    assert(init =~= list.take(n - 1));
    if i < before.blocks.len() {
        let (from, to) = lemma_gathered_cuts(init, min, target, max, i);
        assert(g.blocks.take(i + 1) =~= before.blocks.take(i + 1));
        assert(list.take(to) =~= init.take(to));
        assert(list.subrange(from, to) =~= init.subrange(from, to));
        assert(init[to - 1] == list[to - 1]);
        lemma_counted_prefix(list, n - 1, from, to);
        lemma_cuts_prefix(list, n - 1, from, to, (min, target, max));
        (from, to)
    } else {
        let from = lemma_open_block(init, min, target, max);
        lemma_counted_prefix(list, n - 1, from, n - 1);
        lemma_cuts_prefix(list, n - 1, from, n, (min, target, max));
        lemma_source_push(init.subrange(from, n - 1), list.last());
        assert(list.subrange(from, n) =~= init.subrange(from, n - 1).push(list.last()));
        lemma_gathered_covers(list, min, target, max);
        let joined = crate::text::joined(g.blocks);
        assert(joined + g.current =~= joined);
        assert(g.blocks.take(i + 1) =~= g.blocks);
        assert(list.take(n) =~= list);
        (from, n)
    }
}

/// Every block of a page but the last ends at the first tag that allows a cut:
/// one that closes a structure once enough text counts, or any once too much
/// does. The last ends there or, where no tag allows a cut, with the page.
pub proof fn law_blocks_end_at_the_first_tag_that_allows_it(
    list: Seq<Piece>,
    min: nat,
    target: nat,
    max: nat,
    i: int,
)
    requires
        0 <= i < blocks_of(list, min, target, max).len(),
    ensures
        exists|from: int, to: int|
            fair_cut(list, blocks_of(list, min, target, max), i, from, to, (min, target, max)),
{
    let g = gathered(list, min, target, max);
    let all = blocks_of(list, min, target, max);
    if i < g.blocks.len() {
        let (from, to) = lemma_gathered_cuts(list, min, target, max, i);
        assert(all.take(i + 1) =~= g.blocks.take(i + 1));
        assert(fair_cut(list, all, i, from, to, (min, target, max)));
    } else {
        let n = list.len() as int;
        let from = lemma_open_block(list, min, target, max);
        if from == n {
            assert(list.subrange(from, n) =~= Seq::<Piece>::empty());
            assert(source_of(list.subrange(from, n)) =~= Seq::<char>::empty());
        }
        law_blocks_cover_the_page(list, min, target, max);
        assert(all.take(i + 1) =~= all);
        assert(list.take(n) =~= list);
        assert(fair_cut(list, all, i, from, n, (min, target, max)));
    }
}

/// Splits a page into blocks. A block ends after a closing tag once it holds
/// enough text, and after any tag once it holds too much.
pub fn split_html_into_blocks(
    tokens: &[HtmlToken],
    min_chars: usize,
    target_chars: usize,
    max_chars: usize,
) -> (r: Vec<String>)
    requires
        source_of(pieces(tokens@)).len() <= usize::MAX,
    ensures
        crate::text::views(r@) == blocks_of(
            pieces(tokens@),
            min_chars as nat,
            target_chars as nat,
            max_chars as nat,
        ),
        crate::text::joined(crate::text::views(r@)) == source_of(pieces(tokens@)),
{
    let ghost list = pieces(tokens@);
    let ghost (min, target, max) = (min_chars as nat, target_chars as nat, max_chars as nat);
    let mut blocks: Vec<String> = Vec::new();
    let mut current = String::new();
    let mut chars: usize = 0;
    let mut depth: usize = 0;
    let mut i: usize = 0;
    assert(list.take(0) =~= Seq::<Piece>::empty());
    assert(crate::text::views(blocks@) =~= Seq::<Seq<char>>::empty());
    while i < tokens.len()
        invariant
            i <= tokens.len(),
            list == pieces(tokens@),
            min == min_chars,
            target == target_chars,
            max == max_chars,
            source_of(list).len() <= usize::MAX,
            crate::text::views(blocks@) == gathered(list.take(i as int), min, target, max).blocks,
            current@ == gathered(list.take(i as int), min, target, max).current,
            chars == gathered(list.take(i as int), min, target, max).chars,
            depth == depth_of(list.take(i as int)),
        decreases tokens.len() - i,
    {
        let token = &tokens[i];
        proof {
            assert(list.take(i + 1).drop_last() =~= list.take(i as int));
            assert(list.take(i + 1).last() == token@);
            lemma_depth_bound(list.take(i as int));
            lemma_gathered_covers(list.take(i + 1), min, target, max);
            lemma_source_take(list, i + 1);
        }
        current.append(token.value.as_str());
        match token.kind {
            HtmlTokenKind::Tag => {
                update_skip_depth(token.value.as_str(), &mut depth);
                let at_boundary = chars >= target_chars && chars >= min_chars
                    && is_html_boundary_tag(token.value.as_str());
                if at_boundary || chars >= max_chars {
                    let ghost cut = current@;
                    let ghost before = crate::text::views(blocks@);
                    blocks.push(current);
                    assert(crate::text::views(blocks@) =~= before.push(cut));
                    current = String::new();
                    chars = 0;
                }
            },
            HtmlTokenKind::Text => {
                if depth == 0 && !blank(token.value.as_str()) {
                    chars += char_count(token.value.as_str());
                }
            },
        }
        i += 1;
    }
    assert(list.take(list.len() as int) =~= list);
    proof {
        law_blocks_cover_the_page(list, min, target, max);
    }
    if !current.as_str().is_empty() {
        let ghost cut = current@;
        let ghost before = crate::text::views(blocks@);
        blocks.push(current);
        assert(crate::text::views(blocks@) =~= before.push(cut));
    }
    blocks
}

// ---------------------------------------------------------------------------
// What is promised of pages
// ---------------------------------------------------------------------------
/// Markup runs from its `<` through the first `>` behind it: every markup token
/// of a page ends with `>`, unless it is the last token, and holds no other. No
/// two text tokens follow each other, and none holds a `<`.
pub proof fn law_markup_ends_where_it_closes(s: Seq<char>, i: int)
    requires
        0 <= i < tokenized(s).len(),
    ensures
        tokenized(s)[i].text.len() > 0,
        tokenized(s)[i].kind == HtmlTokenKind::Tag ==> tokenized(s)[i].text[0] == '<',
        tokenized(s)[i].kind == HtmlTokenKind::Tag && i < tokenized(s).len() - 1
            ==> tokenized(s)[i].text.last() == '>',
        tokenized(s)[i].kind == HtmlTokenKind::Tag ==> forall|k: int|
            0 <= k < tokenized(s)[i].text.len() - 1 ==> #[trigger] tokenized(s)[i].text[k] != '>',
        tokenized(s)[i].kind == HtmlTokenKind::Text ==> forall|k: int|
            0 <= k < tokenized(s)[i].text.len() ==> #[trigger] tokenized(s)[i].text[k] != '<',
        i > 0 && tokenized(s)[i].kind == HtmlTokenKind::Text ==> tokenized(s)[i - 1].kind
            == HtmlTokenKind::Tag,
    decreases s.len(),
{
    if s.len() > 0 {
        lemma_token_end(s);
        let end = token_end(s);
        let rest = tokenized(s.skip(end));
        crate::text::lemma_first_at(s, '>', 0);
        crate::text::lemma_first_at(s, '<', 0);
        if i == 0 {
            if end == s.len() {
                assert(rest.len() == 0);
            }
        } else {
            assert(tokenized(s)[i] == rest[i - 1]);
            law_markup_ends_where_it_closes(s.skip(end), i - 1);
            if i == 1 {
                let t = s.skip(end);
                lemma_token_end(t);
                if rest[0].kind == HtmlTokenKind::Text {
                    assert(t[0] == s[end]);
                }
            } else {
                assert(tokenized(s)[i - 1] == rest[i - 2]);
            }
        }
    }
}

/// A tag and what follows it are told apart: the tag is one token, and the page
/// goes on behind it.
pub proof fn law_a_tag_is_one_token(inside: Seq<char>, rest: Seq<char>)
    requires
        forall|i: int| 0 <= i < inside.len() ==> #[trigger] inside[i] != '>',
    ensures
        tokenized(seq!['<'] + inside + seq!['>'] + rest) == seq![
            Piece { kind: HtmlTokenKind::Tag, text: seq!['<'] + inside + seq!['>'] },
        ] + tokenized(rest),
{
    let tag = seq!['<'] + inside + seq!['>'];
    let s = tag + rest;
    let n = tag.len() as int;
    crate::text::lemma_first_at(s, '>', 0);
    let close = crate::text::first_at(s, '>', 0);
    assert(s[n - 1] == '>');
    assert(close <= n - 1);
    if close < n - 1 {
        if close > 0 {
            assert(s[close] == inside[close - 1]);
        }
    }
    assert(s.take(n) =~= tag);
    assert(s.skip(n) =~= rest);
}

/// Text up to the next `<` is one token of text.
pub proof fn law_text_is_one_token(text: Seq<char>, rest: Seq<char>)
    requires
        text.len() > 0,
        forall|i: int| 0 <= i < text.len() ==> #[trigger] text[i] != '<',
        rest.len() > 0 ==> rest[0] == '<',
    ensures
        tokenized(text + rest) == seq![Piece { kind: HtmlTokenKind::Text, text }] + tokenized(rest),
{
    let s = text + rest;
    let n = text.len() as int;
    crate::text::lemma_first_at(s, '<', 0);
    let open = crate::text::first_at(s, '<', 0);
    assert(s[0] == text[0]);
    if rest.len() > 0 {
        assert(s[n] == '<');
    }
    if open < n {
        assert(s[open] == text[open]);
    }
    assert(s.take(n) =~= text);
    assert(s.skip(n) =~= rest);
}

/// Letters, digits and the marks that may stand in the name of a tag.
pub open spec fn letters(name: Seq<char>) -> bool {
    forall|i: int|
        0 <= i < name.len() ==> 'a' <= #[trigger] name[i] && name[i] <= 'z' || 'A' <= name[i]
            && name[i] <= 'Z' || '0' <= name[i] && name[i] <= '9' || name[i] == ':' || name[i]
            == '-' || name[i] == '_'
}

/// What follows the name in a tag: it ends with `>`, and what comes right behind
/// the name is white space, a slash or the `>`.
pub open spec fn tail_of_tag(tail: Seq<char>) -> bool {
    &&& tail.len() > 0
    &&& tail.last() == '>'
    &&& tail[0] == '>' || tail[0] == ' ' || tail[0] == '/' || tail[0] == '\n' || tail[0] == '\t'
}

proof fn lemma_skip_name(s: Seq<char>, from: int, to: int)
    requires
        0 <= from <= to < s.len(),
        forall|i: int| from <= i < to ==> is_name_char(#[trigger] s[i]),
        !is_name_char(s[to]),
    ensures
        skip_name(s, from) == to,
    decreases to - from,
{
    if from < to {
        lemma_skip_name(s, from + 1, to);
    }
}

/// The name of a tag is what stands behind its `<`, or behind its `</`, up to
/// the first character that no name holds. A tag closes itself where it ends
/// with `/>`.
pub proof fn law_tags_have_their_names(name: Seq<char>, tail: Seq<char>)
    requires
        name.len() > 0,
        letters(name),
        tail_of_tag(tail),
    ensures
        ({
            let selfish = tail.len() > 1 && tail[tail.len() - 2] == '/';
            &&& tag_parts(seq!['<'] + name + tail) == Some((name, false, selfish))
            &&& tag_parts(seq!['<', '/'] + name + tail) == Some((name, true, selfish))
        }),
{
    lemma_tag_parts(seq!['<'], name, tail);
    lemma_tag_parts(seq!['<', '/'], name, tail);
}

#[verifier::spinoff_prover]
proof fn lemma_tag_parts(front: Seq<char>, name: Seq<char>, tail: Seq<char>)
    requires
        front == seq!['<'] || front == seq!['<', '/'],
        name.len() > 0,
        letters(name),
        tail_of_tag(tail),
    ensures
        tag_parts(front + name + tail) == Some(
            (name, front.len() == 2, tail.len() > 1 && tail[tail.len() - 2] == '/'),
        ),
        crate::text::trimmed(front + name + tail) == front + name + tail,
{
    reveal_strlit("/>");
    let s = front + name + tail;
    let a = front.len() as int;
    let b = a + name.len();
    assert(s[0] == '<');
    assert(s[a] == name[0]);
    assert(s[b] == tail[0]);
    assert(s.last() == '>');
    if front.len() == 2 {
        assert(s[1] == '/');
        assert(skip_white(s, 1) == 1);
        assert(skip_white(s, 2) == 2);
    } else {
        assert(skip_white(s, 1) == 1);
    }
    assert(name_start(s) == a);
    assert forall|i: int| a <= i < b implies is_name_char(#[trigger] s[i]) by {
        assert(s[i] == name[i - a]);
    }
    lemma_skip_name(s, a, b);
    assert(s.subrange(a, b) =~= name);
    crate::text::law_trimming_takes_white_space_alone(Seq::empty(), s, Seq::empty());
    assert(Seq::<char>::empty() + s + Seq::<char>::empty() =~= s);
    assert(crate::text::trim_end(s) =~= s);
    let n = s.len() as int;
    assert(s.subrange(n - 2, n)[0] == s[n - 2]);
    assert(s.subrange(n - 2, n)[1] == '>');
    if tail.len() > 1 {
        assert(s[n - 2] == tail[tail.len() - 2]);
        if tail[tail.len() - 2] == '/' {
            assert(s.subrange(n - 2, n) =~= "/>"@);
        }
    } else {
        assert(s[n - 2] == name.last());
        assert(s[n - 2] == name[name.len() - 1]);
    }
}

/// Script and style elements are told by their names, in capitals or not: their
/// tags lead in and out, one that closes itself does neither, and no other tag
/// does.
pub proof fn law_scripts_and_styles_lead_in_and_out(
    name: Seq<char>,
    tail: Seq<char>,
    depth: nat,
)
    requires
        name.len() > 0,
        letters(name),
        tail_of_tag(tail),
    ensures
        ({
            let lower = crate::text::ascii_lower(name);
            let hidden = lower == "script"@ || lower == "style"@;
            let selfish = tail.len() > 1 && tail[tail.len() - 2] == '/';
            &&& hidden && !selfish ==> depth_after(seq!['<'] + name + tail, depth) == depth + 1
            &&& hidden ==> depth_after(seq!['<', '/'] + name + tail, depth + 1) == depth
            &&& hidden ==> depth_after(seq!['<', '/'] + name + tail, 0) == 0
            &&& hidden && selfish ==> depth_after(seq!['<'] + name + tail, depth) == depth
            &&& !hidden ==> depth_after(seq!['<'] + name + tail, depth) == depth
            &&& !hidden ==> depth_after(seq!['<', '/'] + name + tail, depth) == depth
        }),
{
    lemma_tag_parts(seq!['<'], name, tail);
    lemma_tag_parts(seq!['<', '/'], name, tail);
    lemma_no_declaration(seq!['<'] + name + tail, name[0]);
    lemma_no_declaration(seq!['<', '/'] + name + tail, '/');
}

proof fn lemma_no_declaration(s: Seq<char>, c: char)
    requires
        s.len() > 1,
        s[1] == c,
        c != '!',
        c != '?',
    ensures
        !crate::text::has_prefix(s, "<!"@),
        !crate::text::has_prefix(s, "<?"@),
{
    reveal_strlit("<!");
    reveal_strlit("<?");
    assert(s.subrange(0, 2)[1] == c);
}

/// Comments, declarations and processing instructions lead nowhere, whatever
/// they hold.
pub proof fn law_comments_lead_nowhere(mark: char, rest: Seq<char>, depth: nat)
    requires
        mark == '!' || mark == '?',
        rest.len() > 0,
        rest.last() == '>',
    ensures
        depth_after(seq!['<', mark] + rest, depth) == depth,
{
    reveal_strlit("<!");
    reveal_strlit("<?");
    let s = seq!['<', mark] + rest;
    assert(s[0] == '<');
    assert(s.last() == '>');
    crate::text::law_trimming_takes_white_space_alone(Seq::empty(), s, Seq::empty());
    assert(Seq::<char>::empty() + s + Seq::<char>::empty() =~= s);
    if mark == '!' {
        assert(s.subrange(0, 2) =~= "<!"@);
    } else {
        assert(s.subrange(0, 2) =~= "<?"@);
    }
}

/// A page may be cut behind the closing tags of paragraphs, divisions, sections,
/// articles, list items, headings, quotations and line breaks, in capitals or
/// not, and never behind a tag that opens.
pub proof fn law_pages_are_cut_behind_closing_tags(tag: Seq<char>, rest: Seq<char>)
    ensures
        is_boundary("</p"@ + rest),
        is_boundary("</div"@ + rest),
        is_boundary("</section"@ + rest),
        is_boundary("</article"@ + rest),
        is_boundary("</li"@ + rest),
        is_boundary("</h1"@ + rest),
        is_boundary("</h2"@ + rest),
        is_boundary("</h3"@ + rest),
        is_boundary("</h4"@ + rest),
        is_boundary("</blockquote"@ + rest),
        is_boundary("</br"@ + rest),
        is_boundary(crate::text::ascii_lower(tag)) == is_boundary(tag),
        is_boundary(tag) ==> {
            let lower = crate::text::ascii_lower(tag);
            ||| crate::text::has_prefix(lower, "</p"@)
            ||| crate::text::has_prefix(lower, "</div"@)
            ||| crate::text::has_prefix(lower, "</section"@)
            ||| crate::text::has_prefix(lower, "</article"@)
            ||| crate::text::has_prefix(lower, "</li"@)
            ||| crate::text::has_prefix(lower, "</h1"@)
            ||| crate::text::has_prefix(lower, "</h2"@)
            ||| crate::text::has_prefix(lower, "</h3"@)
            ||| crate::text::has_prefix(lower, "</h4"@)
            ||| crate::text::has_prefix(lower, "</blockquote"@)
            ||| crate::text::has_prefix(lower, "</br"@)
        },
        tag.len() < 3 || tag[0] != '<' || tag[1] != '/' ==> !is_boundary(tag),
{
    lemma_boundary_names(rest);
    lemma_more_boundary_names(rest);
    let lower = crate::text::ascii_lower(tag);
    assert(crate::text::ascii_lower(lower) =~= lower);
    if tag.len() < 3 || tag[0] != '<' || tag[1] != '/' {
        lemma_no_boundary(tag);
    }
}

#[verifier::spinoff_prover]
proof fn lemma_no_boundary(tag: Seq<char>)
    requires
        tag.len() < 3 || tag[0] != '<' || tag[1] != '/',
    ensures
        !is_boundary(tag),
{
    reveal_strlit("</p");
    reveal_strlit("</div");
    reveal_strlit("</section");
    reveal_strlit("</article");
    reveal_strlit("</li");
    reveal_strlit("</h1");
    reveal_strlit("</h2");
    reveal_strlit("</h3");
    reveal_strlit("</h4");
    reveal_strlit("</blockquote");
    reveal_strlit("</br");
    let lower = crate::text::ascii_lower(tag);
    lemma_prefix_front(lower, "</p"@);
    lemma_prefix_front(lower, "</div"@);
    lemma_prefix_front(lower, "</section"@);
    lemma_prefix_front(lower, "</article"@);
    lemma_prefix_front(lower, "</li"@);
    lemma_prefix_front(lower, "</h1"@);
    lemma_prefix_front(lower, "</h2"@);
    lemma_prefix_front(lower, "</h3"@);
    lemma_prefix_front(lower, "</h4"@);
    lemma_prefix_front(lower, "</blockquote"@);
    lemma_prefix_front(lower, "</br"@);
}

proof fn lemma_prefix_front(s: Seq<char>, p: Seq<char>)
    requires
        p.len() >= 3,
        p[0] == '<',
        p[1] == '/',
    ensures
        crate::text::has_prefix(s, p) ==> s.len() >= 3 && s[0] == '<' && s[1] == '/',
{
    if crate::text::has_prefix(s, p) {
        assert(s.subrange(0, p.len() as int)[0] == s[0]);
        assert(s.subrange(0, p.len() as int)[1] == s[1]);
    }
}

/// A text in lower case stays in front of what is put in lower case behind it.
proof fn lemma_lower_front(front: Seq<char>, rest: Seq<char>)
    requires
        forall|i: int|
            0 <= i < front.len() ==> !('A' <= #[trigger] front[i] && front[i] <= 'Z'),
    ensures
        crate::text::has_prefix(crate::text::ascii_lower(front + rest), front),
{
    let lower = crate::text::ascii_lower(front + rest);
    assert(lower.subrange(0, front.len() as int) =~= front);
}

#[verifier::spinoff_prover]
proof fn lemma_boundary_names(rest: Seq<char>)
    ensures
        is_boundary("</p"@ + rest),
        is_boundary("</div"@ + rest),
        is_boundary("</section"@ + rest),
        is_boundary("</article"@ + rest),
        is_boundary("</li"@ + rest),
{
    reveal_strlit("</p");
    reveal_strlit("</div");
    reveal_strlit("</section");
    reveal_strlit("</article");
    reveal_strlit("</li");
    lemma_lower_front("</p"@, rest);
    lemma_lower_front("</div"@, rest);
    lemma_lower_front("</section"@, rest);
    lemma_lower_front("</article"@, rest);
    lemma_lower_front("</li"@, rest);
}

#[verifier::spinoff_prover]
proof fn lemma_more_boundary_names(rest: Seq<char>)
    ensures
        is_boundary("</h1"@ + rest),
        is_boundary("</h2"@ + rest),
        is_boundary("</h3"@ + rest),
        is_boundary("</h4"@ + rest),
        is_boundary("</blockquote"@ + rest),
        is_boundary("</br"@ + rest),
{
    reveal_strlit("</h1");
    reveal_strlit("</h2");
    reveal_strlit("</h3");
    reveal_strlit("</h4");
    reveal_strlit("</blockquote");
    reveal_strlit("</br");
    lemma_lower_front("</h1"@, rest);
    lemma_lower_front("</h2"@, rest);
    lemma_lower_front("</h3"@, rest);
    lemma_lower_front("</h4"@, rest);
    lemma_lower_front("</blockquote"@, rest);
    lemma_lower_front("</br"@, rest);
}

/// Text counts as translatable character by character, markup not at all, and
/// nothing inside a script or style element.
pub proof fn law_text_outside_scripts_counts(
    list: Seq<Piece>,
    text: Seq<char>,
    open: Seq<char>,
    close: Seq<char>,
)
    requires
        depth_of(list) == 0,
        depth_after(open, 0) == 1,
        depth_after(close, 1) == 0,
    ensures
        ({
            let words = Piece { kind: HtmlTokenKind::Text, text };
            let opens = Piece { kind: HtmlTokenKind::Tag, text: open };
            let closes = Piece { kind: HtmlTokenKind::Tag, text: close };
            &&& translatable_chars(list.push(words)) == translatable_chars(list) + text.len()
            &&& translatable_chars(list.push(opens)) == translatable_chars(list)
            &&& translatable_chars(list.push(opens).push(words)) == translatable_chars(list)
            &&& translatable_chars(list.push(opens).push(words).push(closes))
                == translatable_chars(list)
            &&& translatable_chars(list.push(opens).push(words).push(closes).push(words))
                == translatable_chars(list) + text.len()
            &&& translatable_chars(Seq::empty()) == 0
            &&& depth_of(list.push(words)) == 0
            &&& depth_of(list.push(opens).push(words)) == 1
            &&& depth_of(list.push(opens).push(words).push(closes)) == 0
            &&& depth_of(Seq::empty()) == 0
        }),
{
    let words = Piece { kind: HtmlTokenKind::Text, text };
    let opens = Piece { kind: HtmlTokenKind::Tag, text: open };
    let closes = Piece { kind: HtmlTokenKind::Tag, text: close };
    let a = list.push(opens);
    let b = a.push(words);
    let c = b.push(closes);
    let d = c.push(words);
    assert(list.push(words).drop_last() =~= list);
    assert(a.drop_last() =~= list);
    assert(b.drop_last() =~= a);
    assert(c.drop_last() =~= b);
    assert(d.drop_last() =~= c);
    assert(depth_of(a) == 1);
    assert(depth_of(b) == 1);
    assert(depth_of(c) == 0);
    assert(translatable_chars(a) == translatable_chars(list));
    assert(translatable_chars(b) == translatable_chars(a));
    assert(translatable_chars(c) == translatable_chars(b));
    assert(translatable_chars(d) == translatable_chars(c) + text.len());
    assert(translatable_chars(list.push(words)) == translatable_chars(list) + text.len());
    assert(depth_of(list.push(words)) == 0);
}

/// A page without markup is translatable from end to end.
pub proof fn law_a_page_without_markup_is_all_text(s: Seq<char>)
    requires
        forall|i: int| 0 <= i < s.len() ==> #[trigger] s[i] != '<',
    ensures
        translatable_chars(tokenized(s)) == s.len(),
{
    if s.len() > 0 {
        law_text_is_one_token(s, Seq::empty());
        assert(s + Seq::<char>::empty() =~= s);
        let one = seq![Piece { kind: HtmlTokenKind::Text, text: s }];
        assert(tokenized(Seq::<char>::empty()) =~= Seq::empty());
        assert(tokenized(s) =~= one);
        assert(one.drop_last() =~= Seq::empty());
        assert(depth_of(Seq::empty()) == 0);
        assert(translatable_chars(Seq::empty()) == 0);
    }
}

/// Tokens stand for their kinds and characters, one by one, and a page for the
/// characters of its tokens.
pub proof fn law_tokens_stand_for_their_characters(tokens: Seq<HtmlToken>, i: int)
    requires
        0 <= i < tokens.len(),
    ensures
        pieces(tokens).len() == tokens.len(),
        pieces(tokens)[i].kind == tokens[i].kind,
        pieces(tokens)[i].text == tokens[i].value@,
        source_of(pieces(tokens)) == crate::text::joined(
            Seq::new(tokens.len(), |k: int| tokens[k].value@),
        ),
{
    assert(texts(pieces(tokens)) =~= Seq::new(tokens.len(), |k: int| tokens[k].value@));
}

/// A tag leads in or out from wherever it stands, and text leads nowhere.
pub proof fn law_depth_goes_tag_by_tag(list: Seq<Piece>, text: Seq<char>)
    ensures
        depth_of(list.push(Piece { kind: HtmlTokenKind::Tag, text })) == depth_after(
            text,
            depth_of(list),
        ),
        depth_of(list.push(Piece { kind: HtmlTokenKind::Text, text })) == depth_of(list),
{
    assert(list.push(Piece { kind: HtmlTokenKind::Tag, text }).drop_last() =~= list);
    assert(list.push(Piece { kind: HtmlTokenKind::Text, text }).drop_last() =~= list);
}

proof fn lemma_skip_white(s: Seq<char>, from: int, to: int)
    requires
        0 <= from <= to < s.len(),
        forall|i: int| from <= i < to ==> is_ascii_white_space(#[trigger] s[i]),
        !is_ascii_white_space(s[to]),
    ensures
        skip_white(s, from) == to,
    decreases to - from,
{
    if from < to {
        lemma_skip_white(s, from + 1, to);
    }
}

/// White space in front of the name of a tag, and around the slash of one that
/// closes, makes no difference.
pub proof fn law_white_space_inside_tags_makes_no_difference(
    gap: Seq<char>,
    more: Seq<char>,
    name: Seq<char>,
    tail: Seq<char>,
)
    requires
        forall|i: int|
            0 <= i < gap.len() ==> #[trigger] gap[i] == ' ' || gap[i] == '\t' || gap[i] == '\n'
                || gap[i] == '\r' || gap[i] == '\u{c}',
        forall|i: int|
            0 <= i < more.len() ==> #[trigger] more[i] == ' ' || more[i] == '\t' || more[i] == '\n'
                || more[i] == '\r' || more[i] == '\u{c}',
        name.len() > 0,
        letters(name),
        tail_of_tag(tail),
    ensures
        ({
            let selfish = tail.len() > 1 && tail[tail.len() - 2] == '/';
            &&& tag_parts(seq!['<'] + gap + name + tail) == Some((name, false, selfish))
            &&& tag_parts(seq!['<'] + gap + seq!['/'] + more + name + tail) == Some(
                (name, true, selfish),
            )
        }),
{
    lemma_spaced_tag(seq!['<'] + gap, gap, Seq::empty(), false, name, tail);
    lemma_spaced_tag(seq!['<'] + gap + seq!['/'] + more, gap, more, true, name, tail);
}

#[verifier::spinoff_prover]
proof fn lemma_spaced_tag(
    front: Seq<char>,
    gap: Seq<char>,
    more: Seq<char>,
    closing: bool,
    name: Seq<char>,
    tail: Seq<char>,
)
    requires
        !closing ==> front == seq!['<'] + gap,
        closing ==> front == seq!['<'] + gap + seq!['/'] + more,
        forall|i: int| 0 <= i < gap.len() ==> is_ascii_white_space(#[trigger] gap[i]),
        forall|i: int| 0 <= i < more.len() ==> is_ascii_white_space(#[trigger] more[i]),
        name.len() > 0,
        letters(name),
        tail_of_tag(tail),
    ensures
        tag_parts(front + name + tail) == Some(
            (name, closing, tail.len() > 1 && tail[tail.len() - 2] == '/'),
        ),
{
    reveal_strlit("/>");
    let s = front + name + tail;
    let a = front.len() as int;
    let b = a + name.len();
    let g = 1 + gap.len() as int;
    assert(s[0] == '<');
    assert(s[a] == name[0]);
    assert(s[b] == tail[0]);
    assert(s.last() == '>');
    assert forall|i: int| 1 <= i < g implies is_ascii_white_space(#[trigger] s[i]) by {
        assert(s[i] == gap[i - 1]);
    }
    if closing {
        assert(s[g] == '/');
        lemma_skip_white(s, 1, g);
        assert forall|i: int| g + 1 <= i < a implies is_ascii_white_space(#[trigger] s[i]) by {
            assert(s[i] == more[i - g - 1]);
        }
        lemma_skip_white(s, g + 1, a);
    } else {
        lemma_skip_white(s, 1, a);
        lemma_skip_white(s, a, a);
    }
    assert(name_start(s) == a);
    assert forall|i: int| a <= i < b implies is_name_char(#[trigger] s[i]) by {
        assert(s[i] == name[i - a]);
    }
    lemma_skip_name(s, a, b);
    assert(s.subrange(a, b) =~= name);
    crate::text::law_trimming_takes_white_space_alone(Seq::empty(), s, Seq::empty());
    assert(Seq::<char>::empty() + s + Seq::<char>::empty() =~= s);
    assert(crate::text::trim_end(s) =~= s);
    let n = s.len() as int;
    assert(s.subrange(n - 2, n)[0] == s[n - 2]);
    assert(s.subrange(n - 2, n)[1] == '>');
    if tail.len() > 1 {
        assert(s[n - 2] == tail[tail.len() - 2]);
        if tail[tail.len() - 2] == '/' {
            assert(s.subrange(n - 2, n) =~= "/>"@);
        }
    } else {
        assert(s[n - 2] == name[name.len() - 1]);
    }
}

/// What does not begin with `<`, or has no name behind it, is no tag.
pub proof fn law_what_has_no_name_is_no_tag(s: Seq<char>, c: char, rest: Seq<char>)
    requires
        !('a' <= c && c <= 'z' || 'A' <= c && c <= 'Z' || '0' <= c && c <= '9' || c == ':' || c
            == '-' || c == '_' || c == '/' || c == ' ' || c == '\t' || c == '\n' || c == '\r' || c
            == '\u{c}'),
    ensures
        s.len() > 0 && s[0] != '<' ==> tag_parts(s) is None,
        tag_parts(seq!['<', c] + rest) is None,
{
    let t = seq!['<', c] + rest;
    assert(t[1] == c);
    assert(skip_white(t, 1) == 1);
    assert(name_start(t) == 1);
    assert(skip_name(t, 1) == 1);
}

} // verus!
