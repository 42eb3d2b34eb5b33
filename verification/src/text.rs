//! Text as sequences of characters: the searching, trimming, folding and
//! number formatting that the rest of the library is stated in.

use vstd::prelude::*;
use vstd::string::*;

verus! {

broadcast use vstd::string::group_string_axioms;

/// `String::push` appends the given character to the end of the string.
pub assume_specification[ String::push ](s: &mut String, ch: char)
    ensures
        final(s)@ == old(s)@.push(ch),
;

// ---------------------------------------------------------------------------
// Concatenation
// ---------------------------------------------------------------------------
/// All parts written one after another.
pub open spec fn joined(parts: Seq<Seq<char>>) -> Seq<char>
    decreases parts.len(),
{
    if parts.len() == 0 {
        Seq::empty()
    } else {
        joined(parts.drop_last()) + parts.last()
    }
}

/// The contents of a list of strings.
pub open spec fn views(list: Seq<String>) -> Seq<Seq<char>> {
    list.map_values(|s: String| s@)
}

/// Concatenation of one more part.
pub proof fn lemma_joined_push(parts: Seq<Seq<char>>, last: Seq<char>)
    ensures
        joined(parts.push(last)) == joined(parts) + last,
{
    assert(parts.push(last).drop_last() =~= parts);
}

/// Concatenation of two lists of parts.
pub proof fn lemma_joined_add(left: Seq<Seq<char>>, right: Seq<Seq<char>>)
    ensures
        joined(left + right) == joined(left) + joined(right),
    decreases right.len(),
{
    if right.len() == 0 {
        assert(left + right =~= left);
        assert(joined(left) + joined(right) =~= joined(left));
    } else {
        assert((left + right).drop_last() =~= left + right.drop_last());
        lemma_joined_add(left, right.drop_last());
        assert(joined(left + right) =~= joined(left) + joined(right));
    }
}

/// Concatenation with one more part in front.
pub proof fn lemma_joined_cons(first: Seq<char>, rest: Seq<Seq<char>>)
    ensures
        joined(seq![first] + rest) == first + joined(rest),
{
    lemma_joined_add(seq![first], rest);
    assert(seq![first].drop_last() =~= Seq::<Seq<char>>::empty());
    assert(joined(Seq::<Seq<char>>::empty()) =~= Seq::<char>::empty());
    assert(joined(seq![first]) =~= first);
}

/// Writes all strings of a list one after another.
pub fn join_all(parts: &Vec<String>) -> (r: String)
    ensures
        r@ == joined(views(parts@)),
{
    let mut out = String::new();
    let mut i: usize = 0;
    assert(views(parts@).take(0) =~= Seq::<Seq<char>>::empty());
    while i < parts.len()
        invariant
            i <= parts.len(),
            out@ == joined(views(parts@).take(i as int)),
        decreases parts.len() - i,
    {
        out.append(parts[i].as_str());
        proof {
            lemma_joined_push(views(parts@).take(i as int), parts@[i as int]@);
            assert(views(parts@).take(i + 1) =~= views(parts@).take(i as int).push(
                parts@[i as int]@,
            ));
        }
        i += 1;
    }
    assert(views(parts@).take(parts@.len() as int) =~= views(parts@));
    out
}

// ---------------------------------------------------------------------------
// Strings and their characters
// ---------------------------------------------------------------------------
/// The characters of a string, in order.
pub fn to_chars(s: &str) -> (r: Vec<char>)
    ensures
        r@ == s@,
{
    let mut out: Vec<char> = Vec::new();
    for c in it: s.chars()
        invariant
            it.seq() == s@,
            out@ == s@.take(it.index() as int),
    {
        out.push(c);
        assert(s@.take(it.index() + 1) =~= s@.take(it.index() as int).push(c));
    }
    assert(s@.take(s@.len() as int) =~= s@);
    out
}

/// The characters at positions `from..to`, as a string.
pub fn from_chars(chars: &Vec<char>, from: usize, to: usize) -> (r: String)
    requires
        from <= to <= chars.len(),
    ensures
        r@ == chars@.subrange(from as int, to as int),
{
    let mut out = String::new();
    let mut i: usize = from;
    while i < to
        invariant
            from <= i <= to <= chars.len(),
            out@ == chars@.subrange(from as int, i as int),
        decreases to - i,
    {
        out.push(chars[i]);
        i += 1;
        assert(chars@.subrange(from as int, i as int) =~= chars@.subrange(
            from as int,
            i - 1,
        ).push(chars@[i - 1]));
    }
    out
}

/// Whether two strings hold the same characters.
pub fn same_text(a: &str, b: &str) -> (r: bool)
    ensures
        r == (a@ == b@),
{
    a.to_string() == b.to_string()
}

// ---------------------------------------------------------------------------
// White space
// ---------------------------------------------------------------------------
/// The characters with the Unicode property `White_Space`.
pub open spec fn is_white_space(c: char) -> bool {
    ||| '\u{9}' <= c && c <= '\u{d}'
    ||| c == ' '
    ||| c == '\u{85}'
    ||| c == '\u{a0}'
    ||| c == '\u{1680}'
    ||| '\u{2000}' <= c && c <= '\u{200a}'
    ||| c == '\u{2028}'
    ||| c == '\u{2029}'
    ||| c == '\u{202f}'
    ||| c == '\u{205f}'
    ||| c == '\u{3000}'
}

/// Whether a character is white space.
pub fn white_space(c: char) -> (r: bool)
    ensures
        r == is_white_space(c),
{
    ('\u{9}' <= c && c <= '\u{d}') || c == ' ' || c == '\u{85}' || c == '\u{a0}' || c == '\u{1680}'
        || ('\u{2000}' <= c && c <= '\u{200a}') || c == '\u{2028}' || c == '\u{2029}' || c
        == '\u{202f}' || c == '\u{205f}' || c == '\u{3000}'
}

/// All characters are white space.
pub open spec fn is_blank(s: Seq<char>) -> bool {
    forall|i: int| 0 <= i < s.len() ==> is_white_space(#[trigger] s[i])
}

/// The text without the white space in front.
pub open spec fn trim_start(s: Seq<char>) -> Seq<char>
    decreases s.len(),
{
    if s.len() > 0 && is_white_space(s[0]) {
        trim_start(s.drop_first())
    } else {
        s
    }
}

/// The text without the white space behind.
pub open spec fn trim_end(s: Seq<char>) -> Seq<char>
    decreases s.len(),
{
    if s.len() > 0 && is_white_space(s.last()) {
        trim_end(s.drop_last())
    } else {
        s
    }
}

/// The text without white space on either side.
pub open spec fn trimmed(s: Seq<char>) -> Seq<char> {
    trim_end(trim_start(s))
}

/// What is left after skipping leading white space.
pub proof fn lemma_trim_start_at(s: Seq<char>, a: int)
    requires
        0 <= a <= s.len(),
        is_blank(s.take(a)),
        a < s.len() ==> !is_white_space(s[a]),
    ensures
        trim_start(s) == s.skip(a),
    decreases s.len(),
{
    if a == 0 {
        assert(s.skip(0) =~= s);
    } else {
        assert(s.take(a)[0] == s[0]);
        let t = s.drop_first();
        assert forall|i: int| 0 <= i < t.take(a - 1).len() implies is_white_space(
            #[trigger] t.take(a - 1)[i],
        ) by {
            assert(t.take(a - 1)[i] == s.take(a)[i + 1]);
        }
        lemma_trim_start_at(t, a - 1);
        assert(t.skip(a - 1) =~= s.skip(a));
    }
}

/// What is left after dropping trailing white space.
pub proof fn lemma_trim_end_at(s: Seq<char>, b: int)
    requires
        0 <= b <= s.len(),
        is_blank(s.skip(b)),
        b > 0 ==> !is_white_space(s[b - 1]),
    ensures
        trim_end(s) == s.take(b),
    decreases s.len(),
{
    if b == s.len() {
        assert(s.take(b) =~= s);
    } else {
        assert(s.skip(b)[s.len() - 1 - b] == s.last());
        let t = s.drop_last();
        assert forall|i: int| 0 <= i < t.skip(b).len() implies is_white_space(
            #[trigger] t.skip(b)[i],
        ) by {
            assert(t.skip(b)[i] == s.skip(b)[i]);
        }
        lemma_trim_end_at(t, b);
        assert(t.take(b) =~= s.take(b));
    }
}

/// Where the trimmed text stands: `trimmed(s)` is `s[a..b]`.
pub open spec fn trim_bounds_at(s: Seq<char>, a: int, b: int) -> bool {
    &&& 0 <= a <= b <= s.len()
    &&& is_blank(s.take(a))
    &&& is_blank(s.skip(b))
    &&& a < b ==> !is_white_space(s[a]) && !is_white_space(s[b - 1])
    &&& a == b ==> is_blank(s)
    &&& trimmed(s) == s.subrange(a, b)
}

/// Finds where the trimmed text begins and ends.
pub fn trim_bounds(chars: &Vec<char>) -> (r: (usize, usize))
    ensures
        trim_bounds_at(chars@, r.0 as int, r.1 as int),
{
    let n = chars.len();
    let ghost s = chars@;
    let mut a: usize = 0;
    while a < n && white_space(chars[a])
        invariant
            a <= n,
            n == chars.len(),
            s == chars@,
            is_blank(s.take(a as int)),
        decreases n - a,
    {
        assert(s.take(a + 1) =~= s.take(a as int).push(s[a as int]));
        a += 1;
    }
    let mut b: usize = n;
    assert(s.skip(n as int) =~= Seq::<char>::empty());
    while b > a && white_space(chars[b - 1])
        invariant
            a <= b <= n,
            n == chars.len(),
            s == chars@,
            is_blank(s.skip(b as int)),
        decreases b,
    {
        assert(s.skip(b - 1) =~= seq![s[b - 1]] + s.skip(b as int));
        b -= 1;
    }
    proof {
        if a == b {
            assert(s =~= s.take(a as int) + s.skip(a as int));
            assert(is_blank(s));
            assert(s.take(n as int) =~= s);
            if a < n {
                assert(s.skip(a as int)[0] == s[a as int]);
                assert(false);
            }
        }
        lemma_trim_start_at(s, a as int);
        let t = s.skip(a as int);
        assert(t.skip(b - a) =~= s.skip(b as int));
        lemma_trim_end_at(t, b - a);
        assert(t.take(b - a) =~= s.subrange(a as int, b as int));
    }
    (a, b)
}

/// Trimming leaves nothing exactly where everything is white space.
pub proof fn lemma_trimmed_empty(s: Seq<char>)
    ensures
        trimmed(s).len() == 0 <==> is_blank(s),
{
    lemma_trim_start_suffix(s);
    lemma_trim_end_prefix(trim_start(s));
    let t = trim_start(s);
    if is_blank(s) {
        let k = s.len() - t.len();
        if t.len() > 0 {
            assert(t[0] == s[k]);
        }
    }
    if trimmed(s).len() == 0 {
        let k = s.len() - t.len();
        assert forall|i: int| 0 <= i < s.len() implies is_white_space(#[trigger] s[i]) by {
            if i < k {
                assert(s.take(k)[i] == s[i]);
            } else {
                assert(t.skip(0)[i - k] == s[i]);
            }
        }
    }
}

/// Skipping leading white space gives a suffix.
pub proof fn lemma_trim_start_suffix(s: Seq<char>)
    ensures
        trim_start(s).len() <= s.len(),
        trim_start(s) == s.skip(s.len() - trim_start(s).len()),
        is_blank(s.take(s.len() - trim_start(s).len())),
        trim_start(s).len() > 0 ==> !is_white_space(trim_start(s)[0]),
    decreases s.len(),
{
    if s.len() > 0 && is_white_space(s[0]) {
        let t = s.drop_first();
        lemma_trim_start_suffix(t);
        let k = t.len() - trim_start(t).len();
        assert(t.skip(k) =~= s.skip(k + 1));
        assert(s.take(k + 1) =~= seq![s[0]] + t.take(k));
    } else {
        assert(s.skip(0) =~= s);
    }
}

/// Dropping trailing white space gives a prefix.
pub proof fn lemma_trim_end_prefix(s: Seq<char>)
    ensures
        trim_end(s).len() <= s.len(),
        trim_end(s) == s.take(trim_end(s).len() as int),
        is_blank(s.skip(trim_end(s).len() as int)),
        trim_end(s).len() > 0 ==> !is_white_space(trim_end(s).last()),
    decreases s.len(),
{
    if s.len() > 0 && is_white_space(s.last()) {
        let t = s.drop_last();
        lemma_trim_end_prefix(t);
        let k = trim_end(t).len() as int;
        assert(t.take(k) =~= s.take(k));
        assert(s.skip(k) =~= t.skip(k).push(s.last()));
    } else {
        assert(s.take(s.len() as int) =~= s);
        assert(s.skip(s.len() as int) =~= Seq::<char>::empty());
    }
}

/// The string without white space on either side.
pub fn trim(s: &str) -> (r: String)
    ensures
        r@ == trimmed(s@),
{
    let chars = to_chars(s);
    let (a, b) = trim_bounds(&chars);
    from_chars(&chars, a, b)
}

/// Whether a string holds nothing but white space.
pub fn blank(s: &str) -> (r: bool)
    ensures
        r == is_blank(s@),
        r == (trimmed(s@).len() == 0),
{
    let chars = to_chars(s);
    let (a, b) = trim_bounds(&chars);
    proof {
        lemma_trimmed_empty(s@);
    }
    a == b
}

// ---------------------------------------------------------------------------
// ASCII case
// ---------------------------------------------------------------------------
/// The letters `A` to `Z` in lower case, every other character as it is.
pub open spec fn ascii_lower_char(c: char) -> char {
    if 'A' <= c && c <= 'Z' {
        ((c as u8) + 32) as char
    } else {
        c
    }
}

/// The text with the letters `A` to `Z` in lower case.
pub open spec fn ascii_lower(s: Seq<char>) -> Seq<char> {
    s.map_values(|c: char| ascii_lower_char(c))
}

/// One character in ASCII lower case.
pub fn lower_char(c: char) -> (r: char)
    ensures
        r == ascii_lower_char(c),
{
    if 'A' <= c && c <= 'Z' {
        ((c as u8) + 32) as char
    } else {
        c
    }
}

/// The string in ASCII lower case.
pub fn to_ascii_lowercase(s: &str) -> (r: String)
    ensures
        r@ == ascii_lower(s@),
{
    let mut out = String::new();
    for c in it: s.chars()
        invariant
            it.seq() == s@,
            out@ == ascii_lower(s@.take(it.index() as int)),
    {
        out.push(lower_char(c));
        assert(s@.take(it.index() + 1) =~= s@.take(it.index() as int).push(c));
        assert(ascii_lower(s@.take(it.index() + 1)) =~= ascii_lower(
            s@.take(it.index() as int),
        ).push(ascii_lower_char(c)));
    }
    assert(s@.take(s@.len() as int) =~= s@);
    out
}

// ---------------------------------------------------------------------------
// Searching
// ---------------------------------------------------------------------------
/// `p` stands in `s` at position `i`.
pub open spec fn occurs_at(s: Seq<char>, p: Seq<char>, i: int) -> bool {
    &&& 0 <= i
    &&& i + p.len() <= s.len()
    &&& s.subrange(i, i + p.len()) == p
}

/// `s` begins with `p`.
pub open spec fn has_prefix(s: Seq<char>, p: Seq<char>) -> bool {
    occurs_at(s, p, 0)
}

/// `s` ends with `p`.
pub open spec fn has_suffix(s: Seq<char>, p: Seq<char>) -> bool {
    occurs_at(s, p, s.len() - p.len())
}

/// `p` stands somewhere in `s`.
pub open spec fn has_part(s: Seq<char>, p: Seq<char>) -> bool {
    exists|i: int| #[trigger] occurs_at(s, p, i)
}

/// What a text begins with in lower case occurs in every text that begins so.
pub proof fn lemma_lower_prefix(front: Seq<char>, rest: Seq<char>, part: Seq<char>)
    requires
        has_prefix(ascii_lower(front), part),
    ensures
        has_part(ascii_lower(front + rest), part),
{
    let lower = ascii_lower(front + rest);
    assert(lower.subrange(0, part.len() as int) =~= ascii_lower(front).subrange(
        0,
        part.len() as int,
    ));
    assert(occurs_at(lower, part, 0));
}

/// Whether `p` stands in `s` at position `i`.
pub fn matches_at(s: &Vec<char>, p: &Vec<char>, i: usize) -> (r: bool)
    ensures
        r == occurs_at(s@, p@, i as int),
{
    if i > s.len() || p.len() > s.len() - i {
        return false;
    }
    let mut k: usize = 0;
    while k < p.len()
        invariant
            k <= p.len(),
            i + p.len() <= s.len(),
            forall|j: int| 0 <= j < k ==> s@[i + j] == #[trigger] p@[j],
        decreases p.len() - k,
    {
        if s[i + k] != p[k] {
            assert(s@.subrange(i as int, i + p@.len())[k as int] != p@[k as int]);
            return false;
        }
        k += 1;
    }
    assert(s@.subrange(i as int, i + p@.len()) =~= p@);
    true
}

/// The first position at or after `from` at which `p` stands in `s`.
pub fn find_from(s: &Vec<char>, p: &Vec<char>, from: usize) -> (r: Option<usize>)
    requires
        from <= s.len(),
    ensures
        match r {
            Some(i) => from <= i && occurs_at(s@, p@, i as int) && forall|j: int|
                from <= j < i ==> !#[trigger] occurs_at(s@, p@, j),
            None => forall|j: int| from <= j ==> !#[trigger] occurs_at(s@, p@, j),
        },
{
    let mut i: usize = from;
    while i < s.len()
        invariant
            from <= i <= s.len(),
            forall|j: int| from <= j < i ==> !#[trigger] occurs_at(s@, p@, j),
        decreases s.len() - i,
    {
        if matches_at(s, p, i) {
            return Some(i);
        }
        i += 1;
    }
    if matches_at(s, p, i) {
        return Some(i);
    }
    None
}

/// Whether `p` stands somewhere in `s`.
pub fn contains(s: &str, p: &str) -> (r: bool)
    ensures
        r == has_part(s@, p@),
{
    let text = to_chars(s);
    let part = to_chars(p);
    match find_from(&text, &part, 0) {
        Some(i) => {
            assert(occurs_at(s@, p@, i as int));
            true
        },
        None => {
            assert forall|j: int| !#[trigger] occurs_at(s@, p@, j) by {}
            false
        },
    }
}

/// Whether `s` begins with `p`.
pub fn starts_with(s: &str, p: &str) -> (r: bool)
    ensures
        r == has_prefix(s@, p@),
{
    let text = to_chars(s);
    let part = to_chars(p);
    matches_at(&text, &part, 0)
}

/// Whether `s` ends with `p`.
pub fn ends_with(s: &str, p: &str) -> (r: bool)
    ensures
        r == has_suffix(s@, p@),
{
    let text = to_chars(s);
    let part = to_chars(p);
    if part.len() > text.len() {
        return false;
    }
    matches_at(&text, &part, text.len() - part.len())
}

/// The first position at or after `from` that holds `c`, or the length.
pub open spec fn first_at(s: Seq<char>, c: char, from: int) -> int
    decreases s.len() - from,
{
    if from < 0 || from >= s.len() {
        s.len() as int
    } else if s[from] == c {
        from
    } else {
        first_at(s, c, from + 1)
    }
}

/// What `first_at` finds.
pub proof fn lemma_first_at(s: Seq<char>, c: char, from: int)
    requires
        0 <= from <= s.len(),
    ensures
        from <= first_at(s, c, from) <= s.len(),
        first_at(s, c, from) < s.len() ==> s[first_at(s, c, from)] == c,
        forall|j: int| from <= j < first_at(s, c, from) ==> #[trigger] s[j] != c,
    decreases s.len() - from,
{
    if from < s.len() && s[from] != c {
        lemma_first_at(s, c, from + 1);
    }
}

/// Finds the first position at or after `from` that holds `c`.
pub fn find_char(s: &Vec<char>, c: char, from: usize) -> (r: usize)
    requires
        from <= s.len(),
    ensures
        r == first_at(s@, c, from as int),
        from <= r <= s.len(),
{
    let mut i: usize = from;
    while i < s.len() && s[i] != c
        invariant
            from <= i <= s.len(),
            first_at(s@, c, i as int) == first_at(s@, c, from as int),
        decreases s.len() - i,
    {
        i += 1;
    }
    i
}

// ---------------------------------------------------------------------------
// Counting
// ---------------------------------------------------------------------------
/// How many characters of `s` satisfy `f`.
pub open spec fn count_where(s: Seq<char>, f: spec_fn(char) -> bool) -> nat
    decreases s.len(),
{
    if s.len() == 0 {
        0
    } else {
        count_where(s.drop_last(), f) + if f(s.last()) {
            1nat
        } else {
            0nat
        }
    }
}

/// No more characters are counted than there are.
pub proof fn lemma_count_where_bound(s: Seq<char>, f: spec_fn(char) -> bool)
    ensures
        count_where(s, f) <= s.len(),
    decreases s.len(),
{
    if s.len() > 0 {
        lemma_count_where_bound(s.drop_last(), f);
    }
}

/// The number of characters of a string.
pub fn char_count(s: &str) -> (r: usize)
    ensures
        r == s@.len(),
{
    s.unicode_len()
}

// ---------------------------------------------------------------------------
// Decimal numbers
// ---------------------------------------------------------------------------
/// The character of a decimal digit.
pub open spec fn digit_char(d: nat) -> char {
    ((d + 48) as u8) as char
}

/// A number written in decimal.
pub open spec fn decimal(n: nat) -> Seq<char>
    decreases n,
{
    if n < 10 {
        seq![digit_char(n)]
    } else {
        decimal(n / 10).push(digit_char(n % 10))
    }
}

/// Writes a number in decimal.
pub fn decimal_text(n: u64) -> (r: String)
    ensures
        r@ == decimal(n as nat),
    decreases n,
{
    if n < 10 {
        let mut out = String::new();
        out.push(((n as u8) + 48) as char);
        assert(out@ =~= seq![digit_char(n as nat)]);
        out
    } else {
        let mut out = decimal_text(n / 10);
        out.push((((n % 10) as u8) + 48) as char);
        out
    }
}

/// The character is a decimal digit.
pub open spec fn is_digit(c: char) -> bool {
    '0' <= c && c <= '9'
}

/// The number that a run of decimal digits stands for.
pub open spec fn digits_value(s: Seq<char>) -> nat
    decreases s.len(),
{
    if s.len() == 0 {
        0
    } else {
        (10 * digits_value(s.drop_last()) + ((s.last() as int) - 48)) as nat
    }
}

/// The digits after an optional plus sign.
pub open spec fn unsigned_digits(s: Seq<char>) -> Seq<char> {
    if s.len() > 0 && s[0] == '+' {
        s.drop_first()
    } else {
        s
    }
}

/// The number that `s` denotes: an optional plus sign and at least one decimal
/// digit, with a value that a machine word can hold.
pub open spec fn unsigned_number(s: Seq<char>) -> Option<nat> {
    let d = unsigned_digits(s);
    if d.len() > 0 && (forall|i: int| 0 <= i < d.len() ==> is_digit(#[trigger] d[i]))
        && digits_value(d) <= usize::MAX {
        Some(digits_value(d))
    } else {
        None
    }
}

/// More digits never make a number smaller.
proof fn lemma_digits_value_grows(s: Seq<char>, k: int)
    requires
        0 <= k <= s.len(),
        forall|i: int| 0 <= i < s.len() ==> is_digit(#[trigger] s[i]),
    ensures
        digits_value(s.take(k)) <= digits_value(s),
    decreases s.len(),
{
    if k == s.len() {
        assert(s.take(k) =~= s);
    } else {
        lemma_digits_value_grows(s.drop_last(), k);
        assert(s.drop_last().take(k) =~= s.take(k));
        assert(is_digit(s[s.len() - 1]));
    }
}

/// Reads a decimal number.
pub fn parse_usize(s: &str) -> (r: Option<usize>)
    ensures
        match r {
            Some(n) => unsigned_number(s@) == Some(n as nat),
            None => unsigned_number(s@) is None,
        },
{
    let chars = to_chars(s);
    let start: usize = if chars.len() > 0 && chars[0] == '+' {
        1
    } else {
        0
    };
    let ghost d = unsigned_digits(s@);
    assert(d =~= s@.skip(start as int));
    if start == chars.len() {
        return None;
    }
    let mut value: usize = 0;
    let mut i: usize = start;
    assert(d.take(0) =~= Seq::<char>::empty());
    while i < chars.len()
        invariant
            start <= i <= chars.len(),
            chars@ == s@,
            d == unsigned_digits(s@),
            d == s@.skip(start as int),
            forall|j: int| 0 <= j < i - start ==> is_digit(#[trigger] d[j]),
            value == digits_value(d.take(i - start)),
        decreases chars.len() - i,
    {
        let c = chars[i];
        assert(d[i - start] == c);
        if !('0' <= c && c <= '9') {
            return None;
        }
        let digit: usize = (c as u8 - 48) as usize;
        let ghost before = d.take(i - start);
        let ghost after = d.take(i - start + 1);
        proof {
            assert(after.drop_last() =~= before);
            assert(digits_value(after) == 10 * value + digit);
            if forall|j: int| 0 <= j < d.len() ==> is_digit(#[trigger] d[j]) {
                lemma_digits_value_grows(d, i - start + 1);
            }
        }
        match value.checked_mul(10) {
            Some(scaled) => match scaled.checked_add(digit) {
                Some(next) => {
                    value = next;
                },
                None => {
                    return None;
                },
            },
            None => {
                return None;
            },
        }
        i += 1;
    }
    assert(d.take(d.len() as int) =~= d);
    Some(value)
}

// ---------------------------------------------------------------------------
// Bounds
// ---------------------------------------------------------------------------
/// `value` moved into the interval `low..=high`.
pub open spec fn clamped(value: int, low: int, high: int) -> int {
    if value < low {
        low
    } else if value > high {
        high
    } else {
        value
    }
}

/// Moves `value` into the interval `low..=high`.
pub fn clamp(value: usize, low: usize, high: usize) -> (r: usize)
    requires
        low <= high,
    ensures
        r == clamped(value as int, low as int, high as int),
        low <= r <= high,
{
    if value < low {
        low
    } else if value > high {
        high
    } else {
        value
    }
}

// ---------------------------------------------------------------------------
// Splitting
// ---------------------------------------------------------------------------
/// The parts of a text between the places where a character stands.
pub open spec fn split_on(s: Seq<char>, c: char) -> Seq<Seq<char>>
    decreases s.len(),
{
    let i = first_at(s, c, 0);
    if 0 <= i < s.len() {
        seq![s.take(i)] + split_on(s.skip(i + 1), c)
    } else {
        seq![s]
    }
}

/// Searching a suffix is searching from its first position.
pub proof fn lemma_first_at_shift(s: Seq<char>, c: char, from: int, k: int)
    requires
        0 <= from,
        0 <= k,
        from + k <= s.len(),
    ensures
        first_at(s, c, from + k) == from + first_at(s.skip(from), c, k),
    decreases s.len() - from - k,
{
    if from + k < s.len() {
        assert(s.skip(from)[k] == s[from + k]);
        if s[from + k] != c {
            lemma_first_at_shift(s, c, from, k + 1);
        }
    }
}

/// The parts of a text between the places where a character stands.
pub fn split(s: &str, c: char) -> (r: Vec<String>)
    ensures
        views(r@) == split_on(s@, c),
{
    let chars = to_chars(s);
    let ghost all = s@;
    let mut parts: Vec<String> = Vec::new();
    let mut start: usize = 0;
    assert(all.skip(0) =~= all);
    assert(views(parts@) + split_on(all, c) =~= split_on(all, c));
    loop
        invariant_except_break
            start <= chars.len(),
            chars@ == all,
            views(parts@) + split_on(all.skip(start as int), c) == split_on(all, c),
        ensures
            views(parts@) == split_on(all, c),
        decreases chars.len() - start,
    {
        let end = find_char(&chars, c, start);
        let part = from_chars(&chars, start, end);
        let ghost rest = all.skip(start as int);
        let ghost i = first_at(rest, c, 0);
        let ghost before = views(parts@);
        let ghost p = part@;
        proof {
            lemma_first_at_shift(all, c, start as int, 0);
            lemma_first_at(rest, c, 0);
            assert(end == start + i);
            assert(p =~= rest.take(i));
        }
        parts.push(part);
        assert(views(parts@) =~= before.push(p));
        if end >= chars.len() {
            assert(rest.take(i) =~= rest);
            assert(views(parts@) =~= before + seq![rest]);
            break;
        }
        proof {
            assert(rest.skip(i + 1) =~= all.skip(end + 1));
            let tail = split_on(all.skip(end + 1), c);
            assert(before + (seq![p] + tail) =~= before.push(p) + tail);
        }
        start = end + 1;
    }
    parts
}

// ---------------------------------------------------------------------------
// Order
// ---------------------------------------------------------------------------
/// A text does not come after another in the order of the dictionary, by the
/// numbers of its characters.
pub open spec fn not_after(a: Seq<char>, b: Seq<char>) -> bool
    decreases a.len(),
{
    if a.len() == 0 {
        true
    } else if b.len() == 0 {
        false
    } else if a[0] == b[0] {
        not_after(a.drop_first(), b.drop_first())
    } else {
        a[0] < b[0]
    }
}

/// The order of texts is total: of two texts one does not come after the other,
/// both only where they are equal, and what holds of neighbours holds across
/// them.
pub proof fn law_texts_are_ordered(a: Seq<char>, b: Seq<char>, c: Seq<char>)
    ensures
        not_after(a, b) || not_after(b, a),
        not_after(a, b) && not_after(b, a) ==> a == b,
        not_after(a, b) && not_after(b, c) ==> not_after(a, c),
    decreases a.len(),
{
    if a.len() > 0 && b.len() > 0 {
        let c_rest = if c.len() > 0 {
            c.drop_first()
        } else {
            c
        };
        law_texts_are_ordered(a.drop_first(), b.drop_first(), c_rest);
        if not_after(a, b) && not_after(b, a) {
            assert(a =~= seq![a[0]] + a.drop_first());
            assert(b =~= seq![b[0]] + b.drop_first());
        }
    } else if a.len() == 0 && b.len() == 0 {
        assert(a =~= b);
    }
}

/// Whether a text does not come after another.
pub fn comes_no_later(a: &str, b: &str) -> (r: bool)
    ensures
        r == not_after(a@, b@),
{
    let left = to_chars(a);
    let right = to_chars(b);
    let mut i: usize = 0;
    assert(a@.skip(0) =~= a@);
    assert(b@.skip(0) =~= b@);
    while i < left.len() && i < right.len() && left[i] == right[i]
        invariant
            i <= left.len(),
            i <= right.len(),
            left@ == a@,
            right@ == b@,
            not_after(a@.skip(i as int), b@.skip(i as int)) == not_after(a@, b@),
        decreases left.len() - i,
    {
        assert(a@.skip(i as int)[0] == a@[i as int]);
        assert(b@.skip(i as int)[0] == b@[i as int]);
        assert(a@.skip(i as int).drop_first() =~= a@.skip(i + 1));
        assert(b@.skip(i as int).drop_first() =~= b@.skip(i + 1));
        i += 1;
    }
    if i >= left.len() {
        return true;
    }
    if i >= right.len() {
        return false;
    }
    assert(a@.skip(i as int)[0] == a@[i as int]);
    assert(b@.skip(i as int)[0] == b@[i as int]);
    left[i] < right[i]
}

/// Texts that stand in order.
pub open spec fn in_order(list: Seq<Seq<char>>) -> bool {
    forall|i: int, j: int|
        0 <= i <= j < list.len() ==> not_after(#[trigger] list[i], #[trigger] list[j])
}

/// Puts a text into a list that stands in order.
pub fn insert_in_order(list: &mut Vec<String>, text: String)
    requires
        in_order(views(old(list)@)),
    ensures
        in_order(views(final(list)@)),
        views(final(list)@).to_multiset() == views(old(list)@).to_multiset().insert(text@),
{
    let ghost before = views(list@);
    let ghost x = text@;
    let mut p: usize = 0;
    while p < list.len() && !comes_no_later(text.as_str(), list[p].as_str())
        invariant
            p <= list.len(),
            before == views(list@),
            x == text@,
            forall|i: int| 0 <= i < p ==> !not_after(x, #[trigger] before[i]),
        decreases list.len() - p,
    {
        assert(before[p as int] == list@[p as int]@);
        p += 1;
    }
    let ghost at = p as int;
    proof {
        if at < before.len() {
            assert(before[at] == list@[at]@);
        }
    }
    list.insert(p, text);
    proof {
        let now = views(list@);
        assert(now =~= before.insert(at, x));
        vstd::seq_lib::to_multiset_insert(before, at, x);
        assert forall|i: int, j: int| 0 <= i <= j < now.len() implies not_after(
            #[trigger] now[i],
            #[trigger] now[j],
        ) by {
            if i < at {
                assert(now[i] == before[i]);
                law_texts_are_ordered(x, before[i], x);
                if j > at {
                    assert(now[j] == before[j - 1]);
                } else if j < at {
                    assert(now[j] == before[j]);
                }
            } else if i == at {
                if j == at {
                    law_texts_are_ordered(x, x, x);
                } else {
                    assert(now[j] == before[j - 1]);
                    law_texts_are_ordered(x, before[at], before[j - 1]);
                }
            } else {
                assert(now[i] == before[i - 1]);
                assert(now[j] == before[j - 1]);
            }
        }
    }
}

// ---------------------------------------------------------------------------
// What the words of this module mean
// ---------------------------------------------------------------------------
/// Parts are written one after another with nothing between them.
pub proof fn law_joining_adds_nothing(left: Seq<Seq<char>>, part: Seq<char>, right: Seq<Seq<char>>)
    ensures
        joined(left + seq![part] + right) == joined(left) + part + joined(right),
        joined(Seq::empty()) == Seq::<char>::empty(),
        joined(seq![part]) == part,
{
    lemma_joined_cons(part, right);
    lemma_joined_add(left, seq![part] + right);
    lemma_joined_cons(part, Seq::empty());
    assert(seq![part] + Seq::<Seq<char>>::empty() =~= seq![part]);
    assert(part + joined(Seq::<Seq<char>>::empty()) =~= part);
    assert(left + seq![part] + right =~= left + (seq![part] + right));
    assert(joined(left) + part + joined(right) =~= joined(left) + (part + joined(right)));
}

/// Of the ASCII characters, the space, the tabulators, the line feeds, the form
/// feed and the carriage return are white space; of the others, the spaces and
/// line ends of Unicode.
pub proof fn law_white_space_is_that_of_unicode(c: char)
    ensures
        (c as u32) < 0x80 ==> (is_white_space(c) <==> c == ' ' || c == '\t' || c == '\n' || c
            == '\u{b}' || c == '\u{c}' || c == '\r'),
        (c as u32) >= 0x80 ==> (is_white_space(c) <==> c as u32 == 0x85 || c as u32 == 0xa0
            || c as u32 == 0x1680 || 0x2000 <= c as u32 <= 0x200a || 0x2028 <= c as u32 <= 0x2029
            || c as u32 == 0x202f || c as u32 == 0x205f || c as u32 == 0x3000),
{
}

/// Trimming takes away the white space on either side and nothing else.
#[verifier::spinoff_prover]
pub proof fn law_trimming_takes_white_space_alone(
    front: Seq<char>,
    core: Seq<char>,
    back: Seq<char>,
)
    requires
        forall|i: int| 0 <= i < front.len() ==> is_white_space(#[trigger] front[i]),
        forall|i: int| 0 <= i < back.len() ==> is_white_space(#[trigger] back[i]),
        core.len() > 0 ==> !is_white_space(core[0]) && !is_white_space(core.last()),
        core.len() == 0 ==> back.len() == 0,
    ensures
        trimmed(front + core + back) == core,
        trim_start(front + core + back) == core + back,
        trim_end(front + core + back) == (if core.len() > 0 {
            front + core
        } else {
            Seq::empty()
        }),
        is_blank(front + core + back) <==> core.len() == 0,
{
    let whole = front + core + back;
    let n = front.len() as int;
    assert(whole.take(n) =~= front);
    assert(whole.skip(n) =~= core + back);
    lemma_trim_start_at(whole, n);
    let rest = core + back;
    assert(rest.skip(core.len() as int) =~= back);
    lemma_trim_end_at(rest, core.len() as int);
    assert(rest.take(core.len() as int) =~= core);
    if core.len() > 0 {
        assert(whole[n] == core[0]);
        assert(whole[n + core.len() - 1] == core.last());
        assert(whole.skip(n + core.len()) =~= back);
        lemma_trim_end_at(whole, n + core.len());
        assert(whole.take(n + core.len()) =~= front + core);
    } else {
        assert(whole =~= front);
        assert(whole.skip(0) =~= whole);
        lemma_trim_end_at(whole, 0);
        assert(whole.take(0) =~= Seq::<char>::empty());
    }
}

/// Every text is white space, a trimmed text and white space.
pub proof fn law_every_text_can_be_trimmed(s: Seq<char>) -> (r: (Seq<char>, Seq<char>))
    ensures
        s == r.0 + trimmed(s) + r.1,
        forall|i: int| 0 <= i < r.0.len() ==> is_white_space(#[trigger] r.0[i]),
        forall|i: int| 0 <= i < r.1.len() ==> is_white_space(#[trigger] r.1[i]),
        trimmed(s).len() > 0 ==> !is_white_space(trimmed(s)[0]) && !is_white_space(
            trimmed(s).last(),
        ),
        trimmed(s).len() == 0 ==> r.1.len() == 0,
{
    lemma_trim_start_suffix(s);
    let t = trim_start(s);
    lemma_trim_end_prefix(t);
    let k = s.len() - t.len();
    let n = trimmed(s).len() as int;
    if n == 0 {
        lemma_trimmed_empty(s);
        assert(s + trimmed(s) + Seq::<char>::empty() =~= s);
        (s, Seq::empty())
    } else {
        assert(trimmed(s)[0] == t[0]);
        assert(s =~= s.take(k) + trimmed(s) + t.skip(n));
        (s.take(k), t.skip(n))
    }
}

/// In lower case the letters `A` to `Z` are the letters `a` to `z`, and every
/// other character stays as it is, in its place.
pub proof fn law_lower_case_changes_capitals_alone(s: Seq<char>, i: int)
    requires
        0 <= i < s.len(),
    ensures
        ascii_lower(s).len() == s.len(),
        0x41 <= s[i] as u32 <= 0x5a ==> ascii_lower(s)[i] as u32 == s[i] as u32 + 0x20,
        !(0x41 <= s[i] as u32 <= 0x5a) ==> ascii_lower(s)[i] == s[i],
        ascii_lower(ascii_lower(s)) == ascii_lower(s),
{
    assert(ascii_lower(ascii_lower(s)) =~= ascii_lower(s));
}

/// A text is found in every text that holds it, and in no other.
pub proof fn law_what_stands_in_a_text_is_found(front: Seq<char>, part: Seq<char>, back: Seq<char>)
    ensures
        has_part(front + part + back, part),
        has_prefix(part + back, part),
        has_suffix(front + part, part),
{
    let whole = front + part + back;
    let n = front.len() as int;
    assert(whole.subrange(n, n + part.len()) =~= part);
    assert(occurs_at(whole, part, n));
    assert((part + back).subrange(0, part.len() as int) =~= part);
    assert((front + part).subrange(n, n + part.len()) =~= part);
}

/// What is found in a text stands in it: the text is something in front of it,
/// the part, and something behind it.
pub proof fn law_what_is_found_stands_in_the_text(s: Seq<char>, part: Seq<char>)
    ensures
        has_part(s, part) ==> exists|front: Seq<char>, back: Seq<char>|
            s == #[trigger] (front + part + back),
        has_prefix(s, part) ==> s == part + s.skip(part.len() as int),
        has_suffix(s, part) ==> s == s.take(s.len() - part.len()) + part,
{
    if has_part(s, part) {
        let i = choose|i: int| #[trigger] occurs_at(s, part, i);
        let (front, back) = (s.take(i), s.skip(i + part.len()));
        assert(s =~= s.take(i) + s.subrange(i, i + part.len()) + s.skip(i + part.len()));
        assert(s == front + part + back);
    }
    if has_prefix(s, part) {
        assert(s =~= s.subrange(0, part.len() as int) + s.skip(part.len() as int));
    }
    if has_suffix(s, part) {
        let n = s.len() - part.len();
        assert(s =~= s.take(n) + s.subrange(n, n + part.len()));
    }
}

/// Counting goes character by character.
pub proof fn law_counts_add_up(a: Seq<char>, b: Seq<char>, c: char, f: spec_fn(char) -> bool)
    ensures
        count_where(a + b, f) == count_where(a, f) + count_where(b, f),
        count_where(seq![c], f) == (if f(c) {
            1nat
        } else {
            0nat
        }),
        count_where(Seq::empty(), f) == 0,
    decreases b.len(),
{
    assert(seq![c].drop_last() =~= Seq::<char>::empty());
    assert(count_where(Seq::<char>::empty(), f) == 0);
    if b.len() == 0 {
        assert(a + b =~= a);
    } else {
        assert((a + b).drop_last() =~= a + b.drop_last());
        law_counts_add_up(a, b.drop_last(), c, f);
    }
}

/// Characters of which none satisfies a test count nothing.
pub proof fn lemma_counts_nothing(s: Seq<char>, f: spec_fn(char) -> bool)
    requires
        forall|i: int| 0 <= i < s.len() ==> !f(#[trigger] s[i]),
    ensures
        count_where(s, f) == 0,
    decreases s.len(),
{
    if s.len() > 0 {
        let init = s.drop_last();
        assert forall|i: int| 0 <= i < init.len() implies !f(#[trigger] init[i]) by {
            assert(init[i] == s[i]);
        }
        lemma_counts_nothing(init, f);
        assert(!f(s[s.len() - 1]));
    }
}

/// What white space on either side adds to a count is taken away by trimming.
pub proof fn lemma_count_trimmed(s: Seq<char>, f: spec_fn(char) -> bool)
    requires
        forall|c: char| is_white_space(c) ==> !#[trigger] f(c),
    ensures
        count_where(trimmed(s), f) == count_where(s, f),
{
    let (front, back) = law_every_text_can_be_trimmed(s);
    let core = trimmed(s);
    law_counts_add_up(front, core, ' ', f);
    law_counts_add_up(front + core, back, ' ', f);
    lemma_counts_nothing(front, f);
    lemma_counts_nothing(back, f);
}

/// A number that is written in decimal is read again, also with a plus sign and
/// with white space around it.
pub proof fn law_written_numbers_are_read_again(n: nat)
    requires
        n <= usize::MAX,
    ensures
        unsigned_number(decimal(n)) == Some(n),
        unsigned_number(seq!['+'] + decimal(n)) == Some(n),
        trimmed(decimal(n)) == decimal(n),
        n > 0 ==> decimal(n)[0] != '0',
{
    lemma_decimal(n);
    let d = decimal(n);
    assert(is_digit(d[0]));
    assert(is_digit(d[d.len() - 1]));
    law_trimming_takes_white_space_alone(Seq::empty(), d, Seq::empty());
    assert(Seq::<char>::empty() + d + Seq::<char>::empty() =~= d);
    assert((seq!['+'] + d).drop_first() =~= d);
}

proof fn lemma_decimal(n: nat)
    ensures
        decimal(n).len() > 0,
        forall|i: int| 0 <= i < decimal(n).len() ==> is_digit(#[trigger] decimal(n)[i]),
        digits_value(decimal(n)) == n,
        n > 0 ==> decimal(n)[0] != '0',
    decreases n,
{
    if n < 10 {
        assert(seq![digit_char(n)].drop_last() =~= Seq::<char>::empty());
        assert(digits_value(Seq::<char>::empty()) == 0);
    } else {
        lemma_decimal(n / 10);
        assert(decimal(n).drop_last() =~= decimal(n / 10));
        assert(decimal(n)[0] == decimal(n / 10)[0]);
    }
}

/// A text with any other character in it is no number, and neither is one
/// without a digit.
pub proof fn law_only_digits_make_a_number(s: Seq<char>, i: int)
    requires
        0 <= i < s.len(),
        !('0' <= s[i] && s[i] <= '9'),
        s[i] != '+' || i > 0 || s.len() == 1,
    ensures
        unsigned_number(s) is None,
        unsigned_number(Seq::empty()) is None,
{
    let d = unsigned_digits(s);
    if s[0] == '+' {
        if i > 0 {
            assert(d[i - 1] == s[i]);
        }
    } else {
        assert(d[i] == s[i]);
    }
}

/// A value is moved to the nearest number between two limits.
pub proof fn law_limits_hold(value: int, low: int, high: int)
    requires
        low <= high,
    ensures
        low <= clamped(value, low, high) <= high,
        low <= value <= high ==> clamped(value, low, high) == value,
        value < low ==> clamped(value, low, high) == low,
        value > high ==> clamped(value, low, high) == high,
{
}

/// A text is split at each place where a character stands, and nowhere else; no
/// part is left out, empty ones included.
pub proof fn law_texts_are_split_at_a_character(a: Seq<char>, b: Seq<char>, c: char)
    ensures
        split_on(a + seq![c] + b, c) == split_on(a, c) + split_on(b, c),
        (forall|i: int| 0 <= i < b.len() ==> #[trigger] b[i] != c) ==> split_on(b, c) == seq![b],
    decreases a.len(),
{
    let whole = a + seq![c] + b;
    lemma_first_at(a, c, 0);
    lemma_first_at(b, c, 0);
    lemma_first_at(whole, c, 0);
    let at = first_at(a, c, 0);
    let there = first_at(whole, c, 0);
    assert(whole[a.len() as int] == c);
    assert(forall|j: int| 0 <= j < a.len() ==> #[trigger] whole[j] == a[j]);
    assert(whole[at] == c);
    assert(there <= at);
    assert(there < at ==> whole[there] == a[there]);
    assert(whole.take(at) =~= a.take(at));
    if at < a.len() {
        let rest = a.skip(at + 1);
        assert(whole.skip(at + 1) =~= rest + seq![c] + b);
        law_texts_are_split_at_a_character(rest, b, c);
        assert(seq![a.take(at)] + (split_on(rest, c) + split_on(b, c)) =~= (seq![a.take(at)]
            + split_on(rest, c)) + split_on(b, c));
    } else {
        assert(a.take(at) =~= a);
        assert(whole.skip(at + 1) =~= b);
    }
}

/// Texts are ordered by the first character in which they differ, and a text
/// comes before every longer one that begins with it.
pub proof fn law_the_first_difference_decides(
    front: Seq<char>,
    x: char,
    a: Seq<char>,
    y: char,
    b: Seq<char>,
)
    requires
        (x as u32) < (y as u32),
    ensures
        not_after(front + seq![x] + a, front + seq![y] + b),
        !not_after(front + seq![y] + b, front + seq![x] + a),
        not_after(front, front + a),
        a.len() > 0 ==> !not_after(front + a, front),
    decreases front.len(),
{
    let (p, q) = (front + seq![x] + a, front + seq![y] + b);
    if front.len() == 0 {
        assert(p[0] == x);
        assert(q[0] == y);
        assert(front + a =~= a);
    } else {
        let rest = front.drop_first();
        law_the_first_difference_decides(rest, x, a, y, b);
        assert(p.drop_first() =~= rest + seq![x] + a);
        assert(q.drop_first() =~= rest + seq![y] + b);
        assert((front + a).drop_first() =~= rest + a);
    }
}

/// A list of strings stands for their characters, one by one.
pub proof fn law_strings_stand_for_their_characters(list: Seq<String>, i: int)
    requires
        0 <= i < list.len(),
    ensures
        views(list).len() == list.len(),
        views(list)[i] == list[i]@,
{
}

/// Of texts that stand in order none comes after one behind it.
pub proof fn law_texts_in_order_do_not_go_back(list: Seq<Seq<char>>, i: int, j: int)
    requires
        in_order(list),
        0 <= i <= j < list.len(),
    ensures
        not_after(list[i], list[j]),
{
}

} // verus!
