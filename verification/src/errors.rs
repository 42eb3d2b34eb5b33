//! Classification of failures by the text of their message.

use crate::text::{contains, to_ascii_lowercase};
use vstd::prelude::*;

verus! {

/// The message speaks of too many requests.
pub open spec fn speaks_of_rate_limit(error: Seq<char>) -> bool {
    let lower = crate::text::ascii_lower(error);
    ||| crate::text::has_part(lower, "429"@)
    ||| crate::text::has_part(lower, "rate limit"@)
    ||| crate::text::has_part(lower, "too many requests"@)
}

/// The message speaks of a reply that could not be decoded.
pub open spec fn speaks_of_decoding(error: Seq<char>) -> bool {
    let lower = crate::text::ascii_lower(error);
    ||| crate::text::has_part(lower, "deepseek_response_body_decode_error"@)
    ||| crate::text::has_part(lower, "error decoding response body"@)
    ||| crate::text::has_part(lower, "respuesta invalida de deepseek"@)
}

/// The message speaks of a transport failure that may pass.
pub open spec fn speaks_of_transport(error: Seq<char>) -> bool {
    let lower = crate::text::ascii_lower(error);
    ||| crate::text::has_part(lower, "error de red"@)
    ||| crate::text::has_part(lower, "timeout"@)
    ||| crate::text::has_part(lower, "timed out"@)
    ||| crate::text::has_part(lower, "connection reset"@)
    ||| crate::text::has_part(lower, "unexpected eof"@)
    ||| crate::text::has_part(lower, "error de deepseek 500"@)
    ||| crate::text::has_part(lower, "error de deepseek 502"@)
    ||| crate::text::has_part(lower, "error de deepseek 503"@)
    ||| crate::text::has_part(lower, "error de deepseek 504"@)
    ||| speaks_of_server_failure(lower)
}

/// A provider answered with a status of the five hundreds.
pub open spec fn speaks_of_server_failure(lower: Seq<char>) -> bool {
    ||| crate::text::has_part(lower, "error del proveedor deepseek (5"@)
    ||| crate::text::has_part(lower, "error del proveedor openai (5"@)
    ||| crate::text::has_part(lower, "error de deepseek (5"@)
    ||| crate::text::has_part(lower, "error de openai (5"@)
    ||| crate::text::has_part(lower, "error de gemini (5"@)
}

/// The message says that the reply was cut off at the length limit.
pub open spec fn speaks_of_truncation(error: Seq<char>) -> bool {
    crate::text::has_part(error, "TRUNCATED_BY_LENGTH"@)
}

/// The message speaks of a failure that a second attempt would repeat.
pub open spec fn speaks_of_permanent_failure(error: Seq<char>) -> bool {
    ||| crate::text::has_part(crate::text::ascii_lower(error), "truncated_by_length"@)
    ||| speaks_of_decoding(error)
}

/// A reply that was cut off or could not be decoded is not asked for again.
pub proof fn law_truncation_and_decoding_are_permanent(error: Seq<char>)
    ensures
        speaks_of_truncation(error) ==> speaks_of_permanent_failure(error),
        speaks_of_decoding(error) ==> speaks_of_permanent_failure(error),
{
    if speaks_of_truncation(error) {
        reveal_strlit("TRUNCATED_BY_LENGTH");
        reveal_strlit("truncated_by_length");
        let mark = "TRUNCATED_BY_LENGTH"@;
        let i = choose|i: int| #[trigger] crate::text::occurs_at(error, mark, i);
        let lower = crate::text::ascii_lower(error);
        assert forall|k: int| 0 <= k < mark.len() implies #[trigger] error[i + k] == mark[k] by {
            assert(error.subrange(i, i + mark.len())[k] == mark[k]);
        }
        assert(crate::text::ascii_lower(mark) =~= "truncated_by_length"@);
        assert(lower.subrange(i, i + mark.len()) =~= crate::text::ascii_lower(mark));
        assert(crate::text::occurs_at(lower, "truncated_by_length"@, i));
    }
}

/// Whether the provider asked for fewer requests.
pub fn is_rate_limit_error(error: &str) -> (r: bool)
    ensures
        r == speaks_of_rate_limit(error@),
{
    let lower = to_ascii_lowercase(error);
    contains(lower.as_str(), "429") || contains(lower.as_str(), "rate limit") || contains(
        lower.as_str(),
        "too many requests",
    )
}

/// Whether the provider's reply could not be decoded.
pub fn is_response_decode_error(error: &str) -> (r: bool)
    ensures
        r == speaks_of_decoding(error@),
{
    let lower = to_ascii_lowercase(error);
    contains(lower.as_str(), "deepseek_response_body_decode_error") || contains(
        lower.as_str(),
        "error decoding response body",
    ) || contains(lower.as_str(), "respuesta invalida de deepseek")
}

/// Whether the failure is one of the network, or of a server for the moment.
pub fn is_transient_transport_error(error: &str) -> (r: bool)
    ensures
        r == speaks_of_transport(error@),
{
    let lower = to_ascii_lowercase(error);
    contains(lower.as_str(), "error de red") || contains(lower.as_str(), "timeout") || contains(
        lower.as_str(),
        "timed out",
    ) || contains(lower.as_str(), "connection reset") || contains(lower.as_str(), "unexpected eof")
        || contains(lower.as_str(), "error de deepseek 500") || contains(
        lower.as_str(),
        "error de deepseek 502",
    ) || contains(lower.as_str(), "error de deepseek 503") || contains(
        lower.as_str(),
        "error de deepseek 504",
    ) || is_server_failure(lower.as_str())
}

fn is_server_failure(lower: &str) -> (r: bool)
    ensures
        r == speaks_of_server_failure(lower@),
{
    contains(lower, "error del proveedor deepseek (5") || contains(
        lower,
        "error del proveedor openai (5",
    ) || contains(lower, "error de deepseek (5") || contains(lower, "error de openai (5")
        || contains(lower, "error de gemini (5")
}

/// Whether the reply was cut off at the length limit.
pub fn is_truncated_by_length_error(error: &str) -> (r: bool)
    ensures
        r == speaks_of_truncation(error@),
{
    contains(error, "TRUNCATED_BY_LENGTH")
}

/// Whether a second attempt would fail in the same way.
pub fn is_non_retryable_error(error: &str) -> (r: bool)
    ensures
        r == speaks_of_permanent_failure(error@),
{
    let lower = to_ascii_lowercase(error);
    contains(lower.as_str(), "truncated_by_length") || is_response_decode_error(error)
}

/// The error may go away when the chapter is sent again.
pub open spec fn worth_retrying(error: Seq<char>) -> bool {
    speaks_of_decoding(error) || speaks_of_rate_limit(error) || speaks_of_transport(error)
}

/// Whether an error may go away when the chapter is sent again.
pub fn is_worth_retrying(error: &str) -> (r: bool)
    ensures
        r == worth_retrying(error@),
{
    is_response_decode_error(error) || is_rate_limit_error(error) || is_transient_transport_error(
        error,
    )
}

// ---------------------------------------------------------------------------
// What is promised of the classes
// ---------------------------------------------------------------------------
/// A mark in lower case is found in a message in lower case, wherever it stands.
proof fn lemma_mark(front: Seq<char>, mark: Seq<char>, back: Seq<char>)
    requires
        forall|i: int| 0 <= i < mark.len() ==> !('A' <= #[trigger] mark[i] && mark[i] <= 'Z'),
    ensures
        crate::text::has_part(crate::text::ascii_lower(front + mark + back), mark),
{
    let (a, b) = (crate::text::ascii_lower(front), crate::text::ascii_lower(back));
    assert(crate::text::ascii_lower(front + mark + back) =~= a + mark + b);
    crate::text::law_what_stands_in_a_text_is_found(a, mark, b);
}

/// A message that holds one of these marks, wherever, speaks of too many
/// requests.
#[verifier::spinoff_prover]
pub proof fn law_rate_limits_are_told_by_their_marks(front: Seq<char>, back: Seq<char>)
    ensures
        speaks_of_rate_limit(front + "429"@ + back),
        speaks_of_rate_limit(front + "rate limit"@ + back),
        speaks_of_rate_limit(front + "too many requests"@ + back),
{
    assert(speaks_of_rate_limit(front + "429"@ + back)) by {
        reveal_strlit("429");
        lemma_mark(front, "429"@, back);
    }
    assert(speaks_of_rate_limit(front + "rate limit"@ + back)) by {
        reveal_strlit("rate limit");
        lemma_mark(front, "rate limit"@, back);
    }
    assert(speaks_of_rate_limit(front + "too many requests"@ + back)) by {
        reveal_strlit("too many requests");
        lemma_mark(front, "too many requests"@, back);
    }
}

/// A message that holds one of these marks, wherever, speaks of an answer that
/// could not be read.
#[verifier::spinoff_prover]
pub proof fn law_unreadable_answers_are_told_by_their_marks(front: Seq<char>, back: Seq<char>)
    ensures
        speaks_of_decoding(front + "deepseek_response_body_decode_error"@ + back),
        speaks_of_decoding(front + "error decoding response body"@ + back),
        speaks_of_decoding(front + "respuesta invalida de deepseek"@ + back),
{
    assert(speaks_of_decoding(front + "deepseek_response_body_decode_error"@ + back)) by {
        reveal_strlit("deepseek_response_body_decode_error");
        lemma_mark(front, "deepseek_response_body_decode_error"@, back);
    }
    assert(speaks_of_decoding(front + "error decoding response body"@ + back)) by {
        reveal_strlit("error decoding response body");
        lemma_mark(front, "error decoding response body"@, back);
    }
    assert(speaks_of_decoding(front + "respuesta invalida de deepseek"@ + back)) by {
        reveal_strlit("respuesta invalida de deepseek");
        lemma_mark(front, "respuesta invalida de deepseek"@, back);
    }
}

/// A message that holds one of these marks, wherever, speaks of a failure on the
/// way or of the provider's side.
#[verifier::spinoff_prover]
pub proof fn law_transport_failures_are_told_by_their_marks(front: Seq<char>, back: Seq<char>)
    ensures
        speaks_of_transport(front + "error de red"@ + back),
        speaks_of_transport(front + "timeout"@ + back),
        speaks_of_transport(front + "timed out"@ + back),
        speaks_of_transport(front + "connection reset"@ + back),
        speaks_of_transport(front + "unexpected eof"@ + back),
        speaks_of_transport(front + "error de deepseek 500"@ + back),
        speaks_of_transport(front + "error de deepseek 502"@ + back),
        speaks_of_transport(front + "error de deepseek 503"@ + back),
        speaks_of_transport(front + "error de deepseek 504"@ + back),
        speaks_of_transport(front + "error del proveedor deepseek (5"@ + back),
        speaks_of_transport(front + "error del proveedor openai (5"@ + back),
        speaks_of_transport(front + "error de deepseek (5"@ + back),
        speaks_of_transport(front + "error de openai (5"@ + back),
        speaks_of_transport(front + "error de gemini (5"@ + back),
{
    assert(speaks_of_transport(front + "error de red"@ + back)) by {
        reveal_strlit("error de red");
        lemma_mark(front, "error de red"@, back);
    }
    assert(speaks_of_transport(front + "timeout"@ + back)) by {
        reveal_strlit("timeout");
        lemma_mark(front, "timeout"@, back);
    }
    assert(speaks_of_transport(front + "timed out"@ + back)) by {
        reveal_strlit("timed out");
        lemma_mark(front, "timed out"@, back);
    }
    assert(speaks_of_transport(front + "connection reset"@ + back)) by {
        reveal_strlit("connection reset");
        lemma_mark(front, "connection reset"@, back);
    }
    assert(speaks_of_transport(front + "unexpected eof"@ + back)) by {
        reveal_strlit("unexpected eof");
        lemma_mark(front, "unexpected eof"@, back);
    }
    assert(speaks_of_transport(front + "error de deepseek 500"@ + back)) by {
        reveal_strlit("error de deepseek 500");
        lemma_mark(front, "error de deepseek 500"@, back);
    }
    assert(speaks_of_transport(front + "error de deepseek 502"@ + back)) by {
        reveal_strlit("error de deepseek 502");
        lemma_mark(front, "error de deepseek 502"@, back);
    }
    assert(speaks_of_transport(front + "error de deepseek 503"@ + back)) by {
        reveal_strlit("error de deepseek 503");
        lemma_mark(front, "error de deepseek 503"@, back);
    }
    assert(speaks_of_transport(front + "error de deepseek 504"@ + back)) by {
        reveal_strlit("error de deepseek 504");
        lemma_mark(front, "error de deepseek 504"@, back);
    }
    assert(speaks_of_transport(front + "error del proveedor deepseek (5"@ + back)) by {
        reveal_strlit("error del proveedor deepseek (5");
        lemma_mark(front, "error del proveedor deepseek (5"@, back);
    }
    assert(speaks_of_transport(front + "error del proveedor openai (5"@ + back)) by {
        reveal_strlit("error del proveedor openai (5");
        lemma_mark(front, "error del proveedor openai (5"@, back);
    }
    assert(speaks_of_transport(front + "error de deepseek (5"@ + back)) by {
        reveal_strlit("error de deepseek (5");
        lemma_mark(front, "error de deepseek (5"@, back);
    }
    assert(speaks_of_transport(front + "error de openai (5"@ + back)) by {
        reveal_strlit("error de openai (5");
        lemma_mark(front, "error de openai (5"@, back);
    }
    assert(speaks_of_transport(front + "error de gemini (5"@ + back)) by {
        reveal_strlit("error de gemini (5");
        lemma_mark(front, "error de gemini (5"@, back);
    }
}

/// A message that holds none of the marks speaks of none of these failures, and
/// capitals make no difference.
pub proof fn law_other_messages_speak_of_nothing(error: Seq<char>)
    ensures
        speaks_of_rate_limit(error) ==> crate::text::has_part(crate::text::ascii_lower(error), "429"@)
            || crate::text::has_part(crate::text::ascii_lower(error), "rate limit"@)
            || crate::text::has_part(crate::text::ascii_lower(error), "too many requests"@),
        speaks_of_decoding(error) ==> crate::text::has_part(crate::text::ascii_lower(error), "deepseek_response_body_decode_error"@)
            || crate::text::has_part(crate::text::ascii_lower(error), "error decoding response body"@)
            || crate::text::has_part(crate::text::ascii_lower(error), "respuesta invalida de deepseek"@),
        speaks_of_transport(error) ==> crate::text::has_part(crate::text::ascii_lower(error), "error de red"@)
            || crate::text::has_part(crate::text::ascii_lower(error), "timeout"@)
            || crate::text::has_part(crate::text::ascii_lower(error), "timed out"@)
            || crate::text::has_part(crate::text::ascii_lower(error), "connection reset"@)
            || crate::text::has_part(crate::text::ascii_lower(error), "unexpected eof"@)
            || crate::text::has_part(crate::text::ascii_lower(error), "error de deepseek 500"@)
            || crate::text::has_part(crate::text::ascii_lower(error), "error de deepseek 502"@)
            || crate::text::has_part(crate::text::ascii_lower(error), "error de deepseek 503"@)
            || crate::text::has_part(crate::text::ascii_lower(error), "error de deepseek 504"@)
            || crate::text::has_part(crate::text::ascii_lower(error), "error del proveedor deepseek (5"@)
            || crate::text::has_part(crate::text::ascii_lower(error), "error del proveedor openai (5"@)
            || crate::text::has_part(crate::text::ascii_lower(error), "error de deepseek (5"@)
            || crate::text::has_part(crate::text::ascii_lower(error), "error de openai (5"@)
            || crate::text::has_part(crate::text::ascii_lower(error), "error de gemini (5"@),
        speaks_of_rate_limit(crate::text::ascii_lower(error)) == speaks_of_rate_limit(error),
        speaks_of_decoding(crate::text::ascii_lower(error)) == speaks_of_decoding(error),
        speaks_of_transport(crate::text::ascii_lower(error)) == speaks_of_transport(error),
{
    let lower = crate::text::ascii_lower(error);
    assert(crate::text::ascii_lower(lower) =~= lower);
}

/// An answer was cut short where the message says so, and nowhere else.
pub proof fn law_truncation_is_told_by_its_mark(front: Seq<char>, back: Seq<char>, error: Seq<char>)
    ensures
        speaks_of_truncation(front + "TRUNCATED_BY_LENGTH"@ + back),
        speaks_of_truncation(error) ==> exists|a: Seq<char>, b: Seq<char>|
            error == #[trigger] (a + "TRUNCATED_BY_LENGTH"@ + b),
{
    crate::text::law_what_stands_in_a_text_is_found(front, "TRUNCATED_BY_LENGTH"@, back);
    crate::text::law_what_is_found_stands_in_the_text(error, "TRUNCATED_BY_LENGTH"@);
}

/// A second attempt is in vain after an answer that was cut short or could not
/// be read, and after no other.
pub proof fn law_second_attempts_are_in_vain_after(error: Seq<char>)
    ensures
        speaks_of_permanent_failure(error) <==> speaks_of_decoding(error) || crate::text::has_part(
            crate::text::ascii_lower(error),
            "truncated_by_length"@,
        ),
        worth_retrying(error) <==> speaks_of_decoding(error) || speaks_of_rate_limit(error)
            || speaks_of_transport(error),
{
}

} // verus!
