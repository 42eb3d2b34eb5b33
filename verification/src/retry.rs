//! Sending one text until it is translated or given up: waits that double, and
//! a stricter request where Chinese characters slip into Spanish.

use crate::errors::is_non_retryable_error;
use crate::quality::should_retry_for_han;
use vstd::prelude::*;
use vstd::string::*;

verus! {

broadcast use vstd::string::group_string_axioms;

pub const FIRST_DELAY_MS: u64 = 1_000;

pub const MAX_DELAY_MS: u64 = 10_000;

/// How many milliseconds pass before a text is sent again, after a number of
/// retries.
pub open spec fn delay_after(attempt: nat) -> nat
    decreases attempt,
{
    if attempt == 0 {
        FIRST_DELAY_MS as nat
    } else {
        let twice = 2 * delay_after((attempt - 1) as nat);
        if twice < MAX_DELAY_MS {
            twice
        } else {
            MAX_DELAY_MS as nat
        }
    }
}

/// Delays grow from retry to retry and never pass their limit.
pub proof fn law_delays_grow_to_a_limit(attempt: nat)
    ensures
        FIRST_DELAY_MS <= delay_after(attempt) <= MAX_DELAY_MS,
        delay_after(attempt) <= delay_after(attempt + 1) <= 2 * delay_after(attempt),
    decreases attempt,
{
    if attempt > 0 {
        law_delays_grow_to_a_limit((attempt - 1) as nat);
    }
}

/// How an answer is received: as a whole, or piece by piece.
#[derive(Debug, Clone, Copy, PartialEq, Eq, Structural)]
pub enum Flow {
    Plain,
    Streaming,
}

/// Decides how an answer is received: piece by piece where that is wanted and
/// somebody listens, and as a whole where not.
pub fn choose_flow(streaming: bool, has_listener: bool) -> (r: Flow)
    ensures
        r == (if streaming && has_listener {
            Flow::Streaming
        } else {
            Flow::Plain
        }),
{
    if streaming && has_listener {
        Flow::Streaming
    } else {
        Flow::Plain
    }
}

/// A text on its way to its translation.
pub struct RetryState {
    pub target_language: Seq<char>,
    pub max_retries: nat,
    /// How often the text was sent again.
    pub attempt: nat,
    /// Chinese characters are looked for.
    pub checks_han: bool,
    /// The translation that is kept while a stricter one is asked for.
    pub held: Option<Seq<char>>,
}

impl RetryState {
    /// The text was not sent again too often.
    pub open spec fn bounded(self) -> bool {
        self.attempt <= self.max_retries
    }

    /// A stricter translation is asked for.
    pub open spec fn asks_strictly(self, translated: Seq<char>) -> bool {
        self.checks_han && crate::quality::han_intrudes(self.target_language, translated)
    }

    /// An error ends the attempts.
    pub open spec fn gives_up(self, error: Seq<char>) -> bool {
        crate::errors::speaks_of_permanent_failure(error) || self.attempt >= self.max_retries
    }

    /// The translation that is taken once a stricter one was asked for: the
    /// stricter one, unless it failed or holds Chinese characters too.
    pub open spec fn settled(self, strict: Result<Seq<char>, Seq<char>>) -> Seq<char> {
        match strict {
            Ok(text) if !crate::quality::han_intrudes(self.target_language, text) => text,
            _ => self.held->0,
        }
    }
}

/// What to do about a text that was sent.
pub enum RetryStep {
    /// The translation.
    Done(String),
    /// The text is given up.
    Fail(String),
    /// Wait that many milliseconds and send the text again.
    Wait(u64),
    /// Ask for a stricter translation.
    AskStrictly,
}

/// A text on its way to its translation.
pub struct RetryRun {
    target_language: String,
    max_retries: u32,
    attempt: u32,
    delay_ms: u64,
    checks_han: bool,
    held: Option<String>,
}

impl View for RetryRun {
    type V = RetryState;

    closed spec fn view(&self) -> RetryState {
        RetryState {
            target_language: self.target_language@,
            max_retries: self.max_retries as nat,
            attempt: self.attempt as nat,
            checks_han: self.checks_han,
            held: crate::response::opt_text(self.held),
        }
    }
}

impl RetryRun {
    /// The delay is that of the number of retries.
    pub closed spec fn well_formed(&self) -> bool {
        &&& self@.bounded()
        &&& self.delay_ms == delay_after(self.attempt as nat)
    }

    /// Begins with a text that was not sent yet. Chinese characters are looked for
    /// in answers that are received as a whole.
    pub fn new(target_language: &str, max_retries: u32, flow: Flow) -> (r: RetryRun)
        ensures
            r.well_formed(),
            r@ == (RetryState {
                target_language: target_language@,
                max_retries: max_retries as nat,
                attempt: 0,
                checks_han: flow == Flow::Plain,
                held: None,
            }),
    {
        RetryRun {
            target_language: target_language.to_string(),
            max_retries,
            attempt: 0,
            delay_ms: FIRST_DELAY_MS,
            checks_han: flow == Flow::Plain,
            held: None,
        }
    }

    /// Takes what came back for the text.
    pub fn on_answer(&mut self, answer: Result<String, String>) -> (r: RetryStep)
        requires
            old(self).well_formed(),
        ensures
            final(self).well_formed(),
            final(self)@.bounded(),
            match answer {
                Ok(translated) => if old(self)@.asks_strictly(translated@) {
                    r is AskStrictly && final(self)@ == (RetryState {
                        held: Some(translated@),
                        ..old(self)@
                    })
                } else {
                    r == RetryStep::Done(translated) && final(self)@ == old(self)@
                },
                Err(error) => if old(self)@.gives_up(error@) {
                    r == RetryStep::Fail(error) && final(self)@ == old(self)@
                } else {
                    r is Wait && r->Wait_0 == delay_after(old(self)@.attempt) && final(self)@ == (
                    RetryState { attempt: old(self)@.attempt + 1, ..old(self)@ })
                },
            },
    {
        match answer {
            Ok(translated) => {
                if self.checks_han && should_retry_for_han(
                    self.target_language.as_str(),
                    translated.as_str(),
                ) {
                    self.held = Some(translated);
                    RetryStep::AskStrictly
                } else {
                    RetryStep::Done(translated)
                }
            },
            Err(error) => {
                if is_non_retryable_error(error.as_str()) || self.attempt >= self.max_retries {
                    return RetryStep::Fail(error);
                }
                proof {
                    law_delays_grow_to_a_limit(self.attempt as nat);
                }
                let wait = self.delay_ms;
                self.attempt += 1;
                self.delay_ms = if wait * 2 < MAX_DELAY_MS {
                    wait * 2
                } else {
                    MAX_DELAY_MS
                };
                RetryStep::Wait(wait)
            },
        }
    }

    /// Takes what came back for the stricter request, and gives the translation
    /// that is taken.
    pub fn on_strict_answer(&self, answer: Result<String, String>) -> (r: String)
        requires
            self@.held is Some,
        ensures
            r@ == self@.settled(crate::response::answer_view(answer)),
    {
        if let Ok(strict) = answer {
            if !should_retry_for_han(self.target_language.as_str(), strict.as_str()) {
                return strict;
            }
        }
        match &self.held {
            Some(text) => text.clone(),
            None => String::new(),
        }
    }
}

/// A text is sent at most once more than it may be retried, and an error that
/// will not go away ends the attempts at once.
pub proof fn law_attempts_end(s: RetryState, error: Seq<char>)
    requires
        s.bounded(),
    ensures
        s.attempt == s.max_retries ==> s.gives_up(error),
        crate::errors::speaks_of_permanent_failure(error) ==> s.gives_up(error),
{
}

/// An answer that was cut short is not asked for again.
pub proof fn law_truncation_is_not_retried(s: RetryState)
    ensures
        s.gives_up("TRUNCATED_BY_LENGTH"@),
{
    reveal_strlit("TRUNCATED_BY_LENGTH");
    reveal_strlit("truncated_by_length");
    let lower = crate::text::ascii_lower("TRUNCATED_BY_LENGTH"@);
    assert(lower.len() == 19);
    assert(lower =~= "truncated_by_length"@);
    assert(lower.subrange(0, 19) =~= lower);
    assert(crate::text::occurs_at(lower, "truncated_by_length"@, 0));
}

/// A translation that holds Chinese characters gives way only to one that does
/// not.
pub proof fn law_stricter_translations_are_better(
    s: RetryState,
    strict: Result<Seq<char>, Seq<char>>,
)
    requires
        s.held is Some,
    ensures
        s.settled(strict) == s.held->0 || !crate::quality::han_intrudes(
            s.target_language,
            s.settled(strict),
        ),
{
}

// ---------------------------------------------------------------------------
// What is promised of attempts
// ---------------------------------------------------------------------------
/// The first wait is a second, and each is twice the one before until ten
/// seconds are reached.
pub proof fn law_delays_double(attempt: nat)
    ensures
        delay_after(0) == 1_000,
        delay_after(1) == 2_000,
        delay_after(2) == 4_000,
        delay_after(3) == 8_000,
        attempt >= 4 ==> delay_after(attempt) == 10_000,
    decreases attempt,
{
    assert(delay_after(1) == 2 * delay_after(0));
    assert(delay_after(2) == 2 * delay_after(1));
    assert(delay_after(3) == 2 * delay_after(2));
    assert(delay_after(4) == 10_000);
    if attempt > 4 {
        law_delays_double((attempt - 1) as nat);
    }
}

/// A text is given up where sending it again would fail in the same way and
/// where it was sent again as often as it may be, and in no other case.
pub proof fn law_texts_are_sent_again_until(s: RetryState, error: Seq<char>)
    ensures
        s.attempt < s.max_retries && !crate::errors::speaks_of_permanent_failure(error)
            ==> !s.gives_up(error),
        s.attempt >= s.max_retries ==> s.gives_up(error),
        crate::errors::speaks_of_permanent_failure(error) ==> s.gives_up(error),
{
}

/// A stricter translation is asked for where three Han characters or more are in
/// a translation into Spanish that was received as a whole, and in no other
/// case.
pub proof fn law_stricter_translations_are_asked_for(s: RetryState, translated: Seq<char>)
    ensures
        s.asks_strictly(translated) <==> s.checks_han && crate::quality::names_spanish(
            s.target_language,
        ) && crate::quality::han_count(translated) >= 3,
{
}

/// A stricter translation is taken exactly as it came where it is better; where
/// it failed or is no better, the first one is taken exactly as it came.
pub proof fn law_the_better_translation_is_taken(
    s: RetryState,
    first: Seq<char>,
    strict: Seq<char>,
    error: Seq<char>,
)
    requires
        s.held == Some(first),
    ensures
        crate::quality::han_intrudes(s.target_language, strict) ==> s.settled(Ok(strict)) == first,
        !crate::quality::han_intrudes(s.target_language, strict) ==> s.settled(Ok(strict))
            == strict,
        s.settled(Err(error)) == first,
{
}

} // verus!
