//! Which chapter is sent when: a queue of chapters, a number of requests under
//! way that follows success and failure, and retries that wait ever longer.

use crate::errors::{is_rate_limit_error, is_response_decode_error, is_worth_retrying};
use crate::text::decimal_text;
use std::collections::HashMap;
use std::collections::HashSet;
use std::collections::VecDeque;
use vstd::prelude::*;
use vstd::string::*;

verus! {

broadcast use vstd::string::group_string_axioms;

pub const DEFAULT_CONCURRENCY_WARMUP: usize = 6;

pub const SUCCESS_STREAK_FOR_SCALE_UP: usize = 1;

pub const MAX_RETRIES: u32 = 4;

pub const MAX_RETRIES_FOR_DECODE_ERROR: u32 = 1;

pub const MAX_DECODE_ERROR_FALLBACK_CHAPTERS: usize = 8;

// ---------------------------------------------------------------------------
// Waiting
// ---------------------------------------------------------------------------
/// Seconds added to a wait, from the chapter and the number of its retries, so
/// that chapters that failed together are not sent again together.
pub open spec fn jitter(chapter: u64, retry_count: u32) -> u64 {
    let step = ((retry_count as u64 + 1) as u64).wrapping_mul(0x9E37_79B9_7F4A_7C15u64);
    let seed = chapter ^ step;
    ((seed << 17u64) | (seed >> 47u64)) % 5
}

/// Two to the number of retries, up to sixteen.
pub open spec fn growing_wait(retry_count: u32) -> u64 {
    if retry_count == 0 {
        1
    } else if retry_count == 1 {
        2
    } else if retry_count == 2 {
        4
    } else if retry_count == 3 {
        8
    } else {
        16
    }
}

/// How many seconds pass before a chapter is sent again.
pub open spec fn wait_seconds(chapter: usize, retry_count: u32, decoding: bool) -> u64 {
    if decoding {
        1
    } else {
        crate::text::clamped(
            growing_wait(retry_count) + jitter(chapter as u64, retry_count),
            1,
            30,
        ) as u64
    }
}

/// How many seconds pass before a chapter is sent again.
pub fn backoff_seconds(chapter: usize, retry_count: u32, decoding: bool) -> (r: u64)
    ensures
        r == wait_seconds(chapter, retry_count, decoding),
        1 <= r <= 30,
{
    if decoding {
        return 1;
    }
    let growing: u64 = if retry_count == 0 {
        1
    } else if retry_count == 1 {
        2
    } else if retry_count == 2 {
        4
    } else if retry_count == 3 {
        8
    } else {
        16
    };
    let step: u64 = (retry_count as u64 + 1).wrapping_mul(0x9E37_79B9_7F4A_7C15);
    let seed: u64 = (chapter as u64) ^ step;
    let extra: u64 = ((seed << 17u64) | (seed >> 47u64)) % 5;
    growing + extra
}

/// Waits double from retry to retry, up to a few seconds that keep chapters
/// apart.
pub proof fn law_waits_double(chapter: usize, retry_count: u32)
    ensures
        retry_count < 4 ==> growing_wait((retry_count + 1) as u32) == 2 * growing_wait(retry_count),
        growing_wait(retry_count) <= wait_seconds(chapter, retry_count, false) <= growing_wait(
            retry_count,
        ) + 4,
{
}

// ---------------------------------------------------------------------------
// The model
// ---------------------------------------------------------------------------
/// How far the chapters of a book have come.
pub struct ScheduleState {
    /// All chapters.
    pub chapters: Set<usize>,
    /// Chapters that are still to send, in order.
    pub pending: Seq<usize>,
    /// Chapters that are under way.
    pub in_flight: Set<usize>,
    /// Chapters that are done.
    pub done: Set<usize>,
    /// How often each chapter was sent again.
    pub retries: Map<usize, u32>,
    /// Chapters that are sent in smaller blocks after an answer could not be
    /// read.
    pub recovering: Set<usize>,
    /// How many chapters may be under way.
    pub active: nat,
    /// How many may ever be.
    pub max: nat,
    /// Chapters translated since the last change of pace.
    pub streak: nat,
    /// The pace follows success and failure.
    pub dynamic: bool,
    /// Characters translated.
    pub characters: nat,
    /// Chapters that were kept as they were.
    pub kept: nat,
    /// Those among them whose answers could not be read.
    pub unreadable: nat,
}

/// How often a chapter is sent again after an error.
pub open spec fn retry_budget(error: Seq<char>) -> u32 {
    if crate::errors::speaks_of_decoding(error) {
        MAX_RETRIES_FOR_DECODE_ERROR
    } else {
        MAX_RETRIES
    }
}

impl ScheduleState {
    /// Another chapter may be sent.
    pub open spec fn may_start(self) -> bool {
        self.in_flight.len() < self.active && self.pending.len() > 0
    }

    /// The first chapter is sent.
    pub open spec fn started(self) -> ScheduleState {
        ScheduleState {
            pending: self.pending.drop_first(),
            in_flight: self.in_flight.insert(self.pending[0]),
            ..self
        }
    }

    /// A chapter is done.
    pub open spec fn finished(self, chapter: usize) -> ScheduleState {
        ScheduleState {
            in_flight: self.in_flight.remove(chapter),
            done: self.done.insert(chapter),
            retries: self.retries.remove(chapter),
            recovering: self.recovering.remove(chapter),
            ..self
        }
    }

    /// One more success lets one more chapter be under way.
    pub open spec fn speeds_up(self) -> bool {
        self.dynamic && self.active < self.max && self.streak + 1 >= SUCCESS_STREAK_FOR_SCALE_UP
    }

    /// A chapter was translated.
    pub open spec fn translated(self, chapter: usize, characters: nat) -> ScheduleState {
        ScheduleState {
            characters: self.characters + characters,
            active: if self.speeds_up() {
                self.active + 1
            } else {
                self.active
            },
            streak: if self.speeds_up() {
                0
            } else {
                self.streak + 1
            },
            ..self.finished(chapter)
        }
    }

    /// How often a chapter was sent again.
    pub open spec fn retry_count(self, chapter: usize) -> u32 {
        if self.retries.contains_key(chapter) {
            self.retries[chapter]
        } else {
            0
        }
    }

    /// A chapter is sent again after an error.
    pub open spec fn retries_after(self, chapter: usize, error: Seq<char>) -> bool {
        self.dynamic && crate::errors::worth_retrying(error) && self.retry_count(chapter)
            < retry_budget(error)
    }

    /// A chapter goes back to the end of the queue, and one chapter fewer may
    /// be under way.
    pub open spec fn retried(self, chapter: usize, error: Seq<char>) -> ScheduleState {
        ScheduleState {
            pending: self.pending.push(chapter),
            in_flight: self.in_flight.remove(chapter),
            retries: self.retries.insert(chapter, (self.retry_count(chapter) + 1) as u32),
            recovering: if crate::errors::speaks_of_decoding(error) {
                self.recovering.insert(chapter)
            } else {
                self.recovering
            },
            streak: 0,
            active: if self.active > 1 {
                (self.active - 1) as nat
            } else {
                self.active
            },
            ..self
        }
    }

    /// A chapter is kept as it was.
    pub open spec fn kept_after(self, chapter: usize, error: Seq<char>) -> ScheduleState {
        ScheduleState {
            kept: self.kept + 1,
            unreadable: if crate::errors::speaks_of_decoding(error) {
                self.unreadable + 1
            } else {
                self.unreadable
            },
            ..self.finished(chapter)
        }
    }

    /// What holds at every moment: every chapter is either still to send, under
    /// way or done; the number under way stays within its bounds; no chapter
    /// was sent again too often.
    pub open spec fn in_order(self) -> bool {
        &&& self.pending.no_duplicates()
        &&& self.chapters.finite()
        &&& self.in_flight.finite()
        &&& self.done.finite()
        &&& self.chapters == self.pending.to_set().union(self.in_flight).union(self.done)
        &&& self.pending.to_set().disjoint(self.in_flight)
        &&& self.pending.to_set().disjoint(self.done)
        &&& self.in_flight.disjoint(self.done)
        &&& 1 <= self.active <= self.max
        &&& self.in_flight.len() <= self.max
        &&& self.streak <= self.done.len()
        &&& self.unreadable <= self.kept <= self.done.len()
        &&& forall|c: usize| #[trigger]
            self.retries.contains_key(c) ==> self.retries[c] <= MAX_RETRIES
    }

    /// No chapter is left.
    pub open spec fn complete(self) -> bool {
        self.pending.len() == 0 && self.in_flight.len() == 0
    }
}

/// When no chapter is left to send and none is under way, every chapter is
/// done.
pub proof fn law_complete_means_every_chapter_is_done(s: ScheduleState)
    requires
        s.in_order(),
        s.complete(),
    ensures
        s.done == s.chapters,
{
    s.in_flight.lemma_len0_is_empty();
    assert(s.pending.to_set() =~= Set::<usize>::empty());
    assert(s.done =~= s.chapters);
}

/// As long as chapters are left, one can be sent or one is under way.
pub proof fn law_no_chapter_is_forgotten(s: ScheduleState)
    requires
        s.in_order(),
        !s.complete(),
    ensures
        s.may_start() || s.in_flight.len() > 0,
{
}

/// Sending a chapter keeps the schedule in order.
pub proof fn law_starting_keeps_order(s: ScheduleState)
    requires
        s.in_order(),
        s.may_start(),
    ensures
        s.started().in_order(),
        s.started().in_flight.len() == s.in_flight.len() + 1,
{
    let c = s.pending[0];
    let t = s.started();
    assert(s.pending.to_set().contains(c));
    assert forall|x: usize| t.pending.to_set().contains(x) implies s.pending.to_set().contains(x)
        && x != c by {
        let i = choose|i: int| 0 <= i < t.pending.len() && t.pending[i] == x;
        assert(s.pending[i + 1] == x);
    }
    assert forall|x: usize| s.pending.to_set().contains(x) && x != c implies t.pending.to_set().contains(
        x,
    ) by {
        let i = choose|i: int| 0 <= i < s.pending.len() && s.pending[i] == x;
        assert(t.pending[i - 1] == x);
    }
    assert(t.chapters =~= t.pending.to_set().union(t.in_flight).union(t.done));
}

/// Finishing a chapter keeps the schedule in order and adds it to those done.
proof fn lemma_finishing_keeps_order(s: ScheduleState, chapter: usize)
    requires
        s.in_order(),
        s.in_flight.contains(chapter),
    ensures
        s.finished(chapter).in_order(),
        s.finished(chapter).done.len() == s.done.len() + 1,
        s.finished(chapter).in_flight.len() + 1 == s.in_flight.len(),
        s.done.len() < s.chapters.len(),
{
    let t = s.finished(chapter);
    assert(t.chapters =~= t.pending.to_set().union(t.in_flight).union(t.done));
    assert(t.done.subset_of(t.chapters));
    vstd::set_lib::lemma_len_subset(t.done, t.chapters);
}

/// A translated chapter keeps the schedule in order: one chapter more is done,
/// and the pace stays within its bounds.
pub proof fn law_translating_keeps_order(s: ScheduleState, chapter: usize, characters: nat)
    requires
        s.in_order(),
        s.in_flight.contains(chapter),
    ensures
        s.translated(chapter, characters).in_order(),
        s.translated(chapter, characters).done == s.done.insert(chapter),
        s.active <= s.translated(chapter, characters).active <= s.active + 1,
{
    lemma_finishing_keeps_order(s, chapter);
}

/// A kept chapter keeps the schedule in order: one chapter more is done.
pub proof fn law_keeping_a_chapter_keeps_order(s: ScheduleState, chapter: usize, error: Seq<char>)
    requires
        s.in_order(),
        s.in_flight.contains(chapter),
    ensures
        s.kept_after(chapter, error).in_order(),
        s.kept_after(chapter, error).done == s.done.insert(chapter),
{
    lemma_finishing_keeps_order(s, chapter);
}

/// Sending a chapter again keeps the schedule in order: the chapter waits at the
/// end of the queue, and no more chapters may be under way than before.
pub proof fn law_retrying_keeps_order(s: ScheduleState, chapter: usize, error: Seq<char>)
    requires
        s.in_order(),
        s.in_flight.contains(chapter),
        s.retries_after(chapter, error),
    ensures
        s.retried(chapter, error).in_order(),
        s.retried(chapter, error).pending.last() == chapter,
        s.retried(chapter, error).active <= s.active,
        s.retried(chapter, error).retry_count(chapter) == s.retry_count(chapter) + 1,
{
    let t = s.retried(chapter, error);
    assert(!s.pending.to_set().contains(chapter));
    assert forall|i: int, j: int| 0 <= i < t.pending.len() && 0 <= j < t.pending.len() && i
        != j implies t.pending[i] != t.pending[j] by {
        if i < s.pending.len() {
            assert(s.pending.to_set().contains(s.pending[i]));
        }
        if j < s.pending.len() {
            assert(s.pending.to_set().contains(s.pending[j]));
        }
    }
    assert(t.pending.to_set() =~= s.pending.to_set().insert(chapter)) by {
        assert forall|x: usize| s.pending.to_set().insert(chapter).contains(x) implies
            t.pending.to_set().contains(x) by {
            if x == chapter {
                assert(t.pending[s.pending.len() as int] == x);
            } else {
                let i = choose|i: int| 0 <= i < s.pending.len() && s.pending[i] == x;
                assert(t.pending[i] == x);
            }
        }
    }
    assert(t.chapters =~= t.pending.to_set().union(t.in_flight).union(t.done));
}

/// A chapter that keeps failing is given up: once its retries are used up it is
/// not sent again, whatever the error.
pub proof fn law_retries_end(s: ScheduleState, chapter: usize, error: Seq<char>)
    requires
        s.retry_count(chapter) >= MAX_RETRIES,
    ensures
        !s.retries_after(chapter, error),
{
}

/// How often a chapter may still be sent.
pub open spec fn sends_left(s: ScheduleState, chapter: usize) -> nat {
    if s.done.contains(chapter) {
        0
    } else {
        (MAX_RETRIES + 1 - s.retry_count(chapter)) as nat
    }
}

/// How often chapters may still be sent, all in all.
pub open spec fn all_sends_left(s: ScheduleState, chapters: Seq<usize>) -> nat
    decreases chapters.len(),
{
    if chapters.len() == 0 {
        0
    } else {
        all_sends_left(s, chapters.drop_last()) + sends_left(s, chapters.last())
    }
}

/// Every answer brings the book nearer to its end: whether a chapter was
/// translated, kept or queued again, chapters may be sent less often.
pub proof fn law_every_answer_brings_the_end_nearer(
    s: ScheduleState,
    chapters: Seq<usize>,
    chapter: usize,
    characters: nat,
    error: Seq<char>,
)
    requires
        s.in_order(),
        s.in_flight.contains(chapter),
        chapters.contains(chapter),
    ensures
        all_sends_left(s.translated(chapter, characters), chapters) < all_sends_left(s, chapters),
        all_sends_left(s.kept_after(chapter, error), chapters) < all_sends_left(s, chapters),
        s.retries_after(chapter, error) ==> all_sends_left(s.retried(chapter, error), chapters)
            < all_sends_left(s, chapters),
{
    assert(!s.done.contains(chapter));
    assert(s.retries.contains_key(chapter) ==> s.retries[chapter] <= MAX_RETRIES);
    lemma_fewer_sends(s, s.translated(chapter, characters), chapters, chapter);
    lemma_fewer_sends(s, s.kept_after(chapter, error), chapters, chapter);
    if s.retries_after(chapter, error) {
        lemma_fewer_sends(s, s.retried(chapter, error), chapters, chapter);
    }
}

proof fn lemma_fewer_sends(s: ScheduleState, t: ScheduleState, chapters: Seq<usize>, chapter: usize)
    requires
        sends_left(t, chapter) < sends_left(s, chapter),
        forall|c: usize| c != chapter ==> #[trigger] sends_left(t, c) == sends_left(s, c),
    ensures
        all_sends_left(t, chapters) <= all_sends_left(s, chapters),
        chapters.contains(chapter) ==> all_sends_left(t, chapters) < all_sends_left(s, chapters),
    decreases chapters.len(),
{
    if chapters.len() > 0 {
        let init = chapters.drop_last();
        lemma_fewer_sends(s, t, init, chapter);
        let last = chapters.last();
        assert(sends_left(t, last) <= sends_left(s, last));
        if chapters.contains(chapter) && last != chapter {
            let i = choose|i: int| 0 <= i < chapters.len() && chapters[i] == chapter;
            assert(init[i] == chapter);
        }
    }
}

// ---------------------------------------------------------------------------
// Messages
// ---------------------------------------------------------------------------
/// What is reported of a chapter that was translated.
pub open spec fn translated_message(file_name: Seq<char>, active: nat) -> Seq<char> {
    "Traduciendo a disco "@ + file_name + " ("@ + crate::text::decimal(active) + " hilos)"@
}

/// What is reported of a chapter that is sent again.
pub open spec fn retry_message(error: Seq<char>, seconds: nat, active: nat) -> Seq<char> {
    (if crate::errors::speaks_of_decoding(error) {
        "Respuesta invalida de DeepSeek, activando recovery por fragmentos y reintentando en "@
    } else if crate::errors::speaks_of_rate_limit(error) {
        "Rate limit, esperando "@
    } else {
        "Error de red transitorio, reintentando en "@
    }) + crate::text::decimal(seconds) + "s (concurrencia "@ + crate::text::decimal(active) + ")"@
}

/// What is reported of a chapter that is kept.
pub open spec fn kept_message(error: Seq<char>, file_name: Seq<char>) -> Seq<char> {
    "Advertencia: fallback original en "@ + file_name + if crate::errors::speaks_of_decoding(error) {
        " por respuestas invalidas de DeepSeek"@
    } else {
        " tras error de traduccion"@
    }
}

/// The error of a book in which too many answers could not be read.
pub open spec fn abort_message(unreadable: nat) -> Seq<char> {
    "Se detuvo la traduccion para evitar consumo excesivo: DeepSeek devolvio respuestas invalidas en "@
        + crate::text::decimal(unreadable)
        + " capitulos. Reintenta con menor concurrencia o mas tarde."@
}

/// The error of a book of which a chapter could not be handed on.
pub open spec fn handover_message(file_name: Seq<char>, error: Seq<char>) -> Seq<char> {
    "Error traduciendo "@ + file_name + " y no se pudo enviar fallback al writer: "@ + error
}

/// The error of a book of which a chapter could not be handed on.
pub fn handover_error(file_name: &str, error: &str) -> (r: String)
    ensures
        r@ == handover_message(file_name@, error@),
{
    let mut text = "Error traduciendo ".to_string();
    text.append(file_name);
    text.append(" y no se pudo enviar fallback al writer: ");
    text.append(error);
    text
}

fn report_translated(file_name: &str, active: usize) -> (r: String)
    ensures
        r@ == translated_message(file_name@, active as nat),
{
    let mut text = "Traduciendo a disco ".to_string();
    text.append(file_name);
    text.append(" (");
    text.append(decimal_text(active as u64).as_str());
    text.append(" hilos)");
    text
}

fn report_retry(error: &str, seconds: u64, active: usize) -> (r: String)
    ensures
        r@ == retry_message(error@, seconds as nat, active as nat),
{
    let mut text = if is_response_decode_error(error) {
        "Respuesta invalida de DeepSeek, activando recovery por fragmentos y reintentando en ".to_string()
    } else if is_rate_limit_error(error) {
        "Rate limit, esperando ".to_string()
    } else {
        "Error de red transitorio, reintentando en ".to_string()
    };
    text.append(decimal_text(seconds).as_str());
    text.append("s (concurrencia ");
    text.append(decimal_text(active as u64).as_str());
    text.append(")");
    text
}

fn report_kept(error: &str, file_name: &str) -> (r: String)
    ensures
        r@ == kept_message(error@, file_name@),
{
    let mut text = "Advertencia: fallback original en ".to_string();
    text.append(file_name);
    if is_response_decode_error(error) {
        text.append(" por respuestas invalidas de DeepSeek");
    } else {
        text.append(" tras error de traduccion");
    }
    text
}

fn report_abort(unreadable: usize) -> (r: String)
    ensures
        r@ == abort_message(unreadable as nat),
{
    let mut text =
        "Se detuvo la traduccion para evitar consumo excesivo: DeepSeek devolvio respuestas invalidas en ".to_string();
    text.append(decimal_text(unreadable as u64).as_str());
    text.append(" capitulos. Reintenta con menor concurrencia o mas tarde.");
    text
}

// ---------------------------------------------------------------------------
// The schedule
// ---------------------------------------------------------------------------
/// What to do about a chapter that failed.
pub enum FailureStep {
    /// Wait that many seconds, report, and go on: the chapter is queued again.
    Retry { wait_seconds: u64, message: String },
    /// Hand on the chapter as it was and report; with an error, stop there.
    KeepOriginal { message: String, abort: Option<String> },
}

/// The chapters of a book on their way.
pub struct ChapterSchedule {
    pending: VecDeque<usize>,
    in_flight: HashSet<usize>,
    retries: HashMap<usize, u32>,
    recovering: HashSet<usize>,
    active: usize,
    max: usize,
    streak: usize,
    dynamic: bool,
    finished: usize,
    characters: usize,
    kept: usize,
    unreadable: usize,
    total: usize,
    chapters: Ghost<Set<usize>>,
    done: Ghost<Set<usize>>,
}

impl View for ChapterSchedule {
    type V = ScheduleState;

    closed spec fn view(&self) -> ScheduleState {
        ScheduleState {
            chapters: self.chapters@,
            pending: self.pending@,
            in_flight: self.in_flight@,
            done: self.done@,
            retries: self.retries@,
            recovering: self.recovering@,
            active: self.active as nat,
            max: self.max as nat,
            streak: self.streak as nat,
            dynamic: self.dynamic,
            characters: self.characters as nat,
            kept: self.kept as nat,
            unreadable: self.unreadable as nat,
        }
    }
}

impl ChapterSchedule {
    /// The schedule is in order.
    pub closed spec fn well_formed(&self) -> bool {
        &&& self@.in_order()
        &&& self.finished == self.done@.len()
        &&& self.total == self.chapters@.len()
    }

    /// Begins with chapters to send, in order.
    pub fn new(chapters: &Vec<usize>, max_concurrent_requests: usize, dynamic: bool) -> (r:
        ChapterSchedule)
        requires
            chapters@.no_duplicates(),
        ensures
            r.well_formed(),
            r@.in_order(),
            r@.chapters == chapters@.to_set(),
            r@.pending == chapters@,
            r@.in_flight == Set::<usize>::empty(),
            r@.done == Set::<usize>::empty(),
            r@.retries == Map::<usize, u32>::empty(),
            r@.recovering == Set::<usize>::empty(),
            r@.max == crate::blocks::larger(max_concurrent_requests as int, 1),
            r@.active == (if r@.max < DEFAULT_CONCURRENCY_WARMUP {
                r@.max
            } else {
                DEFAULT_CONCURRENCY_WARMUP as nat
            }),
            r@.streak == 0,
            r@.dynamic == dynamic,
            r@.characters == 0,
            r@.kept == 0,
            r@.unreadable == 0,
    {
        let mut pending: VecDeque<usize> = VecDeque::new();
        let mut i: usize = 0;
        assert(pending@ =~= chapters@.take(0));
        while i < chapters.len()
            invariant
                i <= chapters.len(),
                pending@ == chapters@.take(i as int),
            decreases chapters.len() - i,
        {
            pending.push_back(chapters[i]);
            assert(chapters@.take(i + 1) =~= chapters@.take(i as int).push(chapters@[i as int]));
            i += 1;
        }
        assert(chapters@.take(chapters@.len() as int) =~= chapters@);
        let max: usize = if max_concurrent_requests < 1 {
            1
        } else {
            max_concurrent_requests
        };
        let active: usize = if max < DEFAULT_CONCURRENCY_WARMUP {
            max
        } else {
            DEFAULT_CONCURRENCY_WARMUP
        };
        proof {
            chapters@.unique_seq_to_set();
            vstd::seq_lib::seq_to_set_is_finite(chapters@);
        }
        let schedule = ChapterSchedule {
            pending,
            in_flight: HashSet::new(),
            retries: HashMap::new(),
            recovering: HashSet::new(),
            active,
            max,
            streak: 0,
            dynamic,
            finished: 0,
            characters: 0,
            kept: 0,
            unreadable: 0,
            total: chapters.len(),
            chapters: Ghost(chapters@.to_set()),
            done: Ghost(Set::empty()),
        };
        assert(schedule@.chapters =~= schedule@.pending.to_set().union(schedule@.in_flight).union(
            schedule@.done,
        ));
        schedule
    }

    /// The chapter to send next, and whether in smaller blocks; none when
    /// enough chapters are under way or none is left.
    pub fn next_to_start(&mut self) -> (r: Option<(usize, bool)>)
        requires
            old(self).well_formed(),
        ensures
            final(self).well_formed(),
            final(self)@.in_order(),
            match r {
                Some((chapter, smaller)) => {
                    &&& old(self)@.may_start()
                    &&& chapter == old(self)@.pending[0]
                    &&& smaller == old(self)@.recovering.contains(chapter)
                    &&& final(self)@ == old(self)@.started()
                },
                None => !old(self)@.may_start() && final(self)@ == old(self)@,
            },
    {
        if self.in_flight.len() >= self.active {
            return None;
        }
        let ghost before = self@;
        match self.pending.pop_front() {
            None => {
                assert(before.pending.len() == 0);
                assert(self@.pending =~= before.pending);
                None
            },
            Some(chapter) => {
                let smaller = self.recovering.contains(&chapter);
                self.in_flight.insert(chapter);
                proof {
                    law_starting_keeps_order(before);
                    assert(self@.pending =~= before.pending.drop_first());
                    assert(self@.in_flight =~= before.in_flight.insert(chapter));
                    assert(self@ == before.started());
                }
                Some((chapter, smaller))
            },
        }
    }

    /// Whether no chapter is left.
    pub fn is_complete(&self) -> (r: bool)
        requires
            self.well_formed(),
        ensures
            r == self@.complete(),
    {
        self.pending.len() == 0 && self.in_flight.len() == 0
    }

    /// Takes a chapter that was translated, and says what to report.
    pub fn on_translated(&mut self, chapter: usize, consumed_chars: usize, file_name: &str) -> (r:
        String)
        requires
            old(self).well_formed(),
            old(self)@.in_flight.contains(chapter),
            old(self)@.characters + consumed_chars <= usize::MAX,
        ensures
            final(self).well_formed(),
            final(self)@.in_order(),
            final(self)@ == old(self)@.translated(chapter, consumed_chars as nat),
            r@ == translated_message(file_name@, final(self)@.active),
    {
        let ghost before = self@;
        proof {
            lemma_finishing_keeps_order(before, chapter);
            law_translating_keeps_order(before, chapter, consumed_chars as nat);
        }
        self.finish_chapter(chapter);
        self.characters += consumed_chars;
        self.streak += 1;
        if self.dynamic && self.active < self.max && self.streak >= SUCCESS_STREAK_FOR_SCALE_UP {
            self.active += 1;
            self.streak = 0;
        }
        assert(self@ == before.translated(chapter, consumed_chars as nat));
        report_translated(file_name, self.active)
    }

    fn finish_chapter(&mut self, chapter: usize)
        requires
            old(self).well_formed(),
            old(self)@.in_flight.contains(chapter),
        ensures
            final(self).well_formed(),
            final(self)@ == old(self)@.finished(chapter),
            final(self).finished == old(self).finished + 1,
            final(self).finished <= final(self).total,
    {
        let ghost before = self@;
        proof {
            lemma_finishing_keeps_order(before, chapter);
        }
        self.in_flight.remove(&chapter);
        self.retries.remove(&chapter);
        self.recovering.remove(&chapter);
        self.finished += 1;
        proof {
            self.done@ = self.done@.insert(chapter);
            assert(self@.in_flight =~= before.in_flight.remove(chapter));
            assert(self@.retries =~= before.retries.remove(chapter));
            assert(self@.recovering =~= before.recovering.remove(chapter));
            assert(self@ == before.finished(chapter));
        }
    }

    /// Takes a chapter that failed, and says what to do: send it again later,
    /// or keep it as it was.
    pub fn on_failed(&mut self, chapter: usize, error: &str, file_name: &str) -> (r: FailureStep)
        requires
            old(self).well_formed(),
            old(self)@.in_flight.contains(chapter),
        ensures
            final(self).well_formed(),
            final(self)@.in_order(),
            match r {
                FailureStep::Retry { wait_seconds: seconds, message } => {
                    &&& old(self)@.retries_after(chapter, error@)
                    &&& final(self)@ == old(self)@.retried(chapter, error@)
                    &&& seconds == wait_seconds(
                        chapter,
                        old(self)@.retry_count(chapter),
                        crate::errors::speaks_of_decoding(error@),
                    )
                    &&& message@ == retry_message(error@, seconds as nat, final(self)@.active)
                },
                FailureStep::KeepOriginal { message, abort } => {
                    &&& !old(self)@.retries_after(chapter, error@)
                    &&& final(self)@ == old(self)@.kept_after(chapter, error@)
                    &&& message@ == kept_message(error@, file_name@)
                    &&& abort is Some <==> crate::errors::speaks_of_decoding(error@)
                        && final(self)@.unreadable >= MAX_DECODE_ERROR_FALLBACK_CHAPTERS
                    &&& abort matches Some(text) ==> text@ == abort_message(final(self)@.unreadable)
                },
            },
    {
        let ghost before = self@;
        let retry_count = match self.retries.get(&chapter) {
            Some(count) => *count,
            None => 0,
        };
        let decoding = is_response_decode_error(error);
        let budget = if decoding {
            MAX_RETRIES_FOR_DECODE_ERROR
        } else {
            MAX_RETRIES
        };
        if self.dynamic && is_worth_retrying(error) && retry_count < budget {
            proof {
                law_retrying_keeps_order(before, chapter, error@);
            }
            if decoding {
                self.recovering.insert(chapter);
            }
            self.retries.insert(chapter, retry_count + 1);
            self.pending.push_back(chapter);
            self.in_flight.remove(&chapter);
            self.streak = 0;
            if self.active > 1 {
                self.active -= 1;
            }
            proof {
                assert(self@.in_flight =~= before.in_flight.remove(chapter));
                assert(self@.pending =~= before.pending.push(chapter));
                assert(self@ == before.retried(chapter, error@));
            }
            let seconds = backoff_seconds(chapter, retry_count, decoding);
            return FailureStep::Retry {
                wait_seconds: seconds,
                message: report_retry(error, seconds, self.active),
            };
        }
        proof {
            lemma_finishing_keeps_order(before, chapter);
            law_keeping_a_chapter_keeps_order(before, chapter, error@);
        }
        self.finish_chapter(chapter);
        self.kept += 1;
        let mut abort: Option<String> = None;
        if decoding {
            self.unreadable += 1;
            if self.unreadable >= MAX_DECODE_ERROR_FALLBACK_CHAPTERS {
                abort = Some(report_abort(self.unreadable));
            }
        }
        assert(self@ == before.kept_after(chapter, error@));
        FailureStep::KeepOriginal { message: report_kept(error, file_name), abort }
    }

    /// How many chapters are done.
    pub fn finished_chapters(&self) -> (r: usize)
        requires
            self.well_formed(),
        ensures
            r == self@.done.len(),
    {
        self.finished
    }

    /// How many characters were translated.
    pub fn translated_characters(&self) -> (r: usize)
        ensures
            r == self@.characters,
    {
        self.characters
    }

    /// How many chapters were kept as they were.
    pub fn kept_chapters(&self) -> (r: usize)
        ensures
            r == self@.kept,
    {
        self.kept
    }
}

// ---------------------------------------------------------------------------
// What is promised of the schedule
// ---------------------------------------------------------------------------
/// A chapter waits a second after an answer that could not be read, and after
/// any other failure one, two, four, eight and then sixteen seconds, and up to
/// four more that depend on the chapter and on the retry.
pub proof fn law_chapters_wait_ever_longer(chapter: usize, retry_count: u32)
    ensures
        wait_seconds(chapter, retry_count, true) == 1,
        growing_wait(0) == 1,
        growing_wait(1) == 2,
        growing_wait(2) == 4,
        growing_wait(3) == 8,
        retry_count >= 4 ==> growing_wait(retry_count) == 16,
        ({
            let step = ((retry_count as u64 + 1) as u64).wrapping_mul(0x9E37_79B9_7F4A_7C15u64);
            let seed = (chapter as u64) ^ step;
            wait_seconds(chapter, retry_count, false) == growing_wait(retry_count) + ((seed
                << 17u64) | (seed >> 47u64)) % 5
        }),
{
}

/// A chapter is sent again only in a run that minds its pace, after an error
/// that may go away: once after an answer that could not be read, and four times
/// after any other.
pub proof fn law_chapters_are_sent_again_a_few_times(
    s: ScheduleState,
    chapter: usize,
    error: Seq<char>,
)
    ensures
        retry_budget(error) == (if crate::errors::speaks_of_decoding(error) {
            1u32
        } else {
            4u32
        }),
        s.retries_after(chapter, error) <==> s.dynamic && (crate::errors::speaks_of_decoding(error)
            && s.retry_count(chapter) < 1 || !crate::errors::speaks_of_decoding(error) && (
        crate::errors::speaks_of_rate_limit(error) || crate::errors::speaks_of_transport(error))
            && s.retry_count(chapter) < 4),
        !s.retries.contains_key(chapter) ==> s.retry_count(chapter) == 0,
        s.retries.contains_key(chapter) ==> s.retry_count(chapter) == s.retries[chapter],
{
}

/// Chapters are sent in the order of the queue, whenever fewer are under way
/// than may be.
pub proof fn law_chapters_are_sent_in_order(s: ScheduleState)
    requires
        s.pending.len() > 0,
    ensures
        s.may_start() <==> s.in_flight.len() < s.active,
        seq![s.pending[0]] + s.started().pending == s.pending,
        s.started().in_flight == s.in_flight.insert(s.pending[0]),
        s.started().done == s.done,
        s.started().retries == s.retries,
        s.started().recovering == s.recovering,
        s.started().active == s.active,
        s.started().characters == s.characters,
        s.started().kept == s.kept,
        s.started().unreadable == s.unreadable,
        s.started().max == s.max,
        s.started().dynamic == s.dynamic,
        s.started().chapters == s.chapters,
{
    assert(seq![s.pending[0]] + s.started().pending =~= s.pending);
}

/// A chapter that was translated is done and counts with its characters, its
/// retries are forgotten, and where the pace is minded one chapter more may be
/// under way until the greatest number is reached.
pub proof fn law_translated_chapters_count(s: ScheduleState, chapter: usize, characters: nat)
    ensures
        ({
            let t = s.translated(chapter, characters);
            &&& t.done == s.done.insert(chapter)
            &&& t.in_flight == s.in_flight.remove(chapter)
            &&& t.pending == s.pending
            &&& !t.retries.contains_key(chapter)
            &&& !t.recovering.contains(chapter)
            &&& t.characters == s.characters + characters
            &&& t.kept == s.kept
            &&& t.unreadable == s.unreadable
            &&& s.dynamic && s.active < s.max ==> t.active == s.active + 1
            &&& !s.dynamic || s.active >= s.max ==> t.active == s.active
            &&& t.max == s.max
        }),
        forall|c: usize|
            c != chapter ==> (#[trigger] s.translated(chapter, characters).retry_count(c)
                == s.retry_count(c)),
        forall|c: usize|
            c != chapter ==> (#[trigger] s.translated(chapter, characters).recovering.contains(c)
                <==> s.recovering.contains(c)),
        s.translated(chapter, characters).dynamic == s.dynamic,
        s.translated(chapter, characters).chapters == s.chapters,
{
}

/// A chapter that failed goes to the end of the queue and counts one retry more;
/// one chapter fewer may be under way, but always one; and after an answer that
/// could not be read the chapter is sent in smaller blocks.
pub proof fn law_failed_chapters_wait_at_the_end(
    s: ScheduleState,
    chapter: usize,
    error: Seq<char>,
)
    requires
        s.retry_count(chapter) < u32::MAX,
    ensures
        ({
            let t = s.retried(chapter, error);
            &&& t.pending == s.pending + seq![chapter]
            &&& t.in_flight == s.in_flight.remove(chapter)
            &&& t.done == s.done
            &&& t.retry_count(chapter) == s.retry_count(chapter) + 1
            &&& t.recovering.contains(chapter) <==> s.recovering.contains(chapter)
                || crate::errors::speaks_of_decoding(error)
            &&& s.active >= 2 ==> t.active == s.active - 1
            &&& s.active <= 1 ==> t.active == s.active
            &&& t.streak == 0
            &&& t.characters == s.characters
            &&& t.kept == s.kept
            &&& t.unreadable == s.unreadable
        }),
        forall|c: usize|
            c != chapter ==> (#[trigger] s.retried(chapter, error).recovering.contains(c)
                <==> s.recovering.contains(c)),
        forall|c: usize|
            c != chapter ==> (#[trigger] s.retried(chapter, error).retry_count(c)
                == s.retry_count(c)),
        s.retried(chapter, error).dynamic == s.dynamic,
        s.retried(chapter, error).max == s.max,
        s.retried(chapter, error).chapters == s.chapters,
{
    assert(s.pending.push(chapter) =~= s.pending + seq![chapter]);
}

/// A chapter that is given up is done, is counted among those that were kept,
/// and among the unreadable ones where its answer could not be read; nothing of
/// it counts as translated.
pub proof fn law_given_up_chapters_are_kept(s: ScheduleState, chapter: usize, error: Seq<char>)
    ensures
        ({
            let t = s.kept_after(chapter, error);
            &&& t.done == s.done.insert(chapter)
            &&& t.in_flight == s.in_flight.remove(chapter)
            &&& t.pending == s.pending
            &&& t.kept == s.kept + 1
            &&& crate::errors::speaks_of_decoding(error) ==> t.unreadable == s.unreadable + 1
            &&& !crate::errors::speaks_of_decoding(error) ==> t.unreadable == s.unreadable
            &&& t.characters == s.characters
            &&& t.active == s.active
            &&& t.max == s.max
            &&& t.dynamic == s.dynamic
            &&& t.chapters == s.chapters
            &&& !t.retries.contains_key(chapter)
            &&& !t.recovering.contains(chapter)
        }),
        forall|c: usize|
            c != chapter ==> (#[trigger] s.kept_after(chapter, error).retry_count(c)
                == s.retry_count(c)),
        forall|c: usize|
            c != chapter ==> (#[trigger] s.kept_after(chapter, error).recovering.contains(c)
                <==> s.recovering.contains(c)),
{
}

/// A book begins with six chapters under way at most, and is stopped when the
/// answers of eight could not be read.
pub proof fn law_books_begin_slowly_and_stop_early()
    ensures
        DEFAULT_CONCURRENCY_WARMUP == 6,
        MAX_DECODE_ERROR_FALLBACK_CHAPTERS == 8,
        MAX_RETRIES == 4,
{
}

/// Nothing is left to do where no chapter waits and none is under way.
pub proof fn law_books_end_with_their_last_chapter(s: ScheduleState)
    ensures
        s.pending.len() == 0 ==> !s.may_start(),
        s.complete() <==> s.pending.len() == 0 && s.in_flight.len() == 0,
{
}

/// Reports give the file, the seconds and the number of chapters under way as
/// they are.
pub proof fn law_reports_give_the_numbers(
    file: Seq<char>,
    error: Seq<char>,
    seconds: nat,
    active: nat,
)
    ensures
        translated_message(file, active) == "Traduciendo a disco "@ + file + " ("@
            + crate::text::decimal(active) + " hilos)"@,
        crate::errors::speaks_of_decoding(error) ==> retry_message(error, seconds, active)
            == "Respuesta invalida de DeepSeek, activando recovery por fragmentos y reintentando en "@
            + crate::text::decimal(seconds) + "s (concurrencia "@ + crate::text::decimal(active)
            + ")"@,
        !crate::errors::speaks_of_decoding(error) && crate::errors::speaks_of_rate_limit(error)
            ==> retry_message(error, seconds, active) == "Rate limit, esperando "@
            + crate::text::decimal(seconds) + "s (concurrencia "@ + crate::text::decimal(active)
            + ")"@,
        !crate::errors::speaks_of_decoding(error) && !crate::errors::speaks_of_rate_limit(error)
            ==> retry_message(error, seconds, active)
            == "Error de red transitorio, reintentando en "@ + crate::text::decimal(seconds)
            + "s (concurrencia "@ + crate::text::decimal(active) + ")"@,
        crate::errors::speaks_of_decoding(error) ==> kept_message(error, file)
            == "Advertencia: fallback original en "@ + file
            + " por respuestas invalidas de DeepSeek"@,
        !crate::errors::speaks_of_decoding(error) ==> kept_message(error, file)
            == "Advertencia: fallback original en "@ + file + " tras error de traduccion"@,
        abort_message(active)
            == "Se detuvo la traduccion para evitar consumo excesivo: DeepSeek devolvio respuestas invalidas en "@
            + crate::text::decimal(active)
            + " capitulos. Reintenta con menor concurrencia o mas tarde."@,
        handover_message(file, error) == "Error traduciendo "@ + file
            + " y no se pudo enviar fallback al writer: "@ + error,
{
}

} // verus!
