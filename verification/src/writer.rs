//! Writing the entries of a book in order, though translated chapters arrive in
//! any order.

use std::collections::HashMap;
use vstd::prelude::*;

verus! {

/// What was written for an entry.
pub enum Written {
    /// The entry is no page and was copied.
    Raw,
    /// The page that arrived for the entry.
    Translated(Seq<char>),
    /// The page as it was, since none arrived.
    Original,
}

/// How far the writing of a book has come.
pub struct WriterState {
    /// For each entry, whether it is a page.
    pub pages: Seq<bool>,
    /// What was written for each entry, in order.
    pub written: Seq<Written>,
    /// Pages that arrived before their turn.
    pub buffered: Map<usize, Seq<char>>,
    /// All pages that arrived.
    pub received: Map<usize, Seq<char>>,
    /// No more pages arrive.
    pub closed: bool,
}

impl WriterState {
    /// The entry whose turn it is.
    pub open spec fn turn(self) -> int {
        self.written.len() as int
    }

    /// Every entry was written.
    pub open spec fn complete(self) -> bool {
        self.turn() >= self.pages.len()
    }

    /// The writer waits for a page.
    pub open spec fn waits(self) -> bool {
        &&& !self.complete()
        &&& self.pages[self.turn()]
        &&& !self.buffered.contains_key(self.turn() as usize)
    }

    /// What is written next, where the writer need not wait.
    pub open spec fn ready(self) -> WriterState {
        if !self.pages[self.turn()] {
            WriterState { written: self.written.push(Written::Raw), ..self }
        } else {
            let i = self.turn() as usize;
            WriterState {
                written: self.written.push(Written::Translated(self.buffered[i])),
                buffered: self.buffered.remove(i),
                ..self
            }
        }
    }

    /// A page arrives: it is written if it is its turn, and kept until then if
    /// not.
    pub open spec fn arrived(self, index: usize, html: Seq<char>) -> WriterState {
        let received = self.received.insert(index, html);
        if index == self.turn() {
            WriterState { written: self.written.push(Written::Translated(html)), received, ..self }
        } else {
            WriterState { buffered: self.buffered.insert(index, html), received, ..self }
        }
    }

    /// No page will arrive for the entry whose turn it is.
    pub open spec fn gave_up(self) -> WriterState {
        WriterState { written: self.written.push(Written::Original), closed: true, ..self }
    }

    /// What stands in the book for an entry once it was written.
    pub open spec fn entry(self, i: int) -> Written {
        if !self.pages[i] {
            Written::Raw
        } else if self.received.contains_key(i as usize) {
            Written::Translated(self.received[i as usize])
        } else {
            Written::Original
        }
    }

    /// What holds at every moment: the entries so far were written in order,
    /// each page with what arrived for it, and every other page that arrived is
    /// kept.
    pub open spec fn faithful(self) -> bool {
        &&& self.written.len() <= self.pages.len() <= usize::MAX
        &&& forall|i: int|
            0 <= i < self.written.len() ==> #[trigger] self.written[i] == self.entry(i)
        &&& forall|i: usize| #[trigger]
            self.received.contains_key(i) ==> i < self.pages.len() && self.pages[i as int]
        &&& forall|i: usize|
            self.turn() <= i ==> (self.received.contains_key(i)
                <==> #[trigger] self.buffered.contains_key(i))
        &&& forall|i: usize|
            self.turn() <= i && #[trigger] self.buffered.contains_key(i) ==> self.buffered[i]
                == self.received[i]
        &&& !self.closed ==> forall|i: int|
            0 <= i < self.written.len() && self.pages[i] ==> self.received.contains_key(
                #[trigger] (i as usize),
            )
    }
}

/// A finished book is complete and in order: every entry stands in its place,
/// each page that arrived with what arrived for it, and any other page as it
/// was.
pub proof fn law_the_book_is_complete_and_in_order(s: WriterState)
    requires
        s.faithful(),
        s.complete(),
    ensures
        s.written == Seq::new(s.pages.len(), |i: int| s.entry(i)),
{
    assert(s.written =~= Seq::new(s.pages.len(), |i: int| s.entry(i)));
}

/// What need not wait is written in order.
pub proof fn law_writing_is_faithful(s: WriterState)
    requires
        s.faithful(),
        !s.complete(),
        !s.waits(),
    ensures
        s.ready().faithful(),
{
    let t = s.ready();
    let n = s.turn();
    assert(t.written[n] == t.entry(n));
    assert forall|i: int| 0 <= i < t.written.len() implies #[trigger] t.written[i] == t.entry(i) by {
        if i < n {
            assert(s.written[i] == s.entry(i));
        }
    }
    assert forall|i: usize| t.turn() <= i implies (t.received.contains_key(i)
        <==> #[trigger] t.buffered.contains_key(i)) by {
        assert(s.received.contains_key(i) <==> s.buffered.contains_key(i));
    }
    if !t.closed {
        assert forall|i: int| 0 <= i < t.written.len() && t.pages[i] implies t.received.contains_key(
            #[trigger] (i as usize),
        ) by {
            if i == n {
                assert(s.buffered.contains_key(n as usize));
            }
        }
    }
}

/// A page that arrives is written in its turn.
pub proof fn law_arriving_is_faithful(s: WriterState, index: usize, html: Seq<char>)
    requires
        s.faithful(),
        s.waits(),
        !s.closed,
        index < s.pages.len(),
        s.pages[index as int],
        !s.received.contains_key(index),
    ensures
        s.arrived(index, html).faithful(),
        s.arrived(index, html).received[index] == html,
{
    let t = s.arrived(index, html);
    let n = s.turn();
    assert(n <= index) by {
        if index < n {
            assert(s.received.contains_key((index as int) as usize));
        }
    }
    assert forall|i: int| 0 <= i < t.written.len() implies #[trigger] t.written[i] == t.entry(i) by {
        if i < n {
            assert(s.written[i] == s.entry(i));
            assert(i as usize != index);
        }
    }
    assert forall|i: usize| t.turn() <= i implies (t.received.contains_key(i)
        <==> #[trigger] t.buffered.contains_key(i)) by {
        assert(s.received.contains_key(i) <==> s.buffered.contains_key(i));
    }
    assert forall|i: int| 0 <= i < t.written.len() && t.pages[i] implies t.received.contains_key(
        #[trigger] (i as usize),
    ) by {
        if i < n {
            assert(s.received.contains_key(i as usize));
        }
    }
}

/// A page that does not arrive is written as it was, and the book goes on.
pub proof fn law_giving_up_is_faithful(s: WriterState)
    requires
        s.faithful(),
        s.waits(),
    ensures
        s.gave_up().faithful(),
        s.gave_up().turn() == s.turn() + 1,
{
    let t = s.gave_up();
    let n = s.turn();
    assert(!s.received.contains_key(n as usize)) by {
        assert(!s.buffered.contains_key(n as usize));
    }
    assert forall|i: int| 0 <= i < t.written.len() implies #[trigger] t.written[i] == t.entry(i) by {
        if i < n {
            assert(s.written[i] == s.entry(i));
        }
    }
    assert forall|i: usize| t.turn() <= i implies (t.received.contains_key(i)
        <==> #[trigger] t.buffered.contains_key(i)) by {
        assert(s.received.contains_key(i) <==> s.buffered.contains_key(i));
    }
}

/// What the writer does next.
pub enum WriterStep {
    /// Every entry was written.
    Done,
    /// Copy the entry at this place.
    CopyRaw(usize),
    /// Write this page at this place.
    WritePage(usize, String),
    /// Wait for a page to arrive.
    Wait,
}

/// The writing of a book, entry by entry.
pub struct SpineWriter {
    pages: Vec<bool>,
    next: usize,
    buffered: HashMap<usize, String>,
    kept: usize,
    written: Ghost<Seq<Written>>,
    received: Ghost<Map<usize, Seq<char>>>,
    closed: Ghost<bool>,
}

impl View for SpineWriter {
    type V = WriterState;

    closed spec fn view(&self) -> WriterState {
        WriterState {
            pages: self.pages@,
            written: self.written@,
            buffered: self.buffered@.map_values(|html: String| html@),
            received: self.received@,
            closed: self.closed@,
        }
    }
}

impl SpineWriter {
    /// The writer is in order.
    pub closed spec fn well_formed(&self) -> bool {
        &&& self@.faithful()
        &&& self.next == self.written@.len()
        &&& self.kept <= self.next
    }

    /// How many pages were written as they were.
    pub closed spec fn kept(&self) -> nat {
        self.kept as nat
    }

    /// Begins with entries, of which some are pages.
    pub fn new(pages: Vec<bool>) -> (r: SpineWriter)
        ensures
            r.well_formed(),
            r.kept() == 0,
            r@ == (WriterState {
                pages: pages@,
                written: Seq::empty(),
                buffered: Map::empty(),
                received: Map::empty(),
                closed: false,
            }),
            r@.faithful(),
    {
        let writer = SpineWriter {
            pages,
            next: 0,
            buffered: HashMap::new(),
            kept: 0,
            written: Ghost(Seq::empty()),
            received: Ghost(Map::empty()),
            closed: Ghost(false),
        };
        assert(writer@.buffered =~= Map::<usize, Seq<char>>::empty());
        assert(writer.pages.len() <= usize::MAX);
        writer
    }

    /// Writes what need not wait.
    pub fn next_step(&mut self) -> (r: WriterStep)
        requires
            old(self).well_formed(),
        ensures
            final(self).well_formed(),
            final(self)@.faithful(),
            final(self).kept() == old(self).kept(),
            match r {
                WriterStep::Done => old(self)@.complete() && final(self)@ == old(self)@,
                WriterStep::Wait => old(self)@.waits() && final(self)@ == old(self)@,
                WriterStep::CopyRaw(index) => {
                    &&& !old(self)@.complete()
                    &&& !old(self)@.pages[index as int]
                    &&& index == old(self)@.turn()
                    &&& final(self)@ == old(self)@.ready()
                },
                WriterStep::WritePage(index, html) => {
                    &&& !old(self)@.complete()
                    &&& !old(self)@.waits()
                    &&& old(self)@.pages[index as int]
                    &&& index == old(self)@.turn()
                    &&& html@ == old(self)@.buffered[index]
                    &&& final(self)@ == old(self)@.ready()
                },
            },
    {
        let ghost before = self@;
        if self.next >= self.pages.len() {
            return WriterStep::Done;
        }
        let index = self.next;
        if !self.pages[index] {
            proof {
                law_writing_is_faithful(before);
                self.written@ = self.written@.push(Written::Raw);
            }
            self.next += 1;
            assert(self@ == before.ready());
            return WriterStep::CopyRaw(index);
        }
        match self.buffered.remove(&index) {
            Some(html) => {
                proof {
                    law_writing_is_faithful(before);
                    self.written@ = self.written@.push(Written::Translated(html@));
                }
                self.next += 1;
                assert(self@.buffered =~= before.buffered.remove(index));
                assert(self@ == before.ready());
                WriterStep::WritePage(index, html)
            },
            None => {
                assert(self@.buffered =~= before.buffered);
                WriterStep::Wait
            },
        }
    }

    /// Takes a page that arrived, and gives it back if it is to be written now.
    pub fn on_received(&mut self, index: usize, html: String) -> (r: Option<String>)
        requires
            old(self).well_formed(),
            old(self)@.waits(),
            !old(self)@.closed,
            index < old(self)@.pages.len(),
            old(self)@.pages[index as int],
            !old(self)@.received.contains_key(index),
        ensures
            final(self).well_formed(),
            final(self)@.faithful(),
            final(self).kept() == old(self).kept(),
            final(self)@ == old(self)@.arrived(index, html@),
            index == old(self)@.turn() ==> r == Some(html),
            index != old(self)@.turn() ==> r is None,
    {
        let ghost before = self@;
        let ghost text = html@;
        proof {
            law_arriving_is_faithful(before, index, text);
            self.received@ = self.received@.insert(index, text);
        }
        if index == self.next {
            proof {
                self.written@ = self.written@.push(Written::Translated(text));
            }
            self.next += 1;
            assert(self@ == before.arrived(index, text));
            Some(html)
        } else {
            self.buffered.insert(index, html);
            assert(self@.buffered =~= before.buffered.insert(index, text));
            assert(self@ == before.arrived(index, text));
            None
        }
    }

    /// Takes note that no more pages arrive, and says which page is to be
    /// written as it was.
    pub fn on_closed(&mut self) -> (r: usize)
        requires
            old(self).well_formed(),
            old(self)@.waits(),
        ensures
            final(self).well_formed(),
            final(self)@.faithful(),
            final(self).kept() == old(self).kept() + 1,
            final(self)@ == old(self)@.gave_up(),
            r == old(self)@.turn(),
    {
        let ghost before = self@;
        let index = self.next;
        proof {
            law_giving_up_is_faithful(before);
            self.written@ = self.written@.push(Written::Original);
            self.closed@ = true;
        }
        self.next += 1;
        self.kept += 1;
        assert(self@ == before.gave_up());
        index
    }

    /// How many pages were written as they were.
    pub fn kept_pages(&self) -> (r: usize)
        ensures
            r == self.kept(),
    {
        self.kept
    }
}

// ---------------------------------------------------------------------------
// What is promised of books
// ---------------------------------------------------------------------------
/// In a finished book every entry stands in its own place: what is no page as it
/// was, a page that arrived exactly as it arrived, and any other page as it was.
pub proof fn law_every_entry_stands_in_its_place(s: WriterState, i: int)
    requires
        s.faithful(),
        s.complete(),
        0 <= i < s.pages.len(),
    ensures
        s.written.len() == s.pages.len(),
        !s.pages[i] ==> s.written[i] == Written::Raw,
        s.pages[i] && s.received.contains_key(i as usize) ==> s.written[i] == Written::Translated(
            s.received[i as usize],
        ),
        s.pages[i] && !s.received.contains_key(i as usize) ==> s.written[i] == Written::Original,
{
    assert(s.written[i] == s.entry(i));
}

/// Entries are written one at a time, behind those that were written before. The
/// writer waits where it is the turn of a page that has not arrived, and there
/// alone.
pub proof fn law_entries_are_written_in_turn(s: WriterState)
    requires
        s.faithful(),
    ensures
        s.complete() <==> s.written.len() == s.pages.len(),
        s.waits() <==> s.written.len() < s.pages.len() && s.pages[s.written.len() as int]
            && !s.received.contains_key(s.written.len() as usize),
        !s.complete() && !s.waits() ==> {
            let n = s.written.len() as int;
            let t = s.ready();
            &&& t.written.len() == n + 1
            &&& t.written.take(n) == s.written
            &&& !s.pages[n] ==> t.written[n] == Written::Raw
            &&& s.pages[n] ==> t.written[n] == Written::Translated(s.received[n as usize])
            &&& t.received == s.received
            &&& t.pages == s.pages
            &&& t.closed == s.closed
        },
        s.waits() ==> {
            let t = s.gave_up();
            &&& t.written == s.written + seq![Written::Original]
            &&& t.received == s.received
            &&& t.pages == s.pages
            &&& t.closed
        },
{
    let n = s.written.len() as int;
    assert(s.turn() == n);
    if n < s.pages.len() {
        assert(s.received.contains_key(n as usize) <==> s.buffered.contains_key(n as usize));
        assert(s.written.push(Written::Original) =~= s.written + seq![Written::Original]);
        if !s.waits() {
            assert(s.ready().written.take(n) =~= s.written);
        }
    }
}

/// A page that arrives is kept exactly as it arrived, beside those that arrived
/// before, and is written at once where it is its turn.
pub proof fn law_arrived_pages_are_kept(s: WriterState, index: usize, html: Seq<char>)
    requires
        s.faithful(),
        s.waits(),
    ensures
        s.arrived(index, html).received == s.received.insert(index, html),
        s.arrived(index, html).pages == s.pages,
        s.arrived(index, html).closed == s.closed,
        index == s.written.len() ==> s.arrived(index, html).written == s.written + seq![
            Written::Translated(html),
        ],
        index != s.written.len() ==> {
            &&& s.arrived(index, html).written == s.written
            &&& s.arrived(index, html).buffered == s.buffered.insert(index, html)
        },
{
    assert(s.written.push(Written::Translated(html)) =~= s.written + seq![
        Written::Translated(html),
    ]);
}

} // verus!
