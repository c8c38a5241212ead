//! Which scan a page waits for, and what a scan sums up. Every scan takes a
//! ticket when it begins, and a page hears only the scan that holds the
//! newest ticket.

use vstd::prelude::*;

verus! {

/// The turnstile through which the results of scans reach a page.
#[derive(Debug, Clone, PartialEq, Eq)]
pub struct Turnstile {
    generation: u64,
    waiting: bool,
}

/// The mathematical value of a [`Turnstile`].
pub struct TurnstileView {
    /// The newest ticket.
    pub generation: nat,
    /// The scan with the newest ticket has begun and not been heard.
    pub waiting: bool,
}

impl View for Turnstile {
    type V = TurnstileView;

    closed spec fn view(&self) -> TurnstileView {
        TurnstileView { generation: self.generation as nat, waiting: self.waiting }
    }
}

/// The turnstile after a scan has begun: the scan holds a new ticket, and the
/// turnstile waits for it.
pub open spec fn after_begin(turnstile: TurnstileView) -> TurnstileView {
    TurnstileView { generation: turnstile.generation + 1, waiting: true }
}

/// The turnstile after whatever scan was under way was called off: a new ticket
/// is taken that no scan holds.
pub open spec fn after_cancel(turnstile: TurnstileView) -> TurnstileView {
    TurnstileView { generation: turnstile.generation + 1, waiting: false }
}

/// Whether the turnstile lets the scan with this ticket through.
pub open spec fn admits(turnstile: TurnstileView, ticket: nat) -> bool {
    turnstile.waiting && ticket == turnstile.generation
}

/// The turnstile after the scan with this ticket came to it: a scan that is let
/// through is not waited for any more.
pub open spec fn after_arrival(turnstile: TurnstileView, ticket: nat) -> TurnstileView {
    if admits(turnstile, ticket) {
        TurnstileView { waiting: false, ..turnstile }
    } else {
        turnstile
    }
}

/// The turnstile after a run of scans has begun or been called off: `true`
/// stands for a scan that began.
pub open spec fn after_all(turnstile: TurnstileView, begun: Seq<bool>) -> TurnstileView
    decreases begun.len(),
{
    if begun.len() == 0 {
        turnstile
    } else if begun.last() {
        after_begin(after_all(turnstile, begun.drop_last()))
    } else {
        after_cancel(after_all(turnstile, begun.drop_last()))
    }
}

/// A scan that begins while another is under way shuts the other out: the
/// turnstile does not let the first one through, and stays as it is when the
/// first one comes to it.
pub proof fn lemma_new_scan_shuts_out(turnstile: TurnstileView)
    ensures
        !admits(after_begin(after_begin(turnstile)), after_begin(turnstile).generation),
        after_arrival(after_begin(after_begin(turnstile)), after_begin(turnstile).generation) == after_begin(
            after_begin(turnstile),
        ),
        admits(after_begin(after_begin(turnstile)), after_begin(after_begin(turnstile)).generation),
{
}

/// Each scan that begins or is called off takes one ticket.
pub proof fn lemma_tickets_taken(turnstile: TurnstileView, begun: Seq<bool>)
    ensures
        after_all(turnstile, begun).generation == turnstile.generation + begun.len(),
    decreases begun.len(),
{
    if begun.len() > 0 {
        lemma_tickets_taken(turnstile, begun.drop_last());
    }
}

/// A ticket that was taken is shut out for good as soon as one more scan
/// begins or is called off, however many follow.
pub proof fn lemma_shut_out_for_good(turnstile: TurnstileView, ticket: nat, begun: Seq<bool>)
    requires
        ticket <= turnstile.generation,
        begun.len() > 0,
    ensures
        !admits(after_all(turnstile, begun), ticket),
        after_arrival(after_all(turnstile, begun), ticket) == after_all(turnstile, begun),
{
    lemma_tickets_taken(turnstile, begun);
}

/// A scan is let through at most once.
pub proof fn lemma_heard_once(turnstile: TurnstileView, ticket: nat)
    ensures
        !admits(after_arrival(turnstile, ticket), ticket),
{
}

impl Turnstile {
    /// A turnstile that waits for no scan.
    pub fn new() -> (turnstile: Turnstile)
        ensures
            turnstile@ == (TurnstileView { generation: 0, waiting: false }),
    {
        Turnstile { generation: 0, waiting: false }
    }

    /// Whether one more ticket can be taken: they have not run out.
    pub fn can_begin(&self) -> (can: bool)
        ensures
            can == (self@.generation < u64::MAX),
    {
        self.generation < u64::MAX
    }

    /// The newest ticket.
    pub fn current_ticket(&self) -> (ticket: u64)
        ensures
            ticket == self@.generation,
    {
        self.generation
    }

    /// A scan begins and takes its ticket.
    pub fn begin(&mut self) -> (ticket: u64)
        requires
            old(self)@.generation < u64::MAX,
        ensures
            final(self)@ == after_begin(old(self)@),
            ticket == final(self)@.generation,
    {
        self.generation = self.generation + 1;
        self.waiting = true;
        self.generation
    }

    /// Whatever scan is under way is called off.
    pub fn cancel(&mut self)
        requires
            old(self)@.generation < u64::MAX,
        ensures
            final(self)@ == after_cancel(old(self)@),
    {
        self.generation = self.generation + 1;
        self.waiting = false;
    }

    /// Whether the scan with this ticket would be let through. A scan asks
    /// this between two files and gives up when it would not.
    pub fn is_current(&self, ticket: u64) -> (current: bool)
        ensures
            current == admits(self@, ticket as nat),
    {
        self.waiting && ticket == self.generation
    }

    /// The scan with this ticket comes to the turnstile. The result says whether
    /// it is let through.
    pub fn arrive(&mut self, ticket: u64) -> (admitted: bool)
        ensures
            admitted == admits(old(self)@, ticket as nat),
            final(self)@ == after_arrival(old(self)@, ticket as nat),
    {
        if self.waiting && ticket == self.generation {
            self.waiting = false;
            true
        } else {
            false
        }
    }
}

/// What the files of a scan gave, one list a file, as one list in the order
/// of the files.
pub open spec fn all_of<T>(per_file: Seq<Seq<T>>) -> Seq<T>
    decreases per_file.len(),
{
    if per_file.len() == 0 {
        Seq::empty()
    } else {
        all_of(per_file.drop_last()) + per_file.last()
    }
}

/// The number of files that gave something.
pub open spec fn fruitful<T>(per_file: Seq<Seq<T>>) -> nat
    decreases per_file.len(),
{
    if per_file.len() == 0 {
        0
    } else if per_file.last().len() > 0 {
        fruitful(per_file.drop_last()) + 1
    } else {
        fruitful(per_file.drop_last())
    }
}

/// The number of files that gave nothing: they were unreadable, malformed
/// from the start, or held no record.
pub open spec fn barren<T>(per_file: Seq<Seq<T>>) -> nat {
    (per_file.len() - fruitful(per_file)) as nat
}

/// No more files gave something than there are files.
pub proof fn lemma_fruitful_bound<T>(per_file: Seq<Seq<T>>)
    ensures
        fruitful(per_file) <= per_file.len(),
        fruitful(per_file) + barren(per_file) == per_file.len(),
    decreases per_file.len(),
{
    if per_file.len() > 0 {
        lemma_fruitful_bound(per_file.drop_last());
    }
}

} // verus!
