//! The directory walk, as a machine that is told what the file system holds.
//!
//! The walk keeps a stack of batches, one for each directory it has entered
//! and not yet left. A caller drives it in two moves: [`DirIter::pull`] hands
//! out the next pending path, the caller looks at that path, and
//! [`DirIter::settle`] takes what was found and says what the walk yields.
//! A pull that finds nothing pending is the only way in which the walk ends:
//! no path, whatever the look at it found, ends it.

use vstd::prelude::*;

verus! {

/// What a look at one path found.
pub enum Probe<P, E> {
    /// The metadata of the path could not be read, so that nothing is known
    /// of it: it is taken for an entry that is no directory and no link.
    Unreadable,
    /// The path is a symbolic link.
    Symlink,
    /// The path is anything but a directory or a symbolic link.
    File,
    /// The path is a directory; its immediate children, in listing order.
    Dir(Vec<P>),
    /// The path is a directory whose listing failed.
    Unlistable(E),
}

/// The mathematical form of a [`Probe`]: the children as a sequence.
pub enum ProbeView<P, E> {
    Unreadable,
    Symlink,
    File,
    Dir(Seq<P>),
    Unlistable(E),
}

impl<P, E> View for Probe<P, E> {
    type V = ProbeView<P, E>;

    open spec fn view(&self) -> ProbeView<P, E> {
        match *self {
            Probe::Unreadable => ProbeView::Unreadable,
            Probe::Symlink => ProbeView::Symlink,
            Probe::File => ProbeView::File,
            Probe::Dir(children) => ProbeView::Dir(children@),
            Probe::Unlistable(e) => ProbeView::Unlistable(e),
        }
    }
}

/// What the walk makes of one settled path.
pub enum Verdict<P, E> {
    /// Nothing is yielded for this path; the walk goes on with the next.
    Skip,
    /// The item that the walk yields: a path, or the failure to list one.
    Yield(Result<P, E>),
}

/// The batches that are left once every exhausted batch on top is dropped.
pub open spec fn trim<A>(stack: Seq<Seq<A>>) -> Seq<Seq<A>>
    decreases stack.len(),
{
    if stack.len() > 0 && stack.last().len() == 0 {
        trim(stack.drop_last())
    } else {
        stack
    }
}

/// The entry that the next pull hands out, if any is pending.
pub open spec fn pending_head<A>(stack: Seq<Seq<A>>) -> Option<A> {
    let open = trim(stack);
    if open.len() == 0 {
        None
    } else {
        Some(open.last().first())
    }
}

/// The stack that the next pull leaves behind.
pub open spec fn pending_rest<A>(stack: Seq<Seq<A>>) -> Seq<Seq<A>> {
    let open = trim(stack);
    if open.len() == 0 {
        open
    } else {
        open.drop_last().push(open.last().drop_first())
    }
}

/// The stack after a path was settled: a listed directory opens a batch.
pub open spec fn stack_after<P, E>(stack: Seq<Seq<P>>, probe: ProbeView<P, E>) -> Seq<Seq<P>> {
    match probe {
        ProbeView::Dir(children) => stack.push(children),
        _ => stack,
    }
}

/// What settling `path` yields, given what the look at it found.
pub open spec fn verdict_for<P, E>(path: P, probe: ProbeView<P, E>) -> Verdict<P, E> {
    match probe {
        ProbeView::Unreadable => Verdict::Yield(Ok(path)),
        ProbeView::Symlink => Verdict::Skip,
        ProbeView::File => Verdict::Yield(Ok(path)),
        ProbeView::Dir(_) => Verdict::Yield(Ok(path)),
        ProbeView::Unlistable(e) => Verdict::Yield(Err(e)),
    }
}

/// Once a pull has found nothing pending, the stack is empty and every
/// later pull finds nothing again.
pub proof fn lemma_exhausted_stays<A>(stack: Seq<Seq<A>>)
    requires
        pending_head(stack) is None,
    ensures
        pending_rest(stack) == Seq::<Seq<A>>::empty(),
        pending_head(pending_rest(stack)) is None,
        pending_rest(pending_rest(stack)) == pending_rest(stack),
{
}

/// The number of entries that are pending.
pub open spec fn pending_count<A>(stack: Seq<Seq<A>>) -> nat
    decreases stack.len(),
{
    if stack.len() == 0 {
        0
    } else {
        pending_count(stack.drop_last()) + stack.last().len()
    }
}

/// A pull that hands out an entry leaves one entry less pending, and only
/// the settling of a listed directory adds any. So a consumer that pulls
/// again after each symbolic link does so no more often than entries are
/// pending: its wait for the next item is bounded.
pub proof fn lemma_pull_uses_up_one<P, E>(stack: Seq<Seq<P>>, probe: ProbeView<P, E>)
    requires
        pending_head(stack) is Some,
    ensures
        pending_count(pending_rest(stack)) + 1 == pending_count(stack),
        !(probe is Dir) ==> pending_count(stack_after(pending_rest(stack), probe)) + 1
            == pending_count(stack),
    decreases stack.len(),
{
    if stack.last().len() == 0 {
        lemma_pull_uses_up_one(stack.drop_last(), probe);
    } else {
        let rest = pending_rest(stack);
        assert(rest.drop_last() =~= stack.drop_last());
    }
}

/// A depth-first walk in progress.
pub struct DirIter<P> {
    /// One batch for each directory that is still open, the innermost last.
    /// A batch holds the entries not yet handed out, the next one last.
    stack: Vec<Vec<P>>,
}

impl<P> View for DirIter<P> {
    type V = Seq<Seq<P>>;

    /// The open batches, the innermost last, each in the order in which its
    /// entries will be handed out.
    closed spec fn view(&self) -> Seq<Seq<P>> {
        Seq::new(self.stack@.len(), |i: int| self.stack@[i]@.reverse())
    }
}

/// The same entries, last first.
fn reversed<P>(entries: Vec<P>) -> (batch: Vec<P>)
    ensures
        batch@ == entries@.reverse(),
{
    let mut entries = entries;
    let mut batch: Vec<P> = Vec::new();
    let ghost all = entries@;
    while entries.len() > 0
        invariant
            entries@.len() + batch@.len() == all.len(),
            entries@ == all.subrange(0, entries@.len() as int),
            forall|i: int| 0 <= i < batch@.len() ==> batch@[i] == all[all.len() - 1 - i],
        decreases entries@.len(),
    {
        match entries.pop() {
            Some(entry) => batch.push(entry),
            None => {},
        }
    }
    batch
}

impl<P> DirIter<P> {
    /// A walk that has the root itself as its only pending entry.
    pub fn new(path: P) -> (walker: Self)
        ensures
            walker@ == seq![seq![path]],
    {
        let mut batch: Vec<P> = Vec::new();
        batch.push(path);
        let mut stack: Vec<Vec<P>> = Vec::new();
        stack.push(batch);
        let walker = DirIter { stack };
        assert(walker@ =~~= seq![seq![path]]);
        walker
    }

    /// Hands out the next pending path, leaving behind every batch that was
    /// exhausted on the way. `None` means that the walk is over: the stack is
    /// then empty and every later pull gives `None` again.
    pub fn pull(&mut self) -> (next: Option<P>)
        ensures
            next == pending_head(old(self)@),
            final(self)@ == pending_rest(old(self)@),
            next is None ==> final(self)@ == Seq::<Seq<P>>::empty() && pending_head(final(self)@)
                is None,
    {
        proof {
            if pending_head(old(self)@) is None {
                lemma_exhausted_stays(old(self)@);
            }
        }
        loop
            invariant
                trim(self@) == trim(old(self)@),
            decreases self.stack@.len(),
        {
            let ghost before = self@;
            match self.stack.pop() {
                None => {
                    return None;
                },
                Some(top) => {
                    let mut top = top;
                    let ghost below = self@;
                    let ghost batch = top@.reverse();
                    match top.pop() {
                        Some(entry) => {
                            self.stack.push(top);
                            proof {
                                assert(top@.reverse() =~= batch.drop_first());
                            }
                            return Some(entry);
                        },
                        None => {
                            proof {
                                assert(before.drop_last() =~= below);
                            }
                        },
                    }
                },
            }
        }
    }

    /// Takes what the look at `path` found. A listed directory opens a batch
    /// of its children on top of the stack and is yielded itself; a directory
    /// that could not be listed yields the failure in its place; a symbolic
    /// link is passed over; anything else is yielded, a path with unreadable
    /// metadata too.
    pub fn settle<E>(&mut self, path: P, probe: Probe<P, E>) -> (verdict: Verdict<P, E>)
        ensures
            final(self)@ == stack_after(old(self)@, probe@),
            verdict == verdict_for(path, probe@),
    {
        match probe {
            Probe::Unreadable => Verdict::Yield(Ok(path)),
            Probe::Symlink => Verdict::Skip,
            Probe::File => Verdict::Yield(Ok(path)),
            Probe::Unlistable(e) => Verdict::Yield(Err(e)),
            Probe::Dir(children) => {
                let batch = reversed(children);
                self.stack.push(batch);
                proof {
                    assert(batch@.reverse() =~= children@);
                }
                Verdict::Yield(Ok(path))
            },
        }
    }
}

} // verus!
