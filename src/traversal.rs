use vstd::prelude::*;

use crate::error::{Error, Result};
use crate::order::{is_sorted_order, sort_order};

verus! {

/// What happened when the caller performed the last requested action.
#[derive(Debug)]
pub enum Event {
    /// The inspected path names a directory, or something else.
    Kind { is_dir: bool },
    /// The names of the directory's entries, in the order they were enumerated.
    Listed(Vec<Vec<u8>>),
    /// The file was opened; it is, or is not, an interactive terminal.
    Opened { is_terminal: bool },
    /// The next chunk of the open file; an empty chunk marks its end.
    Chunk(Vec<u8>),
    /// The innermost directory was left.
    Left,
    /// The requested operation failed.
    Failed(std::io::Error),
}

/// What the caller is to do next.
#[derive(Debug)]
pub enum Action {
    /// Look up whether a path is a directory: the root path (`None`), or the
    /// entry of the innermost listed directory at this position of its
    /// listing, as enumerated. Answer with `Kind`.
    Inspect(Option<usize>),
    /// Enumerate the directory just inspected, and keep the listing until
    /// `Leave`. Answer with `Listed`.
    List,
    /// Open the file just inspected (for a stream: the stream itself) and tell
    /// whether it is a terminal. Answer with `Opened`.
    Open,
    /// Read the next chunk of the open file. Answer with `Chunk`.
    Read,
    /// Drop the innermost listing. Answer with `Left`.
    Leave,
    /// The traversal is over, with this outcome.
    Finish(Result<()>),
}

/// The stage a traversal is in: which event it waits for.
#[derive(Clone, Copy, Debug, PartialEq, Eq, Structural)]
pub enum Phase {
    /// Waiting for the kind of the path to inspect.
    Inspecting,
    /// Waiting for a directory's listing.
    Listing,
    /// Waiting to learn whether the opened file is a terminal.
    Opening,
    /// Waiting for the next chunk of the open file.
    Reading,
    /// Waiting for the innermost directory to be dropped.
    Leaving,
    /// Finished: no event is taken any more.
    Done,
}

/// The shape of an action, without its outcome's payload.
#[derive(Clone, Copy, Debug, PartialEq, Eq, Structural)]
pub enum Step {
    /// `Action::Inspect` of this entry.
    Inspect(Option<usize>),
    /// `Action::List`.
    List,
    /// `Action::Open`.
    Open,
    /// `Action::Read`.
    Read,
    /// `Action::Leave`.
    Leave,
    /// `Action::Finish` with success.
    FinishOk,
    /// `Action::Finish` with the terminal error.
    FinishTerminal,
    /// `Action::Finish` with an I/O error.
    FinishIo,
}

/// An open directory: its names as listed, the order to visit them in, and
/// how many of them have been started.
pub struct FrameView {
    pub names: Seq<Seq<u8>>,
    pub order: Seq<usize>,
    pub next: int,
}

/// A traversal: its phase and the stack of open directories, outermost first.
pub struct TraversalView {
    pub phase: Phase,
    pub stack: Seq<FrameView>,
}

/// The shape of an action.
pub open spec fn step_of(a: &Action) -> Step {
    match a {
        Action::Inspect(i) => Step::Inspect(*i),
        Action::List => Step::List,
        Action::Open => Step::Open,
        Action::Read => Step::Read,
        Action::Leave => Step::Leave,
        Action::Finish(Ok(_)) => Step::FinishOk,
        Action::Finish(Err(Error::IsTerminal)) => Step::FinishTerminal,
        Action::Finish(Err(Error::Io(_))) => Step::FinishIo,
    }
}

/// The names in a listing, as byte sequences.
pub open spec fn listed_names(names: Seq<Vec<u8>>) -> Seq<Seq<u8>> {
    names.map_values(|n: Vec<u8>| n@)
}

/// Whether `event` answers what a traversal in `phase` asked for.
pub open spec fn fits(phase: Phase, event: &Event) -> bool {
    match event {
        Event::Failed(_) => phase != Phase::Done,
        Event::Kind { .. } => phase == Phase::Inspecting,
        Event::Listed(_) => phase == Phase::Listing,
        Event::Opened { .. } => phase == Phase::Opening,
        Event::Chunk(_) => phase == Phase::Reading,
        Event::Left => phase == Phase::Leaving,
    }
}

/// The bytes an event feeds into the hash.
pub open spec fn fed(event: &Event) -> Seq<u8> {
    match event {
        Event::Chunk(c) => c@,
        _ => Seq::empty(),
    }
}

/// Once the current item is done, go on with `stack`: the next entry of the
/// innermost directory in sorted order; when it has none left, leave it; with
/// no directory open, finish.
pub open spec fn advanced(stack: Seq<FrameView>, post: TraversalView, step: Step) -> bool {
    if stack.len() == 0 {
        post == TraversalView { phase: Phase::Done, stack } && step == Step::FinishOk
    } else {
        let top = stack.last();
        if top.next < top.order.len() {
            &&& post == TraversalView {
                phase: Phase::Inspecting,
                stack: stack.update(
                    stack.len() - 1,
                    FrameView { names: top.names, order: top.order, next: top.next + 1 },
                ),
            }
            &&& step == Step::Inspect(Some(top.order[top.next]))
        } else {
            post == TraversalView { phase: Phase::Leaving, stack } && step == Step::Leave
        }
    }
}

/// A well-formed traversal: it leaves a directory only when one is open, and
/// every open directory visits each of its entries once, in sorted order.
pub open spec fn valid(v: TraversalView) -> bool {
    &&& v.phase == Phase::Leaving ==> v.stack.len() > 0
    &&& forall|k: int|
        0 <= k < v.stack.len() ==> is_sorted_order(#[trigger] v.stack[k].names, v.stack[k].order)
            && 0 <= v.stack[k].next <= v.stack[k].order.len()
}

/// One move of a traversal: from `pre`, on `event`, to `post`, asking for `step`.
pub open spec fn transition(pre: TraversalView, event: &Event, post: TraversalView, step: Step) -> bool {
    match event {
        Event::Failed(_) => post == TraversalView { phase: Phase::Done, stack: pre.stack }
            && step == Step::FinishIo,
        Event::Kind { is_dir } => if *is_dir {
            post == TraversalView { phase: Phase::Listing, stack: pre.stack } && step == Step::List
        } else {
            post == TraversalView { phase: Phase::Opening, stack: pre.stack } && step == Step::Open
        },
        Event::Listed(names) => {
            let ns = listed_names(names@);
            let order = post.stack[pre.stack.len() as int].order;
            &&& post.stack.len() == pre.stack.len() + 1
            &&& is_sorted_order(ns, order)
            &&& advanced(pre.stack.push(FrameView { names: ns, order, next: 0 }), post, step)
        },
        Event::Opened { is_terminal } => if *is_terminal {
            post == TraversalView { phase: Phase::Done, stack: pre.stack }
                && step == Step::FinishTerminal
        } else {
            post == TraversalView { phase: Phase::Reading, stack: pre.stack } && step == Step::Read
        },
        Event::Chunk(c) => if c@.len() == 0 {
            advanced(pre.stack, post, step)
        } else {
            post == pre && step == Step::Read
        },
        Event::Left => advanced(pre.stack.drop_last(), post, step),
    }
}

/// The bytes a hash holds after `input` and then each chunk, in order.
pub open spec fn feed_chunks(input: Seq<u8>, chunks: Seq<Seq<u8>>) -> Seq<u8>
    decreases chunks.len(),
{
    if chunks.len() == 0 {
        input
    } else {
        feed_chunks(input + chunks[0], chunks.drop_first())
    }
}

/// Chunk boundaries do not matter: feeding chunks one after another leaves
/// the hash with their concatenation, so two ways of cutting the same content
/// give the same hash input.
pub proof fn lemma_chunking_irrelevant(input: Seq<u8>, chunks1: Seq<Seq<u8>>, chunks2: Seq<Seq<u8>>)
    requires
        chunks1.flatten() == chunks2.flatten(),
    ensures
        feed_chunks(input, chunks1) == input + chunks1.flatten(),
        feed_chunks(input, chunks1) == feed_chunks(input, chunks2),
{
    lemma_feed_chunks(input, chunks1);
    lemma_feed_chunks(input, chunks2);
}

proof fn lemma_feed_chunks(input: Seq<u8>, chunks: Seq<Seq<u8>>)
    ensures
        feed_chunks(input, chunks) == input + chunks.flatten(),
    decreases chunks.len(),
{
    if chunks.len() == 0 {
        assert(input + chunks.flatten() =~= input);
    } else {
        lemma_feed_chunks(input + chunks[0], chunks.drop_first());
        assert(chunks.flatten() == chunks[0] + chunks.drop_first().flatten());
        assert(input + chunks[0] + chunks.drop_first().flatten() =~= input + (chunks[0]
            + chunks.drop_first().flatten()));
    }
}

/// A terminal is rejected as soon as it is seen: the traversal finishes with
/// the terminal error, feeds nothing, and accepts no further event (so asks
/// for no read).
pub proof fn lemma_terminal_rejected(pre: TraversalView, event: &Event, post: TraversalView, step: Step)
    requires
        fits(pre.phase, event),
        event matches Event::Opened { is_terminal } && *is_terminal,
        transition(pre, event, post, step),
    ensures
        step == Step::FinishTerminal,
        fed(event) == Seq::<u8>::empty(),
        forall|e: &Event| !fits(post.phase, e),
{
}

/// An empty stream gives the hash nothing: opened, not a terminal, and ended
/// by an empty first chunk, its traversal finishes successfully with no byte
/// fed, so its checksum is the digest of the empty buffer.
pub proof fn lemma_empty_stream(
    s0: TraversalView,
    e1: &Event,
    s1: TraversalView,
    step1: Step,
    e2: &Event,
    s2: TraversalView,
    step2: Step,
)
    requires
        s0 == (TraversalView { phase: Phase::Opening, stack: Seq::empty() }),
        e1 matches Event::Opened { is_terminal } && !*is_terminal,
        transition(s0, e1, s1, step1),
        e2 matches Event::Chunk(c) && c@.len() == 0,
        transition(s1, e2, s2, step2),
    ensures
        step1 == Step::Read,
        step2 == Step::FinishOk,
        s2.phase == Phase::Done,
        fed(e1) + fed(e2) == Seq::<u8>::empty(),
{
    assert(fed(e1) + fed(e2) =~= Seq::<u8>::empty());
}

/// A directory is finished before its parent goes on: a move changes no open
/// directory but the innermost one left after it (it advances it, leaves it,
/// or covers it with a newly listed one), so no sibling of a subdirectory is
/// started while the subdirectory is open.
pub proof fn lemma_inner_directory_first(pre: TraversalView, event: &Event, post: TraversalView, step: Step)
    requires
        valid(pre),
        fits(pre.phase, event),
        transition(pre, event, post, step),
    ensures
        pre.stack.len() - 1 <= post.stack.len() <= pre.stack.len() + 1,
        forall|k: int|
            0 <= k < post.stack.len() - 1 && k < pre.stack.len() ==> #[trigger] post.stack[k]
                == pre.stack[k],
        post.stack.len() > 0 && post.stack.len() - 1 < pre.stack.len() ==> {
            let before = pre.stack[post.stack.len() - 1];
            let after = post.stack.last();
            after.names == before.names && after.order == before.order && before.next <= after.next
                <= before.next + 1
        },
        step matches Step::Inspect(Some(i)) ==> post.stack.len() > 0 && 0 < post.stack.last().next
            && i == post.stack.last().order[post.stack.last().next - 1],
{
    let before = match event {
        Event::Listed(names) => pre.stack.push(
            FrameView {
                names: listed_names(names@),
                order: post.stack[pre.stack.len() as int].order,
                next: 0,
            },
        ),
        Event::Left => pre.stack.drop_last(),
        _ => pre.stack,
    };
    if before.len() > 0 && before.last().next < before.last().order.len() {
        let top = before.last();
        let updated = before.update(
            before.len() - 1,
            FrameView { names: top.names, order: top.order, next: top.next + 1 },
        );
        assert(updated.last() == FrameView { names: top.names, order: top.order, next: top.next + 1 });
    }
}

struct Frame {
    names: Ghost<Seq<Seq<u8>>>,
    order: Vec<usize>,
    next: usize,
}

impl Frame {
    spec fn view(&self) -> FrameView {
        FrameView { names: self.names@, order: self.order@, next: self.next as int }
    }
}

/// The walk of one source: a path (file or directory tree) or an open stream.
///
/// The caller performs each action that `step` returns and hands back the
/// event; the traversal decides the order and feeds the hash.
pub struct Traversal {
    frames: Vec<Frame>,
    phase: Phase,
}

impl Traversal {
    /// The phase and the open directories.
    pub closed spec fn view(&self) -> TraversalView {
        TraversalView { phase: self.phase, stack: self.frames@.map_values(|f: Frame| f.view()) }
    }

    /// Every open directory visits each of its entries once, in sorted order.
    pub closed spec fn wf(&self) -> bool {
        &&& self.phase == Phase::Leaving ==> self.frames@.len() > 0
        &&& forall|k: int|
            0 <= k < self.frames@.len() ==> {
                let f = #[trigger] self.frames@[k];
                is_sorted_order(f.names@, f.order@) && f.next <= f.order@.len()
            }
    }

    /// A traversal of the file or directory tree at a path: it first asks to
    /// inspect the root path.
    pub fn for_path() -> (r: (Traversal, Action))
        ensures
            r.0.wf(),
            valid(r.0@),
            r.0@ == (TraversalView { phase: Phase::Inspecting, stack: Seq::empty() }),
            step_of(&r.1) == Step::Inspect(None),
    {
        let t = Traversal { frames: Vec::new(), phase: Phase::Inspecting };
        assert(t@.stack =~= Seq::<FrameView>::empty());
        (t, Action::Inspect(None))
    }

    /// A traversal of an open stream (a file or standard input): it first asks
    /// whether the stream is a terminal.
    pub fn for_stream() -> (r: (Traversal, Action))
        ensures
            r.0.wf(),
            valid(r.0@),
            r.0@ == (TraversalView { phase: Phase::Opening, stack: Seq::empty() }),
            step_of(&r.1) == Step::Open,
    {
        let t = Traversal { frames: Vec::new(), phase: Phase::Opening };
        assert(t@.stack =~= Seq::<FrameView>::empty());
        (t, Action::Open)
    }

    /// Whether the traversal is over.
    pub fn is_done(&self) -> (r: bool)
        ensures
            r == (self@.phase == Phase::Done),
    {
        self.phase == Phase::Done
    }

    /// Whether `event` answers the action the traversal asked for last.
    pub fn expects(&self, event: &Event) -> (r: bool)
        ensures
            r == fits(self@.phase, event),
    {
        match event {
            Event::Failed(_) => self.phase != Phase::Done,
            Event::Kind { .. } => self.phase == Phase::Inspecting,
            Event::Listed(_) => self.phase == Phase::Listing,
            Event::Opened { .. } => self.phase == Phase::Opening,
            Event::Chunk(_) => self.phase == Phase::Reading,
            Event::Left => self.phase == Phase::Leaving,
        }
    }

    fn advance(&mut self) -> (r: Action)
        requires
            old(self).wf(),
        ensures
            final(self).wf(),
            advanced(old(self)@.stack, final(self)@, step_of(&r)),
    {
        match self.frames.pop() {
            None => {
                self.phase = Phase::Done;
                assert(self.frames@.len() == 0);
                assert(self@.stack =~= old(self)@.stack);
                Action::Finish(Ok(()))
            },
            Some(top) => {
                let ghost popped = self.frames@;
                assert(old(self).frames@ =~= popped.push(top));
                if top.next < top.order.len() {
                    let i = top.order[top.next];
                    let top2 = Frame { names: top.names, order: top.order, next: top.next + 1 };
                    self.frames.push(top2);
                    self.phase = Phase::Inspecting;
                    assert(self@.stack =~= old(self)@.stack.update(
                        old(self)@.stack.len() - 1,
                        FrameView { names: top.names@, order: top2.order@, next: top.next + 1 },
                    ));
                    Action::Inspect(Some(i))
                } else {
                    self.frames.push(top);
                    self.phase = Phase::Leaving;
                    assert(self.frames@ =~= old(self).frames@);
                    assert(self@.stack =~= old(self)@.stack);
                    Action::Leave
                }
            },
        }
    }

    /// Takes the outcome of the last action, feeds the hash, and returns the
    /// next action.
    pub fn step<H: crate::Hash>(&mut self, hash: &mut H, event: Event) -> (r: Action)
        requires
            old(self).wf(),
            fits(old(self)@.phase, &event),
        ensures
            final(self).wf(),
            valid(final(self)@),
            transition(old(self)@, &event, final(self)@, step_of(&r)),
            final(hash).input() == old(hash).input() + fed(&event),
            event matches Event::Failed(e) ==> r matches Action::Finish(Err(Error::Io(e2))) && e2 == e,
    {
        let ghost ev = event;
        let r = self.step_inner(hash, event);
        proof {
            self.lemma_wf_valid();
        }
        r
    }

    proof fn lemma_wf_valid(&self)
        requires
            self.wf(),
        ensures
            valid(self@),
    {
        assert forall|k: int| 0 <= k < self@.stack.len() implies is_sorted_order(
            #[trigger] self@.stack[k].names,
            self@.stack[k].order,
        ) && 0 <= self@.stack[k].next <= self@.stack[k].order.len() by {
            assert(self@.stack[k] == self.frames@[k].view());
        }
    }

    fn step_inner<H: crate::Hash>(&mut self, hash: &mut H, event: Event) -> (r: Action)
        requires
            old(self).wf(),
            fits(old(self)@.phase, &event),
        ensures
            final(self).wf(),
            transition(old(self)@, &event, final(self)@, step_of(&r)),
            final(hash).input() == old(hash).input() + fed(&event),
            event matches Event::Failed(e) ==> r matches Action::Finish(Err(Error::Io(e2))) && e2 == e,
    {
        let ghost ev = event;
        match event {
            Event::Failed(e) => {
                self.phase = Phase::Done;
                assert(hash.input() =~= old(hash).input() + fed(&ev));
                Action::Finish(Err(Error::Io(e)))
            },
            Event::Kind { is_dir } => {
                assert(hash.input() =~= old(hash).input() + fed(&ev));
                if is_dir {
                    self.phase = Phase::Listing;
                    Action::List
                } else {
                    self.phase = Phase::Opening;
                    Action::Open
                }
            },
            Event::Listed(names) => {
                assert(hash.input() =~= old(hash).input() + fed(&ev));
                let order = sort_order(&names);
                let ghost ns = listed_names(names@);
                let frame = Frame { names: Ghost(ns), order, next: 0 };
                self.frames.push(frame);
                let ghost pushed = self@;
                assert(pushed.stack =~= old(self)@.stack.push(frame.view()));
                let r = self.advance();
                assert(self@.stack[old(self)@.stack.len() as int].order == frame.order@);
                r
            },
            Event::Opened { is_terminal } => {
                assert(hash.input() =~= old(hash).input() + fed(&ev));
                if is_terminal {
                    self.phase = Phase::Done;
                    Action::Finish(Err(Error::IsTerminal))
                } else {
                    self.phase = Phase::Reading;
                    Action::Read
                }
            },
            Event::Chunk(c) => {
                if c.len() == 0 {
                    assert(hash.input() =~= old(hash).input() + fed(&ev));
                    self.advance()
                } else {
                    hash.update(c.as_slice());
                    Action::Read
                }
            },
            Event::Left => {
                assert(hash.input() =~= old(hash).input() + fed(&ev));
                let _ = self.frames.pop();
                self.phase = Phase::Inspecting;
                assert(self@.stack =~= old(self)@.stack.drop_last());
                self.advance()
            },
        }
    }
}

} // verus!
