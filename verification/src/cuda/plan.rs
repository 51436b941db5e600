//! Plans: what a driver is told to do, step by step.

use vstd::prelude::*;

use crate::raster::volume;

verus! {

/// What a device buffer holds.
#[derive(Clone, Copy, PartialEq, Eq, Structural, Debug)]
pub enum Element {
    /// Single-precision numbers.
    Single,
    /// Double-precision numbers.
    Double,
    /// Bytes.
    Byte,
    /// Sixteen-bit codes.
    Code,
    /// Sixty-four-bit words.
    Word,
}

/// A device buffer: what it holds, how much, and how far it has been written.
///
/// Samples may interleave: a buffer of `lanes` lanes is complete once every lane
/// has been written.
#[derive(Clone, Copy, PartialEq, Eq, Structural, Debug)]
pub struct Buffer {
    pub element: Element,
    pub len: usize,
    pub lanes: usize,
    pub filled: usize,
    pub live: bool,
}

impl Buffer {
    /// Whether the buffer can be read: it has not been released, and every lane
    /// has been written.
    pub open spec fn ready(self) -> bool {
        self.live && self.filled == self.lanes
    }
}

/// The geometry of a launch.
#[derive(Clone, Copy, Debug)]
pub struct Grid {
    /// Blocks along each axis.
    pub grid: (u32, u32, u32),
    /// Threads of a block along each axis.
    pub block: (u32, u32, u32),
    /// Bytes of memory that the threads of a block share.
    pub shared: u32,
}

/// An argument of a kernel.
#[derive(Clone, Copy, PartialEq, Eq, Structural, Debug)]
pub enum Arg {
    /// A buffer of `len` elements that the kernel reads.
    Read { slot: usize, element: Element, len: usize },
    /// A buffer of `len` elements of which the kernel writes one lane.
    Write { slot: usize, element: Element, len: usize, lane: usize },
    /// A complete buffer of `len` elements that the kernel adds to or rewrites.
    Update { slot: usize, element: Element, len: usize },
    /// A 32-bit integer.
    Int(i32),
    /// A 64-bit integer.
    Long(i64),
    /// A single-precision number by its bits.
    Single(u32),
    /// A 64-bit word.
    Word(u64),
}

impl Arg {
    /// The buffer that the argument names, if it names one.
    pub open spec fn names(self) -> Option<int> {
        match self {
            Arg::Read { slot, .. } => Some(slot as int),
            Arg::Write { slot, .. } => Some(slot as int),
            Arg::Update { slot, .. } => Some(slot as int),
            _ => None,
        }
    }

    /// Whether the argument writes to a buffer.
    pub open spec fn writes(self, s: int) -> bool {
        match self {
            Arg::Write { slot, .. } => slot == s,
            _ => false,
        }
    }
}

/// One step of a plan. Buffers are numbered in the order in which they are made;
/// the image that a plan starts from is number zero.
#[derive(Debug)]
pub enum Step {
    /// Make a buffer and leave it unwritten.
    Allocate { element: Element, len: usize, lanes: usize },
    /// Make a buffer of zeros.
    Zeros { element: Element, len: usize },
    /// Make a buffer of single-precision numbers and send them. `what` is said of
    /// a failure.
    Upload { values: Vec<u32>, what: &'static str },
    /// Copy a buffer to another one.
    Copy { from: usize, to: usize },
    /// Launch a kernel of a module. `what` is said of a failure.
    Launch {
        module: &'static str,
        kernel: &'static str,
        args: Vec<Arg>,
        grid: Grid,
        what: &'static str,
    },
    /// Free a buffer.
    Release { slot: usize },
}

/// A step as a mathematical value.
pub enum Act {
    Allocate { element: Element, len: usize, lanes: usize },
    Zeros { element: Element, len: usize },
    Upload { values: Seq<u32>, what: Seq<char> },
    Copy { from: usize, to: usize },
    Launch {
        module: Seq<char>,
        kernel: Seq<char>,
        args: Seq<Arg>,
        grid: Grid,
        what: Seq<char>,
    },
    Release { slot: usize },
}

impl View for Step {
    type V = Act;

    open spec fn view(&self) -> Act {
        match *self {
            Step::Allocate { element, len, lanes } => Act::Allocate { element, len, lanes },
            Step::Zeros { element, len } => Act::Zeros { element, len },
            Step::Upload { values, what } => Act::Upload { values: values@, what: what@ },
            Step::Copy { from, to } => Act::Copy { from, to },
            Step::Launch { module, kernel, args, grid, what } => Act::Launch {
                module: module@,
                kernel: kernel@,
                args: args@,
                grid,
                what: what@,
            },
            Step::Release { slot } => Act::Release { slot },
        }
    }
}

/// Whether one argument finds its buffer as it needs it: of the right kind and
/// size; complete where it is read, and next in turn where a lane is written.
pub open spec fn met(buffers: Seq<Buffer>, arg: Arg) -> bool {
    match arg {
        Arg::Read { slot, element, len } => {
            &&& slot < buffers.len()
            &&& buffers[slot as int].ready()
            &&& buffers[slot as int].element == element
            &&& buffers[slot as int].len == len
        },
        Arg::Update { slot, element, len } => {
            &&& slot < buffers.len()
            &&& buffers[slot as int].ready()
            &&& buffers[slot as int].element == element
            &&& buffers[slot as int].len == len
        },
        Arg::Write { slot, element, len, lane } => {
            &&& slot < buffers.len()
            &&& buffers[slot as int].live
            &&& buffers[slot as int].element == element
            &&& buffers[slot as int].len == len
            &&& buffers[slot as int].filled == lane < buffers[slot as int].lanes
        },
        _ => true,
    }
}

/// Whether every argument of a launch is met, each from a buffer of its own.
pub open spec fn launchable(buffers: Seq<Buffer>, args: Seq<Arg>) -> bool {
    &&& forall|i: int| 0 <= i < args.len() ==> met(buffers, #[trigger] args[i])
    &&& forall|i: int, j: int|
        0 <= i < j < args.len() && (#[trigger] args[i]).names() is Some ==> args[i].names() != (
        #[trigger] args[j]).names()
}

/// The buffers after the first `n` arguments of a launch have been written.
pub open spec fn after_writes(buffers: Seq<Buffer>, args: Seq<Arg>, n: int) -> Seq<Buffer>
    decreases n,
{
    if n <= 0 {
        buffers
    } else {
        let before = after_writes(buffers, args, n - 1);
        match args[n - 1] {
            Arg::Write { slot, .. } => before.update(
                slot as int,
                Buffer { filled: (before[slot as int].filled + 1) as usize, ..before[slot as int] },
            ),
            _ => before,
        }
    }
}

/// A buffer that no argument writes stays as it is, and none comes or goes.
proof fn writes_are_local(buffers: Seq<Buffer>, args: Seq<Arg>, n: int, s: int)
    requires
        launchable(buffers, args),
        n <= args.len(),
        forall|j: int| 0 <= j < n ==> !(#[trigger] args[j]).writes(s),
    ensures
        after_writes(buffers, args, n).len() == buffers.len(),
        0 <= s < buffers.len() ==> after_writes(buffers, args, n)[s] == buffers[s],
    decreases n,
{
    if n > 0 {
        writes_are_local(buffers, args, n - 1, s);
        assert(!args[n - 1].writes(s) && met(buffers, args[n - 1]));
    }
}

/// The buffers after a step; nothing where the step is not to be taken.
pub open spec fn stepped(buffers: Seq<Buffer>, act: Act) -> Option<Seq<Buffer>> {
    match act {
        Act::Allocate { element, len, lanes } => {
            Some(buffers.push(Buffer { element, len, lanes, filled: 0, live: true }))
        },
        Act::Zeros { element, len } => {
            Some(buffers.push(Buffer { element, len, lanes: 1, filled: 1, live: true }))
        },
        Act::Upload { values, .. } => {
            Some(
                buffers.push(
                    Buffer {
                        element: Element::Single,
                        len: values.len() as usize,
                        lanes: 1,
                        filled: 1,
                        live: true,
                    },
                ),
            )
        },
        Act::Copy { from, to } => {
            if copyable(buffers, from as int, to as int) {
                Some(buffers.update(to as int, Buffer { filled: 1, ..buffers[to as int] }))
            } else {
                None
            }
        },
        Act::Launch { args, .. } => {
            if launchable(buffers, args) {
                Some(after_writes(buffers, args, args.len() as int))
            } else {
                None
            }
        },
        Act::Release { slot } => {
            if slot < buffers.len() && buffers[slot as int].live {
                Some(buffers.update(slot as int, Buffer { live: false, ..buffers[slot as int] }))
            } else {
                None
            }
        },
    }
}

/// Whether one buffer can be copied to another one.
pub open spec fn copyable(buffers: Seq<Buffer>, from: int, to: int) -> bool {
    &&& 0 <= from < buffers.len()
    &&& 0 <= to < buffers.len()
    &&& from != to
    &&& buffers[from].ready()
    &&& buffers[to].live
    &&& buffers[to].lanes == 1
    &&& buffers[from].element == buffers[to].element
    &&& buffers[from].len == buffers[to].len
}

/// The buffers after the first `n` steps from an image; nothing where one of the
/// steps is not to be taken.
pub open spec fn replayed(input: Buffer, acts: Seq<Act>, n: int) -> Option<Seq<Buffer>>
    decreases n,
{
    if n <= 0 {
        Some(seq![input])
    } else {
        match replayed(input, acts, n - 1) {
            Some(buffers) => stepped(buffers, acts[n - 1]),
            None => None,
        }
    }
}

/// More steps do not change what the first ones did.
proof fn replay_is_prefix(input: Buffer, acts: Seq<Act>, more: Seq<Act>, n: int)
    requires
        n <= acts.len() <= more.len(),
        forall|i: int| 0 <= i < n ==> acts[i] == more[i],
    ensures
        replayed(input, acts, n) == replayed(input, more, n),
    decreases n,
{
    if n > 0 {
        replay_is_prefix(input, acts, more, n - 1);
    }
}

/// The buffer of an image of the given shape, complete.
pub open spec fn resident(shape: (usize, usize, usize)) -> Buffer {
    Buffer {
        element: Element::Single,
        len: volume(shape) as usize,
        lanes: 1,
        filled: 1,
        live: true,
    }
}

/// A plan: the steps, and the buffers that they make and how far they fill them.
#[derive(Debug)]
pub struct Plan {
    /// The steps in order.
    pub steps: Vec<Step>,
    /// The buffers after the last step.
    pub buffers: Vec<Buffer>,
    /// The buffer that holds the result.
    pub output: usize,
    /// The shape of the result.
    pub shape: (usize, usize, usize),
}

impl View for Plan {
    type V = Seq<Act>;

    open spec fn view(&self) -> Seq<Act> {
        Seq::new(self.steps@.len(), |i: int| self.steps@[i]@)
    }
}

impl Plan {
    /// Whether every step can be taken in its turn from an image of the given
    /// shape, and the buffers are as the steps leave them.
    pub open spec fn valid(&self, shape: (usize, usize, usize)) -> bool {
        replayed(resident(shape), self@, self@.len() as int) == Some(self.buffers@)
    }

    /// Whether the plan is valid and leaves its result complete: as many elements
    /// as the result's shape has, or one that nothing reads where it has none.
    ///
    /// A launch is presumed to write all of a buffer that it names for writing. Its
    /// grid has a thread for every element of a line up to the driver's 32 bits, and
    /// for every pixel of a plane: see `a_line_is_covered` and `a_plane_is_covered`.
    pub open spec fn sound(&self, shape: (usize, usize, usize), element: Element) -> bool {
        &&& self.valid(shape)
        &&& self.output < self.buffers@.len()
        &&& self.buffers@[self.output as int].element == element
        &&& self.buffers@[self.output as int].live
        &&& volume(self.shape) > 0 ==> self.buffers@[self.output as int].ready()
            && self.buffers@[self.output as int].len == volume(self.shape)
    }

    /// The empty plan: its result is the image that it starts from.
    pub fn new(shape: (usize, usize, usize), len: usize) -> (r: Plan)
        requires
            len == volume(shape),
        ensures
            r@ == Seq::<Act>::empty(),
            r.buffers@ == seq![resident(shape)],
            r.valid(shape),
            r.output == 0,
            r.shape == shape,
    {
        let mut buffers: Vec<Buffer> = Vec::new();
        buffers.push(Buffer { element: Element::Single, len, lanes: 1, filled: 1, live: true });
        let r = Plan { steps: Vec::new(), buffers, output: 0, shape };
        proof {
            assert(r@ =~= Seq::<Act>::empty());
            assert(r.buffers@ =~= seq![resident(shape)]);
        }
        r
    }

    fn push(&mut self, step: Step)
        ensures
            final(self)@ == old(self)@.push(step@),
            final(self).buffers@ == old(self).buffers@,
            final(self).output == old(self).output,
            final(self).shape == old(self).shape,
    {
        self.steps.push(step);
        assert(self@ =~= old(self)@.push(step@));
    }

    proof fn one_more(&self, before: Seq<Act>, act: Act, buffers: Seq<Buffer>, shape: (
        usize,
        usize,
        usize,
    ))
        requires
            replayed(resident(shape), before, before.len() as int) == Some(buffers),
            self@ == before.push(act),
            stepped(buffers, act) == Some(self.buffers@),
        ensures
            self.valid(shape),
    {
        replay_is_prefix(resident(shape), before, self@, before.len() as int);
    }

    /// Appends a step that makes a buffer to be written in interleaved lanes.
    pub fn allocate(&mut self, element: Element, len: usize, lanes: usize) -> (slot: usize)
        ensures
            slot == old(self).buffers@.len(),
            final(self)@ == old(self)@.push(Act::Allocate { element, len, lanes }),
            final(self).buffers@ == old(self).buffers@.push(
                Buffer { element, len, lanes, filled: 0, live: true },
            ),
            final(self).output == old(self).output,
            final(self).shape == old(self).shape,
            forall|shape: (usize, usize, usize)| #[trigger]
                old(self).valid(shape) ==> final(self).valid(shape),
    {
        let slot: usize = self.buffers.len();
        self.push(Step::Allocate { element, len, lanes });
        self.buffers.push(Buffer { element, len, lanes, filled: 0, live: true });
        proof {
            assert forall|shape: (usize, usize, usize)| #[trigger]
                old(self).valid(shape) implies self.valid(shape) by {
                self.one_more(
                    old(self)@,
                    Act::Allocate { element, len, lanes },
                    old(self).buffers@,
                    shape,
                );
            }
        }
        slot
    }

    /// Appends a step that makes a buffer of zeros.
    pub fn zeros(&mut self, element: Element, len: usize) -> (slot: usize)
        ensures
            slot == old(self).buffers@.len(),
            final(self)@ == old(self)@.push(Act::Zeros { element, len }),
            final(self).buffers@ == old(self).buffers@.push(
                Buffer { element, len, lanes: 1, filled: 1, live: true },
            ),
            final(self).output == old(self).output,
            final(self).shape == old(self).shape,
            forall|shape: (usize, usize, usize)| #[trigger]
                old(self).valid(shape) ==> final(self).valid(shape),
    {
        let slot: usize = self.buffers.len();
        self.push(Step::Zeros { element, len });
        self.buffers.push(Buffer { element, len, lanes: 1, filled: 1, live: true });
        proof {
            assert forall|shape: (usize, usize, usize)| #[trigger]
                old(self).valid(shape) implies self.valid(shape) by {
                self.one_more(
                    old(self)@,
                    Act::Zeros { element, len },
                    old(self).buffers@,
                    shape,
                );
            }
        }
        slot
    }

    /// Appends a step that sends numbers to a buffer of their own.
    pub fn upload(&mut self, values: Vec<u32>, what: &'static str) -> (slot: usize)
        ensures
            slot == old(self).buffers@.len(),
            final(self)@ == old(self)@.push(Act::Upload { values: values@, what: what@ }),
            final(self).buffers@ == old(self).buffers@.push(
                Buffer {
                    element: Element::Single,
                    len: values@.len() as usize,
                    lanes: 1,
                    filled: 1,
                    live: true,
                },
            ),
            final(self).output == old(self).output,
            final(self).shape == old(self).shape,
            forall|shape: (usize, usize, usize)| #[trigger]
                old(self).valid(shape) ==> final(self).valid(shape),
    {
        let slot: usize = self.buffers.len();
        let len: usize = values.len();
        let ghost sent = values@;
        self.push(Step::Upload { values, what });
        self.buffers.push(
            Buffer { element: Element::Single, len, lanes: 1, filled: 1, live: true },
        );
        proof {
            assert forall|shape: (usize, usize, usize)| #[trigger]
                old(self).valid(shape) implies self.valid(shape) by {
                self.one_more(
                    old(self)@,
                    Act::Upload { values: sent, what: what@ },
                    old(self).buffers@,
                    shape,
                );
            }
        }
        slot
    }

    /// Appends a copy.
    pub fn copy(&mut self, from: usize, to: usize)
        requires
            copyable(old(self).buffers@, from as int, to as int),
        ensures
            final(self)@ == old(self)@.push(Act::Copy { from, to }),
            final(self).buffers@ == old(self).buffers@.update(
                to as int,
                Buffer { filled: 1, ..old(self).buffers@[to as int] },
            ),
            final(self).output == old(self).output,
            final(self).shape == old(self).shape,
            forall|shape: (usize, usize, usize)| #[trigger]
                old(self).valid(shape) ==> final(self).valid(shape),
    {
        self.push(Step::Copy { from, to });
        let b: Buffer = self.buffers[to];
        self.buffers.set(
            to,
            Buffer { element: b.element, len: b.len, lanes: b.lanes, filled: 1, live: b.live },
        );
        proof {
            assert forall|shape: (usize, usize, usize)| #[trigger]
                old(self).valid(shape) implies self.valid(shape) by {
                self.one_more(old(self)@, Act::Copy { from, to }, old(self).buffers@, shape);
            }
        }
    }

    /// Appends a step that frees a buffer.
    pub fn release(&mut self, slot: usize)
        requires
            slot < old(self).buffers@.len(),
            old(self).buffers@[slot as int].live,
        ensures
            final(self)@ == old(self)@.push(Act::Release { slot }),
            final(self).buffers@ == old(self).buffers@.update(
                slot as int,
                Buffer { live: false, ..old(self).buffers@[slot as int] },
            ),
            final(self).output == old(self).output,
            final(self).shape == old(self).shape,
            forall|shape: (usize, usize, usize)| #[trigger]
                old(self).valid(shape) ==> final(self).valid(shape),
    {
        self.push(Step::Release { slot });
        let b: Buffer = self.buffers[slot];
        self.buffers.set(
            slot,
            Buffer {
                element: b.element,
                len: b.len,
                lanes: b.lanes,
                filled: b.filled,
                live: false,
            },
        );
        proof {
            assert forall|shape: (usize, usize, usize)| #[trigger]
                old(self).valid(shape) implies self.valid(shape) by {
                self.one_more(old(self)@, Act::Release { slot }, old(self).buffers@, shape);
            }
        }
    }

    /// Appends a launch.
    pub fn launch(
        &mut self,
        module: &'static str,
        kernel: &'static str,
        args: Vec<Arg>,
        grid: Grid,
        what: &'static str,
    )
        requires
            launchable(old(self).buffers@, args@),
        ensures
            final(self)@ == old(self)@.push(
                Act::Launch { module: module@, kernel: kernel@, args: args@, grid, what: what@ },
            ),
            final(self).buffers@ == after_writes(
                old(self).buffers@,
                args@,
                args@.len() as int,
            ),
            final(self).output == old(self).output,
            final(self).shape == old(self).shape,
            forall|shape: (usize, usize, usize)| #[trigger]
                old(self).valid(shape) ==> final(self).valid(shape),
    {
        let mut i: usize = 0;
        while i < args.len()
            invariant
                i <= args@.len(),
                launchable(old(self).buffers@, args@),
                self.steps == old(self).steps,
                self.output == old(self).output,
                self.shape == old(self).shape,
                self.buffers@ == after_writes(old(self).buffers@, args@, i as int),
            decreases args@.len() - i,
        {
            let arg: Arg = args[i];
            proof {
                assert(met(old(self).buffers@, args@[i as int]));
            }
            if let Arg::Write { slot, .. } = arg {
                proof {
                    assert forall|j: int| 0 <= j < i implies !(#[trigger] args@[j]).writes(
                        slot as int,
                    ) by {
                        assert(args@[j].names() is Some ==> args@[j].names()
                            != args@[i as int].names());
                    }
                    writes_are_local(old(self).buffers@, args@, i as int, slot as int);
                }
                let b: Buffer = self.buffers[slot];
                self.buffers.set(
                    slot,
                    Buffer {
                        element: b.element,
                        len: b.len,
                        lanes: b.lanes,
                        filled: b.filled + 1,
                        live: b.live,
                    },
                );
            }
            i = i + 1;
        }
        let ghost act = Act::Launch {
            module: module@,
            kernel: kernel@,
            args: args@,
            grid,
            what: what@,
        };
        proof {
            assert(self@ =~= old(self)@);
        }
        self.push(Step::Launch { module, kernel, args, grid, what });
        proof {
            assert forall|shape: (usize, usize, usize)| #[trigger]
                old(self).valid(shape) implies self.valid(shape) by {
                self.one_more(old(self)@, act, old(self).buffers@, shape);
            }
        }
    }
}

} // verus!
