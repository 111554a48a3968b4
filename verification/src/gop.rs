//! The order of work over the groups of pictures of a session.
//!
//! Frames are read group by group. With an external base codec the base of a group is encoded in
//! the background while the enhancement of the group before it is encoded; without, the frames
//! of a group are encoded at once. The work itself is done by the caller: it asks for the next
//! action, performs it, and reports what came of it.
use crate::session;
use vstd::prelude::*;

verus! {

/// What is to be done next.
#[derive(Clone, Copy, Debug, PartialEq, Eq, Structural)]
pub enum Action {
    /// Read one more frame into the group.
    Read,
    /// Wait for the base of the pending group, and encode its frames against it.
    Enhance,
    /// Start to encode the base of the group: it becomes the pending one.
    Start,
    /// Encode the frames of the group.
    Encode,
    Finish,
}

/// What came of an action.
#[derive(Clone, Copy, Debug, PartialEq, Eq, Structural)]
pub enum Event {
    FrameRead,
    /// There was no frame to read.
    InputEnded,
    /// Anything but reading was done.
    Done,
}

#[derive(Clone, Copy, Debug, PartialEq, Eq, Structural)]
pub enum Phase {
    Reading,
    /// The group is complete; the pending group comes first.
    Complete,
    /// The pending group is done, or there was none.
    Coding,
    /// No frame is left but those of the pending group.
    Draining,
    Finished,
}

/// The state of a session.
#[derive(Clone, Copy, Debug)]
pub struct GopLoop {
    pub phase: Phase,
    /// Frames read in all.
    pub read: u32,
    /// Frames in the group.
    pub in_gop: usize,
    /// Frames in the group whose base is being encoded.
    pub pending: usize,
    /// Frames per group.
    pub gop: usize,
    /// Frames to read in all.
    pub frames: u32,
    /// Whether bases are encoded in the background.
    pub background: bool,
}

/// The next action in a state.
pub open spec fn action_of(g: GopLoop) -> Action {
    match g.phase {
        Phase::Reading => Action::Read,
        Phase::Complete => Action::Enhance,
        Phase::Coding => if g.background {
            Action::Start
        } else {
            Action::Encode
        },
        Phase::Draining => Action::Enhance,
        Phase::Finished => Action::Finish,
    }
}

/// The phase after the last frame of a group was read.
pub open spec fn closed(g: GopLoop) -> Phase {
    if g.in_gop == 0 {
        if g.pending > 0 {
            Phase::Draining
        } else {
            Phase::Finished
        }
    } else if g.pending > 0 {
        Phase::Complete
    } else {
        Phase::Coding
    }
}

/// A state with one more frame wanted, or else with its group complete.
pub open spec fn settled(g: GopLoop) -> GopLoop {
    if session::wants_more(g.read as int, g.in_gop as int, g.gop as int, g.frames as int) {
        GopLoop { phase: Phase::Reading, ..g }
    } else {
        GopLoop { phase: closed(g), ..g }
    }
}

/// The state after an event.
pub open spec fn after(g: GopLoop, e: Event) -> GopLoop {
    match (g.phase, e) {
        (Phase::Reading, Event::FrameRead) => settled(
            GopLoop { read: (g.read + 1) as u32, in_gop: (g.in_gop + 1) as usize, ..g },
        ),
        (Phase::Reading, Event::InputEnded) => GopLoop { phase: closed(g), ..g },
        (Phase::Complete, Event::Done) => GopLoop { phase: Phase::Coding, pending: 0, ..g },
        (Phase::Coding, Event::Done) => settled(
            GopLoop {
                pending: if g.background {
                    g.in_gop
                } else {
                    0
                },
                in_gop: 0,
                ..g
            },
        ),
        (Phase::Draining, Event::Done) => GopLoop { phase: Phase::Finished, pending: 0, ..g },
        _ => g,
    }
}

/// What holds in every state.
pub open spec fn wf(g: GopLoop) -> bool {
    &&& g.gop >= 1
    &&& g.in_gop + g.pending <= g.read <= g.frames
    &&& g.phase == Phase::Reading ==> session::wants_more(
        g.read as int,
        g.in_gop as int,
        g.gop as int,
        g.frames as int,
    )
    &&& g.phase == Phase::Complete ==> g.in_gop > 0 && g.pending > 0
    &&& g.phase == Phase::Coding ==> g.in_gop > 0 && g.pending == 0
    &&& g.phase == Phase::Draining ==> g.in_gop == 0 && g.pending > 0
    &&& g.phase == Phase::Finished ==> g.in_gop == 0 && g.pending == 0
}

/// Frames whose enhancement was encoded.
pub open spec fn coded(g: GopLoop) -> int {
    g.read - g.in_gop - g.pending
}

/// Whether an event can follow in a state.
pub open spec fn possible(g: GopLoop, e: Event) -> bool {
    match g.phase {
        Phase::Reading => e != Event::Done,
        Phase::Finished => false,
        _ => e == Event::Done,
    }
}

impl GopLoop {
    /// The state before the first frame.
    pub fn new(gop: usize, frames: u32, background: bool) -> (g: GopLoop)
        requires
            gop >= 1,
        ensures
            wf(g),
            g == settled(
                (GopLoop {
                    phase: Phase::Reading,
                    read: 0,
                    in_gop: 0,
                    pending: 0,
                    gop,
                    frames,
                    background,
                }),
            ),
    {
        GopLoop {
            phase: if frames > 0 {
                Phase::Reading
            } else {
                Phase::Finished
            },
            read: 0,
            in_gop: 0,
            pending: 0,
            gop,
            frames,
            background,
        }
    }

    /// What is to be done next.
    pub fn action(&self) -> (a: Action)
        ensures
            a == action_of(*self),
    {
        match self.phase {
            Phase::Reading => Action::Read,
            Phase::Complete => Action::Enhance,
            Phase::Coding => if self.background {
                Action::Start
            } else {
                Action::Encode
            },
            Phase::Draining => Action::Enhance,
            Phase::Finished => Action::Finish,
        }
    }

    fn close(&self) -> (p: Phase)
        ensures
            p == closed(*self),
    {
        if self.in_gop == 0 {
            if self.pending > 0 {
                Phase::Draining
            } else {
                Phase::Finished
            }
        } else if self.pending > 0 {
            Phase::Complete
        } else {
            Phase::Coding
        }
    }

    fn settle(&mut self)
        ensures
            *final(self) == settled(*old(self)),
    {
        self.phase = if session::wants_frame(self.read, self.in_gop, self.gop, self.frames) {
            Phase::Reading
        } else {
            self.close()
        };
    }

    /// Take in what came of the action.
    pub fn advance(&mut self, e: Event)
        requires
            wf(*old(self)),
            possible(*old(self), e),
        ensures
            wf(*final(self)),
            *final(self) == after(*old(self), e),
    {
        match self.phase {
            Phase::Reading => match e {
                Event::FrameRead => {
                    self.read = self.read + 1;
                    self.in_gop = self.in_gop + 1;
                    self.settle();
                },
                _ => {
                    self.phase = self.close();
                },
            },
            Phase::Complete => {
                self.pending = 0;
                self.phase = Phase::Coding;
            },
            Phase::Coding => {
                self.pending = if self.background {
                    self.in_gop
                } else {
                    0
                };
                self.in_gop = 0;
                self.settle();
            },
            Phase::Draining => {
                self.pending = 0;
                self.phase = Phase::Finished;
            },
            Phase::Finished => {},
        }
    }
}

/// Frames are coded in the order in which they were read, each once: an action codes all frames
/// of the oldest group, and no other event changes what is coded.
pub proof fn law_each_frame_coded_once(g: GopLoop, e: Event)
    requires
        wf(g),
        possible(g, e),
    ensures
        coded(after(g, e)) == coded(g) + (match action_of(g) {
            Action::Enhance => g.pending as int,
            Action::Encode => g.in_gop as int,
            _ => 0,
        }),
{
}

/// When a session is finished, every frame that was read was coded.
pub proof fn law_all_coded(g: GopLoop)
    requires
        wf(g),
        g.phase == Phase::Finished,
    ensures
        coded(g) == g.read,
{
}

/// A group never has more frames than it may, and it is closed by a frame only where it is full or
/// no more frames are wanted.
pub proof fn law_group_size(g: GopLoop, e: Event)
    requires
        wf(g),
        possible(g, e),
        g.in_gop <= g.gop,
        g.pending <= g.gop,
    ensures
        after(g, e).in_gop <= g.gop,
        after(g, e).pending <= g.gop,
        after(g, e).gop == g.gop && after(g, e).frames == g.frames,
        e == Event::FrameRead && after(g, e).phase != Phase::Reading ==> after(g, e).in_gop == g.gop
            || after(g, e).read == g.frames,
        e == Event::FrameRead && after(g, e).phase == Phase::Reading ==> after(g, e).in_gop < g.gop
            && after(g, e).read < g.frames,
{
}

} // verus!
