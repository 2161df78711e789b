//! The stack of call frames of the virtual machine.
//!
//! Each frame is kept in two parts: the base part (the instruction pointer and the function),
//! which the interpreter reads on every instruction, and the extended part with the rest of the
//! frame. The base part of the active frame is held directly in the stack rather than in the
//! vector of the frames below it, so that reading it takes no indirection.
use vstd::prelude::*;

verus! {

/// The most frames the stack holds at once.
pub const MAX_FRAME_COUNT: u32 = 1024;

/// The position of a frame in the stack, counted from the bottom.
#[derive(Debug, Clone, Copy, PartialEq, Eq, PartialOrd, Ord)]
pub struct FrameId(pub u32);

/// The part of a frame that the interpreter reads on every instruction.
pub struct BaseFrame<F> {
    pub ip: usize,
    pub function: F,
}

/// A stack of frames; `F` is the function a frame runs and `X` the rest of a frame.
pub struct FrameStack<F, X> {
    current_base: Option<BaseFrame<F>>,
    base: Vec<BaseFrame<F>>,
    extended: Vec<X>,
}

impl<F, X> FrameStack<F, X> {
    /// The base parts of the frames, from the bottom of the stack to the active frame.
    pub closed spec fn bases(self) -> Seq<BaseFrame<F>> {
        match self.current_base {
            Some(b) => self.base@.push(b),
            None => self.base@,
        }
    }

    /// The extended parts of the frames, from the bottom of the stack to the active frame.
    pub closed spec fn extensions(self) -> Seq<X> {
        self.extended@
    }

    /// The number of frames.
    pub open spec fn depth(self) -> nat {
        self.extensions().len()
    }

    /// The two parts of each frame line up, the active frame's base part is the one held apart,
    /// and the stack holds no more than `MAX_FRAME_COUNT` frames.
    pub closed spec fn wf(self) -> bool {
        &&& self.extended@.len() <= MAX_FRAME_COUNT
        &&& match self.current_base {
            Some(_) => self.base@.len() + 1 == self.extended@.len(),
            None => self.base@.len() == 0 && self.extended@.len() == 0,
        }
    }

    /// A stack without any frame.
    pub fn new() -> (r: Self)
        ensures
            r.wf(),
            r.depth() == 0,
            r.bases() == Seq::<BaseFrame<F>>::empty(),
    {
        FrameStack { current_base: None, base: Vec::new(), extended: Vec::new() }
    }

    /// Takes the active frame's base part, making the frame below it the active one.
    fn pop_base(&mut self) -> (r: BaseFrame<F>)
        requires
            old(self).current_base is Some,
        ensures
            r == old(self).bases().last(),
            final(self).bases() == old(self).bases().drop_last(),
            final(self).extended == old(self).extended,
            final(self).current_base is Some <==> old(self).base@.len() > 0,
            final(self).current_base is Some ==> final(self).base@.len() + 1 == old(self).base@.len(),
            final(self).current_base is None ==> final(self).base@.len() == 0,
    {
        let current = self.current_base.take();
        match self.base.pop() {
            Some(next) => {
                self.current_base = Some(next);
            },
            None => {},
        }
        proof {
            assert(self.bases() =~= old(self).bases().drop_last());
        }
        match current {
            Some(c) => c,
            None => {
                proof {
                    assert(false);
                }
                vstd::pervasive::unreached()
            },
        }
    }

    /// Makes `base` the base part of the active frame, moving the previous one down.
    fn push_base(&mut self, base: BaseFrame<F>)
        ensures
            final(self).bases() == old(self).bases().push(base),
            final(self).extended == old(self).extended,
            final(self).current_base is Some,
            final(self).base@.len() == old(self).bases().len(),
    {
        let current = self.current_base.take();
        match current {
            Some(c) => {
                self.base.push(c);
            },
            None => {},
        }
        self.current_base = Some(base);
    }

    /// The number of frames.
    pub fn len(&self) -> (r: u32)
        requires
            self.wf(),
        ensures
            r == self.depth(),
    {
        self.extended.len() as u32
    }

    /// Pushes a frame, given as its two parts, unless the stack is full; then it is left as it
    /// was and `Err` comes back.
    pub fn push(&mut self, base: BaseFrame<F>, extended: X) -> (r: Result<(), ()>)
        requires
            old(self).wf(),
        ensures
            final(self).wf(),
            r is Ok <==> old(self).depth() < MAX_FRAME_COUNT,
            r is Ok ==> final(self).bases() == old(self).bases().push(base)
                && final(self).extensions() == old(self).extensions().push(extended),
            r is Err ==> final(self).bases() == old(self).bases()
                && final(self).extensions() == old(self).extensions(),
    {
        if self.len() < MAX_FRAME_COUNT {
            self.push_base(base);
            self.extended.push(extended);
            Ok(())
        } else {
            Err(())
        }
    }

    /// Pops the active frame and gives back its two parts.
    pub fn pop(&mut self) -> (r: (BaseFrame<F>, X))
        requires
            old(self).wf(),
            old(self).depth() > 0,
        ensures
            final(self).wf(),
            r.0 == old(self).bases().last(),
            r.1 == old(self).extensions().last(),
            final(self).bases() == old(self).bases().drop_last(),
            final(self).extensions() == old(self).extensions().drop_last(),
    {
        let extended = match self.extended.pop() {
            Some(e) => e,
            None => {
                proof {
                    assert(false);
                }
                vstd::pervasive::unreached()
            },
        };
        let base = self.pop_base();
        (base, extended)
    }

    /// Pops the active frame.
    pub fn pop_discard(&mut self)
        requires
            old(self).wf(),
            old(self).depth() > 0,
        ensures
            final(self).wf(),
            final(self).bases() == old(self).bases().drop_last(),
            final(self).extensions() == old(self).extensions().drop_last(),
    {
        self.extended.pop();
        self.pop_base();
    }

    /// The position of the active frame.
    pub fn current_id(&self) -> (r: FrameId)
        requires
            self.wf(),
            self.depth() > 0,
        ensures
            r.0 == self.depth() - 1,
    {
        FrameId(self.extended.len() as u32 - 1)
    }

    /// "Unwinds" to a frame: removes all frames above `frame_id`, which becomes the active frame.
    /// Where no frame stands above it, the stack is left as it was.
    pub fn unwind_to(&mut self, frame_id: FrameId)
        requires
            old(self).wf(),
            frame_id.0 < u32::MAX,
        ensures
            final(self).wf(),
            frame_id.0 + 1 < old(self).depth() ==> final(self).bases() == old(self).bases().take(frame_id.0 + 1)
                && final(self).extensions() == old(self).extensions().take(frame_id.0 + 1),
            frame_id.0 + 1 >= old(self).depth() ==> final(self).bases() == old(self).bases()
                && final(self).extensions() == old(self).extensions(),
    {
        if frame_id.0 + 1 < self.len() {
            // At least one frame goes: the frame at `frame_id` moves out of the vector of the
            // frames below the active one and becomes the active one.
            let keep = frame_id.0 as usize + 1;
            self.base.truncate(keep);
            let target = self.base.pop();
            self.current_base = target;
            proof {
                assert(self.bases() =~= old(self).bases().take(keep as int));
            }
        }
        self.extended.truncate(frame_id.0 as usize + 1);
        proof {
            assert(frame_id.0 + 1 < old(self).depth() ==> self.extensions() =~= old(self).extensions().take(frame_id.0 + 1));
            assert(frame_id.0 + 1 >= old(self).depth() ==> self.extensions() =~= old(self).extensions());
        }
    }

    /// The instruction pointer of the active frame.
    pub fn current_ip(&self) -> (r: usize)
        requires
            self.wf(),
            self.depth() > 0,
        ensures
            r == self.bases().last().ip,
    {
        match &self.current_base {
            Some(b) => b.ip,
            None => {
                proof {
                    assert(false);
                }
                0
            },
        }
    }

    /// Moves the instruction pointer of the active frame.
    pub fn set_ip(&mut self, ip: usize)
        requires
            old(self).wf(),
            old(self).depth() > 0,
        ensures
            final(self).wf(),
            final(self).extensions() == old(self).extensions(),
            final(self).bases().len() == old(self).bases().len(),
            final(self).bases().last().ip == ip,
            final(self).bases().last().function == old(self).bases().last().function,
            forall|i: int| 0 <= i < old(self).bases().len() - 1 ==> final(self).bases()[i] == old(self).bases()[i],
    {
        let current = self.current_base.take();
        match current {
            Some(b) => {
                self.current_base = Some(BaseFrame { ip, function: b.function });
            },
            None => {
                proof {
                    assert(false);
                }
            },
        }
    }

    /// The rest of the active frame.
    pub fn current_extended(&self) -> (r: &X)
        requires
            self.wf(),
            self.depth() > 0,
        ensures
            *r == self.extensions().last(),
    {
        self.extended.last().unwrap()
    }
}

/// Pushing a frame and popping it gives the frame back and leaves the stack as it was.
pub proof fn lemma_push_then_pop<F, X>(bases: Seq<BaseFrame<F>>, extensions: Seq<X>, base: BaseFrame<F>, extended: X)
    ensures
        bases.push(base).last() == base,
        extensions.push(extended).last() == extended,
        bases.push(base).drop_last() == bases,
        extensions.push(extended).drop_last() == extensions,
{
    assert(bases.push(base).drop_last() =~= bases);
    assert(extensions.push(extended).drop_last() =~= extensions);
}

} // verus!
