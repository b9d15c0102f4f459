use vstd::prelude::*;

verus! {

/// One entry of the medium stack: the region a path is inside.
///
/// `refractive` marks a region whose index of refraction differs from that of
/// vacuum; `scattering` marks a participating medium in which free paths are
/// sampled. `data` carries the region's optical constants.
pub struct Frame<T> {
    pub trans_id: i32,
    pub refractive: bool,
    pub scattering: bool,
    pub data: T,
}

/// The transmission identifier of the vacuum frame at the bottom of every stack.
pub const VACUUM_ID: i32 = -1;

/// Some frame of `s` carries `id`.
pub open spec fn holds_id<T>(s: Seq<Frame<T>>, id: i32) -> bool {
    exists|i: int| 0 <= i < s.len() && s[i].trans_id == id
}

/// Some frame above the vacuum frame carries `id`.
pub open spec fn inside<T>(s: Seq<Frame<T>>, id: i32) -> bool {
    exists|i: int| 1 <= i < s.len() && s[i].trans_id == id
}

/// A well-formed stack: the vacuum frame at the bottom, no identifier twice.
pub open spec fn stack_wf<T>(s: Seq<Frame<T>>) -> bool {
    &&& s.len() >= 1
    &&& s[0].trans_id == VACUUM_ID
    &&& !s[0].refractive
    &&& !s[0].scattering
    &&& forall|i: int, j: int| 0 <= i < j < s.len() ==> s[i].trans_id != s[j].trans_id
}

/// The stack after crossing into the region of `f`: pushed unless already inside.
pub open spec fn entered<T>(s: Seq<Frame<T>>, f: Frame<T>) -> Seq<Frame<T>> {
    if holds_id(s, f.trans_id) {
        s
    } else {
        s.push(f)
    }
}

/// The stack after leaving the region `id`: its frame is removed wherever it
/// stands; the vacuum frame is never removed.
pub open spec fn left<T>(s: Seq<Frame<T>>, id: i32) -> Seq<Frame<T>> {
    if inside(s, id) {
        s.remove(choose|i: int| 1 <= i < s.len() && s[i].trans_id == id)
    } else {
        s
    }
}

/// Some frame of `s` is refractive.
pub open spec fn any_refractive<T>(s: Seq<Frame<T>>) -> bool {
    exists|i: int| 0 <= i < s.len() && s[i].refractive
}

/// `k` is the position of the innermost refractive frame of `s` other than
/// `id`'s, or 0, the vacuum frame, when there is none.
pub open spec fn outer_refractive<T>(s: Seq<Frame<T>>, id: i32, k: int) -> bool {
    &&& 0 <= k < s.len()
    &&& (k == 0 || (s[k].refractive && s[k].trans_id != id))
    &&& forall|j: int| k < j < s.len() ==> !(#[trigger] s[j].refractive && s[j].trans_id != id)
}

/// The ordered sequence of regions that a path is inside, innermost on top.
pub struct MediumStack<T> {
    frames: Vec<Frame<T>>,
}

impl<T> View for MediumStack<T> {
    type V = Seq<Frame<T>>;

    closed spec fn view(&self) -> Seq<Frame<T>> {
        self.frames@
    }
}

impl<T> MediumStack<T> {
    /// The stack is well formed; every constructor and method keeps it so.
    pub open spec fn wf(&self) -> bool {
        stack_wf(self@)
    }

    /// A stack that holds only the vacuum frame, with `vacuum` as its data.
    pub fn new(vacuum: T) -> (r: MediumStack<T>)
        ensures
            r@ == seq![Frame { trans_id: VACUUM_ID, refractive: false, scattering: false, data: vacuum }],
            r.wf(),
    {
        let mut frames: Vec<Frame<T>> = Vec::new();
        frames.push(Frame { trans_id: VACUUM_ID, refractive: false, scattering: false, data: vacuum });
        MediumStack { frames }
    }

    /// Number of frames, the vacuum frame included.
    pub fn depth(&self) -> (r: usize)
        requires
            self.wf(),
        ensures
            r == self@.len(),
            r >= 1,
    {
        self.frames.len()
    }

    /// The innermost region.
    pub fn current(&self) -> (r: &Frame<T>)
        requires
            self.wf(),
        ensures
            *r == self@.last(),
    {
        let n = self.frames.len();
        &self.frames[n - 1]
    }

    /// The frame at position `i`, counted from the vacuum frame.
    pub fn frame(&self, i: usize) -> (r: &Frame<T>)
        requires
            i < self@.len(),
        ensures
            *r == self@[i as int],
    {
        &self.frames[i]
    }

    /// The region whose index of refraction surrounds the boundary
    /// `trans_id`: the position of the innermost refractive frame that is not
    /// `trans_id`'s own, or 0 for the vacuum frame.
    pub fn outer_refractive(&self, trans_id: i32) -> (r: usize)
        requires
            self.wf(),
        ensures
            outer_refractive(self@, trans_id, r as int),
    {
        let mut k: usize = self.frames.len() - 1;
        while k > 0
            invariant
                k < self@.len(),
                forall|j: int| k < j < self@.len() ==> !(#[trigger] self@[j].refractive && self@[j].trans_id != trans_id),
            decreases k,
        {
            if self.frames[k].refractive && self.frames[k].trans_id != trans_id {
                return k;
            }
            k = k - 1;
        }
        k
    }

    /// Crossing the boundary `trans_id` enters its region: no frame carries it.
    pub fn is_into(&self, trans_id: i32) -> (r: bool)
        ensures
            r == !holds_id(self@, trans_id),
    {
        let mut i: usize = 0;
        while i < self.frames.len()
            invariant
                0 <= i <= self.frames@.len(),
                forall|k: int| 0 <= k < i ==> self.frames@[k].trans_id != trans_id,
            decreases self.frames@.len() - i,
        {
            if self.frames[i].trans_id == trans_id {
                return false;
            }
            i = i + 1;
        }
        true
    }

    /// Some region on the stack is refractive.
    pub fn has_ior(&self) -> (r: bool)
        ensures
            r == any_refractive(self@),
    {
        let mut i: usize = 0;
        while i < self.frames.len()
            invariant
                0 <= i <= self.frames@.len(),
                forall|k: int| 0 <= k < i ==> !self.frames@[k].refractive,
            decreases self.frames@.len() - i,
        {
            if self.frames[i].refractive {
                return true;
            }
            i = i + 1;
        }
        false
    }

    /// The innermost region scatters.
    pub fn has_medium(&self) -> (r: bool)
        requires
            self.wf(),
        ensures
            r == self@.last().scattering,
    {
        self.current().scattering
    }

    /// Free paths are sampled: the innermost region scatters and no region on
    /// the stack is refractive.
    pub fn samples_free_path(&self) -> (r: bool)
        requires
            self.wf(),
        ensures
            r == (self@.last().scattering && !any_refractive(self@)),
    {
        self.has_medium() && !self.has_ior()
    }

    /// Enters the region of `frame` unless the path is already inside it;
    /// returns whether it was entered.
    pub fn enter_medium(&mut self, frame: Frame<T>) -> (r: bool)
        requires
            old(self).wf(),
        ensures
            r == !holds_id(old(self)@, frame.trans_id),
            final(self)@ == entered(old(self)@, frame),
            final(self).wf(),
    {
        if self.is_into(frame.trans_id) {
            self.frames.push(frame);
            true
        } else {
            false
        }
    }

    /// Leaves the region `trans_id`, removing its frame wherever it stands;
    /// returns whether a frame was removed.
    pub fn remove_medium(&mut self, trans_id: i32) -> (r: bool)
        requires
            old(self).wf(),
        ensures
            r == inside(old(self)@, trans_id),
            final(self)@ == left(old(self)@, trans_id),
            final(self).wf(),
    {
        let mut i: usize = 1;
        while i < self.frames.len()
            invariant
                1 <= i <= self.frames@.len(),
                self@ == old(self)@,
                stack_wf(self.frames@),
                forall|k: int| 1 <= k < i ==> self.frames@[k].trans_id != trans_id,
            decreases self.frames@.len() - i,
        {
            if self.frames[i].trans_id == trans_id {
                proof {
                    let s = self.frames@;
                    let c = choose|j: int| 1 <= j < s.len() && s[j].trans_id == trans_id;
                    assert(inside(s, trans_id));
                    assert(c == i as int);
                    assert(stack_wf(s.remove(i as int)));
                }
                self.frames.remove(i);
                return true;
            }
            i = i + 1;
        }
        false
    }

    /// Crosses the boundary `frame.trans_id`: enters the region when outside
    /// it, leaves it when inside. Returns whether it was entered.
    pub fn cross(&mut self, frame: Frame<T>) -> (r: bool)
        requires
            old(self).wf(),
        ensures
            r == !holds_id(old(self)@, frame.trans_id),
            final(self)@ == (if r { old(self)@.push(frame) } else { left(old(self)@, frame.trans_id) }),
            final(self).wf(),
    {
        let id = frame.trans_id;
        if self.is_into(id) {
            self.enter_medium(frame)
        } else {
            self.remove_medium(id);
            false
        }
    }
}

/// Entering a region and then leaving it restores the stack.
pub proof fn lemma_enter_then_leave<T>(s: Seq<Frame<T>>, f: Frame<T>)
    requires
        stack_wf(s),
        !holds_id(s, f.trans_id),
    ensures
        left(entered(s, f), f.trans_id) == s,
{
    let t = s.push(f);
    assert(t[s.len() as int].trans_id == f.trans_id);
    assert(inside(t, f.trans_id)) by {
        assert(1 <= s.len() && t[s.len() as int].trans_id == f.trans_id);
    }
    let c = choose|i: int| 1 <= i < t.len() && t[i].trans_id == f.trans_id;
    assert(c == s.len()) by {
        if c < s.len() {
            assert(s[c].trans_id == f.trans_id);
        }
    }
    assert(t.remove(c) =~= s);
}

/// Leaving a region that the path is not inside changes nothing.
pub proof fn lemma_leave_outside<T>(s: Seq<Frame<T>>, id: i32)
    requires
        !inside(s, id),
    ensures
        left(s, id) == s,
{
}

} // verus!
