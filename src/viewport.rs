//! Zoom history: a stack of viewports whose bottom entry can never be removed.
use vstd::prelude::*;

verus! {

/// The history after a go-back on `v`: the top is dropped unless it is the
/// only entry left.
pub open spec fn popped<A>(v: Seq<A>) -> Seq<A> {
    if v.len() >= 2 {
        v.drop_last()
    } else {
        v
    }
}

/// An ordered history of viewports, the current one on top, never empty.
#[verifier::reject_recursive_types(A)]
pub struct ViewportStack<A> {
    areas: Vec<A>,
}

impl<A> View for ViewportStack<A> {
    type V = Seq<A>;

    closed spec fn view(&self) -> Seq<A> {
        self.areas@
    }
}

impl<A> ViewportStack<A> {
    /// The history is never empty: the root view stays at the bottom.
    pub open spec fn wf(&self) -> bool {
        self@.len() >= 1
    }

    /// A history that holds only `root`.
    pub fn new(root: A) -> (s: Self)
        ensures
            s.wf(),
            s@ == seq![root],
    {
        let mut areas: Vec<A> = Vec::new();
        areas.push(root);
        proof {
            assert(areas@ =~= seq![root]);
        }
        ViewportStack { areas }
    }

    /// The number of viewports in the history.
    pub fn depth(&self) -> (n: usize)
        requires
            self.wf(),
        ensures
            n == self@.len(),
            n >= 1,
    {
        self.areas.len()
    }

    /// The viewport on top of the history.
    pub fn current(&self) -> (a: &A)
        requires
            self.wf(),
        ensures
            *a == self@.last(),
    {
        let n = self.areas.len();
        &self.areas[n - 1]
    }

    /// The viewport at the bottom of the history, which is never removed.
    pub fn root(&self) -> (a: &A)
        requires
            self.wf(),
        ensures
            *a == self@[0],
    {
        &self.areas[0]
    }

    /// Makes `area` the current viewport, above the previous ones.
    pub fn push(&mut self, area: A)
        requires
            old(self).wf(),
        ensures
            final(self).wf(),
            final(self)@ == old(self)@.push(area),
    {
        self.areas.push(area);
    }

    /// Goes back to the previous viewport. Returns whether it did: with only
    /// the root left, nothing changes and the result is `false`.
    pub fn pop(&mut self) -> (went_back: bool)
        requires
            old(self).wf(),
        ensures
            final(self).wf(),
            final(self)@ == popped(old(self)@),
            went_back == (old(self)@.len() >= 2),
    {
        if self.areas.len() >= 2 {
            self.areas.pop();
            true
        } else {
            false
        }
    }
}

/// Going back from a history of depth one changes nothing.
pub proof fn lemma_pop_at_root_is_noop<A>(v: Seq<A>)
    requires
        v.len() == 1,
    ensures
        popped(v) == v,
        popped(v).len() == 1,
{
}

/// Going back right after a zoom restores exactly the history before it, the
/// current viewport included.
pub proof fn lemma_pop_undoes_push<A>(v: Seq<A>, area: A)
    requires
        v.len() >= 1,
    ensures
        v.push(area).len() == v.len() + 1,
        popped(v.push(area)) == v,
        popped(v.push(area)).last() == v.last(),
{
    assert(v.push(area).drop_last() =~= v);
}

} // verus!
