//! The last few things of a stream.

use std::collections::VecDeque;
use vstd::prelude::*;

verus! {

/// The last `cap` things of a sequence.
pub open spec fn latest<T>(s: Seq<T>, cap: int) -> Seq<T> {
    if s.len() <= cap {
        s
    } else {
        s.skip(s.len() - cap)
    }
}

/// A queue that forgets all but the last few things put into it.
pub struct Window<T> {
    items: VecDeque<T>,
    cap: usize,
}

impl<T> View for Window<T> {
    type V = Seq<T>;

    /// What is held, oldest first.
    closed spec fn view(&self) -> Seq<T> {
        self.items@
    }
}

impl<T> Window<T> {
    /// How much is held at most.
    pub closed spec fn limit(&self) -> int {
        self.cap as int
    }

    /// No more is held than that.
    pub closed spec fn wf(&self) -> bool {
        self.cap >= 1 && self.items@.len() <= self.cap
    }

    /// An empty window.
    pub fn new(cap: usize) -> (w: Self)
        requires
            cap >= 1,
        ensures
            w.wf(),
            w.limit() == cap,
            w@ == Seq::<T>::empty(),
    {
        Window { items: VecDeque::new(), cap }
    }

    /// Puts one more in, and forgets the oldest if there is no room.
    pub fn push(&mut self, x: T)
        requires
            old(self).wf(),
        ensures
            final(self).wf(),
            final(self).limit() == old(self).limit(),
            final(self)@ == latest(old(self)@.push(x), old(self).limit()),
    {
        if self.items.len() >= self.cap {
            let _ = self.items.pop_front();
        }
        self.items.push_back(x);
        assert(self@ =~= latest(old(self)@.push(x), old(self).limit()));
    }

    /// How much is held.
    pub fn len(&self) -> (n: usize)
        requires
            self.wf(),
        ensures
            n == self@.len(),
            n <= self.limit(),
    {
        self.items.len()
    }

    /// What was put in `lag` things ago, the last being one ago.
    pub fn back(&self, lag: usize) -> (r: Option<&T>)
        requires
            self.wf(),
        ensures
            r is Some <==> 1 <= lag <= self@.len(),
            r is Some ==> *r->0 == self@[self@.len() - lag],
    {
        let n: usize = self.items.len();
        if lag >= 1 && lag <= n {
            Some(&self.items[n - lag])
        } else {
            None
        }
    }

    /// What is held in a place, counted from the oldest.
    pub fn get(&self, i: usize) -> (r: &T)
        requires
            self.wf(),
            i < self@.len(),
        ensures
            *r == self@[i as int],
    {
        &self.items[i]
    }

    /// Forgets everything.
    pub fn clear(&mut self)
        requires
            old(self).wf(),
        ensures
            final(self).wf(),
            final(self).limit() == old(self).limit(),
            final(self)@ == Seq::<T>::empty(),
    {
        self.items.clear();
    }
}

/// A window that held the end of a stream holds the end of the longer stream
/// once one more is put in.
pub proof fn law_window_holds_the_end<T>(stream: Seq<T>, cap: int, x: T)
    requires
        cap >= 1,
    ensures
        latest(latest(stream, cap).push(x), cap) == latest(stream.push(x), cap),
{
    assert(latest(latest(stream, cap).push(x), cap) =~= latest(stream.push(x), cap));
}

/// What is held is the end of the sequence: all of it where there is room, and
/// otherwise as much as there is room for, the last thing last.
pub proof fn law_latest_is_the_end<T>(s: Seq<T>, cap: int, k: int)
    requires
        cap >= 0,
        0 <= k < latest(s, cap).len(),
    ensures
        s.len() <= cap ==> latest(s, cap) == s,
        s.len() > cap ==> latest(s, cap).len() == cap,
        latest(s, cap)[latest(s, cap).len() - 1 - k] == s[s.len() - 1 - k],
{
}

} // verus!
