//! Which nodes a token's mass passed through, and whether that depends on the
//! token.

use crate::sorted::{common, ordered, shared};
use crate::window::{latest, Window};
use vstd::prelude::*;

verus! {

/// How many trails are remembered.
pub const TRAILS: usize = 512;

/// The nodes one token passed through.
pub struct Trail {
    /// Where in the stream the token stood.
    pub position: u32,
    /// The token.
    pub token: u32,
    /// The nodes, in order.
    pub nodes: Vec<u32>,
}

/// What two sets of nodes share, and how many nodes there are in either.
#[derive(Clone, Copy, Debug, PartialEq, Eq, Structural)]
pub struct Overlap {
    pub hit: usize,
    pub union: usize,
}

/// The overlap of two lists of nodes.
pub open spec fn overlap_of(a: Seq<u32>, b: Seq<u32>) -> (int, int) {
    let hit = common(a, b, a.len() as int);
    (hit, a.len() + b.len() - hit)
}

/// How much two ordered lists of nodes overlap.
pub fn jaccard(a: &[u32], b: &[u32]) -> (r: Overlap)
    requires
        ordered(a@),
        ordered(b@),
        a@.len() + b@.len() <= usize::MAX,
    ensures
        (r.hit as int, r.union as int) == overlap_of(a@, b@),
        r.hit <= r.union,
{
    let hit: usize = shared(a, b);
    Overlap { hit, union: a.len() + b.len() - hit }
}

/// The distance between two numbers.
pub open spec fn apart(a: int, b: int) -> int {
    if a >= b {
        a - b
    } else {
        b - a
    }
}

fn distance(a: u32, b: u32) -> (d: u32)
    ensures
        d == apart(a as int, b as int),
{
    if a >= b {
        a - b
    } else {
        b - a
    }
}

/// Whether `i` is the last trail of a token.
pub open spec fn is_latest(t: Seq<Trail>, token: u32, i: int) -> bool {
    &&& 0 <= i < t.len()
    &&& t[i].token == token
    &&& forall|k: int| i < k < t.len() ==> (#[trigger] t[k]).token != token
}

/// How far the time since trail `i` is from `gap`.
pub open spec fn mismatch(t: Seq<Trail>, position: u32, gap: u32, i: int) -> int {
    apart(apart(position as int, t[i].position as int), gap as int)
}

/// Whether `i` is the trail of another token that is closest to `gap` ago, the
/// oldest among equals.
pub open spec fn is_control(t: Seq<Trail>, token: u32, position: u32, gap: u32, i: int) -> bool {
    &&& 0 <= i < t.len()
    &&& t[i].token != token
    &&& forall|k: int|
        0 <= k < t.len() && (#[trigger] t[k]).token != token ==> mismatch(t, position, gap, i)
            < mismatch(t, position, gap, k) || (mismatch(t, position, gap, i) == mismatch(
            t,
            position,
            gap,
            k,
        ) && i <= k)
}

/// How the nodes of a token compare with those of its last occurrence, and with
/// those of a different token as long ago.
pub struct Comparison {
    pub same: Option<Overlap>,
    pub other: Option<Overlap>,
}

/// The trails of the last tokens.
pub struct Trails {
    held: Window<Trail>,
}

impl View for Trails {
    type V = Seq<Trail>;

    closed spec fn view(&self) -> Seq<Trail> {
        self.held@
    }
}

impl Trails {
    /// The trails are remembered in the order of the stream, and their nodes in
    /// order.
    pub closed spec fn wf(&self) -> bool {
        &&& self.held.wf()
        &&& self.held.limit() == TRAILS
        &&& forall|i: int| 0 <= i < self.held@.len() ==> ordered((#[trigger] self.held@[i]).nodes@)
    }

    /// Nothing remembered.
    pub fn new() -> (t: Self)
        ensures
            t.wf(),
            t@ == Seq::<Trail>::empty(),
    {
        Trails { held: Window::new(TRAILS) }
    }

    /// The last trail of a token.
    fn find_latest(&self, token: u32) -> (r: Option<usize>)
        requires
            self.wf(),
        ensures
            match r {
                Some(i) => is_latest(self@, token, i as int),
                None => forall|k: int| 0 <= k < self@.len() ==> (#[trigger] self@[k]).token
                    != token,
            },
    {
        let mut i: usize = self.held.len();
        while i > 0
            invariant
                i <= self@.len(),
                self.wf(),
                forall|k: int| i <= k < self@.len() ==> (#[trigger] self@[k]).token != token,
            decreases i,
        {
            i = i - 1;
            if self.held.get(i).token == token {
                return Some(i);
            }
        }
        None
    }

    /// The trail of another token that is closest to `gap` ago.
    fn find_control(&self, token: u32, position: u32, gap: u32) -> (r: Option<usize>)
        requires
            self.wf(),
        ensures
            match r {
                Some(i) => is_control(self@, token, position, gap, i as int),
                None => forall|k: int| 0 <= k < self@.len() ==> (#[trigger] self@[k]).token
                    == token,
            },
    {
        let n: usize = self.held.len();
        let mut best: Option<usize> = None;
        let mut least: u32 = 0;
        let mut i: usize = 0;
        while i < n
            invariant
                i <= n,
                n == self@.len(),
                self.wf(),
                match best {
                    Some(b) => {
                        &&& b < i
                        &&& self@[b as int].token != token
                        &&& least == mismatch(self@, position, gap, b as int)
                        &&& forall|k: int|
                            0 <= k < i && (#[trigger] self@[k]).token != token ==> least < mismatch(
                                self@,
                                position,
                                gap,
                                k,
                            ) || (least == mismatch(self@, position, gap, k) && b <= k)
                    },
                    None => forall|k: int| 0 <= k < i ==> (#[trigger] self@[k]).token == token,
                },
            decreases n - i,
        {
            let t = self.held.get(i);
            if t.token != token {
                let m: u32 = distance(distance(position, t.position), gap);
                match best {
                    Some(_) => {
                        if m < least {
                            best = Some(i);
                            least = m;
                        }
                    },
                    None => {
                        best = Some(i);
                        least = m;
                    },
                }
            }
            i = i + 1;
        }
        best
    }

    /// Compares the nodes of a token with those of its last occurrence and with
    /// those of the control: a different token as close as can be to the same
    /// time ago. Matching the time matters because trails drift.
    pub fn compare(&self, position: u32, token: u32, nodes: &[u32]) -> (r: Comparison)
        requires
            self.wf(),
            forall|i: int| #[trigger]
                is_latest(self@, token, i) ==> self@[i].position <= position,
            ordered(nodes@),
            forall|i: int|
                0 <= i < self@.len() ==> nodes@.len() + (#[trigger] self@[i]).nodes@.len()
                    <= usize::MAX,
        ensures
            r.same is None <==> forall|k: int|
                0 <= k < self@.len() ==> (#[trigger] self@[k]).token != token,
            r.same is None ==> r.other is None,
            forall|i: int| #[trigger]
                is_latest(self@, token, i) ==> {
                    let gap = (position - self@[i].position) as u32;
                    &&& r.same is Some
                    &&& (r.same->0.hit as int, r.same->0.union as int) == overlap_of(
                        nodes@,
                        self@[i].nodes@,
                    )
                    &&& r.other is None <==> forall|k: int|
                        0 <= k < self@.len() ==> (#[trigger] self@[k]).token == token
                    &&& forall|c: int| #[trigger]
                        is_control(self@, token, position, gap, c) ==> r.other is Some && (
                            r.other->0.hit as int,
                            r.other->0.union as int,
                        ) == overlap_of(nodes@, self@[c].nodes@)
                },
    {
        match self.find_latest(token) {
            None => Comparison { same: None, other: None },
            Some(i) => {
                let prev = self.held.get(i);
                let gap: u32 = position - prev.position;
                let same = jaccard(nodes, prev.nodes.as_slice());
                let other: Option<Overlap> = match self.find_control(token, position, gap) {
                    Some(c) => {
                        let t = self.held.get(c);
                        Some(jaccard(nodes, t.nodes.as_slice()))
                    },
                    None => None,
                };
                Comparison { same: Some(same), other }
            },
        }
    }

    /// Remembers one more trail.
    pub fn push(&mut self, t: Trail)
        requires
            old(self).wf(),
            ordered(t.nodes@),
        ensures
            final(self).wf(),
            final(self)@ == latest(old(self)@.push(t), TRAILS as int),
    {
        self.held.push(t);
    }
}

/// How far apart two numbers are: as far as one is from the other, nothing where
/// they are the same, and what has to be added to the smaller to give the larger.
pub proof fn law_apart_is_a_distance(a: int, b: int)
    ensures
        apart(a, b) == apart(b, a),
        a <= b ==> a + apart(a, b) == b,
        apart(a, b) >= 0,
{
}

/// The overlap of two ordered lists of nodes is the nodes they share out of the
/// nodes in either.
pub proof fn law_overlaps_are_shared_nodes(a: Seq<u32>, b: Seq<u32>)
    requires
        ordered(a),
        ordered(b),
    ensures
        overlap_of(a, b).0 == a.to_set().intersect(b.to_set()).len(),
        overlap_of(a, b).1 == a.to_set().union(b.to_set()).len(),
        overlap_of(a, b) == overlap_of(b, a),
        overlap_of(a, a) == (a.len() as int, a.len() as int),
{
    crate::sorted::law_overlap_is_what_is_common(a, b);
    crate::sorted::law_overlap_is_what_is_common(b, a);
    crate::sorted::law_overlap_extremes(a, a.len() as int);
    assert(a.to_set().intersect(b.to_set()) =~= b.to_set().intersect(a.to_set()));
}

/// A control is of another token, and no other token's trail is nearer to being
/// as long ago as the token's own.
pub proof fn law_controls_are_as_long_ago(
    t: Seq<Trail>,
    token: u32,
    position: u32,
    own: int,
    control: int,
    k: int,
)
    requires
        is_latest(t, token, own),
        t[own].position <= position,
        is_control(t, token, position, (position - t[own].position) as u32, control),
        0 <= k < t.len(),
        t[k].token != token,
        t[k].position <= position,
        t[control].position <= position,
    ensures
        t[control].token != token,
        t[own].token == token,
        own < k < t.len() ==> t[k].token != token,
        ({
            let nearest = t[control].position - t[own].position;
            let other = t[k].position - t[own].position;
            (if nearest < 0 {
                -nearest
            } else {
                nearest
            }) <= (if other < 0 {
                -other
            } else {
                other
            })
        }),
        t[k].position == t[control].position ==> control <= k,
{
}

/// The last trail of a token is the last one.
pub proof fn law_latest_is_the_last(t: Seq<Trail>, token: u32, i: int, k: int)
    requires
        is_latest(t, token, i),
        0 <= k < t.len(),
        t[k].token == token,
    ensures
        k <= i,
        t[i].token == token,
{
}

/// As long as fewer than 512 trails are held none is forgotten, and from then on
/// each one that comes takes the place of the oldest.
pub proof fn law_the_oldest_trail_is_forgotten(t: Seq<Trail>, x: Trail)
    ensures
        t.len() < 512 ==> latest(t.push(x), TRAILS as int) == t.push(x),
        t.len() == 512 ==> latest(t.push(x), TRAILS as int) == t.drop_first().push(x),
{
    if t.len() == 512 {
        assert(latest(t.push(x), TRAILS as int) =~= t.drop_first().push(x));
    }
}

} // verus!
