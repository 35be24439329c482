//! What the held movement keys ask of the camera.
//!
//! The keys give a direction in the camera's own frame, one step or none
//! along each of its three axes. Turning that direction into the world and
//! scaling it by speed and time is arithmetic on angles, and not done here.

use vstd::prelude::*;

verus! {

/// The six movement keys. Which keys of the keyboard they are bound to is
/// the caller's choice.
#[derive(Clone, Copy, Debug, PartialEq, Eq, Structural)]
pub enum MoveKey {
    Forward,
    Backward,
    Left,
    Right,
    Up,
    Down,
}

/// A direction in the camera's own frame. Each part is -1, 0 or 1.
#[derive(Clone, Copy, Debug, PartialEq, Eq, Structural)]
pub struct Heading {
    pub forward: i32,
    pub right: i32,
    pub up: i32,
}

/// The pull along one axis: one step `toward` if that key is held, one step
/// back if the `away` key is held, nothing if both or neither are.
pub open spec fn pull(held: Seq<MoveKey>, toward: MoveKey, away: MoveKey) -> int {
    (if held.contains(toward) {
        1int
    } else {
        0int
    }) - (if held.contains(away) {
        1int
    } else {
        0int
    })
}

/// The direction that a set of held keys asks for.
pub open spec fn heading_of(held: Seq<MoveKey>) -> Heading {
    Heading {
        forward: pull(held, MoveKey::Forward, MoveKey::Backward) as i32,
        right: pull(held, MoveKey::Right, MoveKey::Left) as i32,
        up: pull(held, MoveKey::Up, MoveKey::Down) as i32,
    }
}

impl Heading {
    /// Whether the heading asks for no movement at all.
    pub open spec fn is_still(self) -> bool {
        self.forward == 0 && self.right == 0 && self.up == 0
    }

    /// Whether the heading asks for no movement at all.
    pub fn is_at_rest(&self) -> (still: bool)
        ensures
            still == self.is_still(),
    {
        self.forward == 0 && self.right == 0 && self.up == 0
    }
}

/// Works out the direction that the held keys ask for. The order of the
/// keys and how often each is named do not matter.
pub fn heading(held: &[MoveKey]) -> (h: Heading)
    ensures
        h == heading_of(held@),
        -1 <= h.forward <= 1,
        -1 <= h.right <= 1,
        -1 <= h.up <= 1,
{
    let mut forward = false;
    let mut backward = false;
    let mut left = false;
    let mut right = false;
    let mut up = false;
    let mut down = false;
    let mut i: usize = 0;
    while i < held.len()
        invariant
            i <= held@.len(),
            forward == held@.take(i as int).contains(MoveKey::Forward),
            backward == held@.take(i as int).contains(MoveKey::Backward),
            left == held@.take(i as int).contains(MoveKey::Left),
            right == held@.take(i as int).contains(MoveKey::Right),
            up == held@.take(i as int).contains(MoveKey::Up),
            down == held@.take(i as int).contains(MoveKey::Down),
        decreases held@.len() - i,
    {
        proof {
            let shorter = held@.take(i as int);
            let longer = held@.take(i + 1);
            assert(longer =~= shorter.push(held@[i as int]));
            assert forall|key: MoveKey|
                longer.contains(key) == (shorter.contains(key) || key == held@[i as int]) by {
                if shorter.contains(key) {
                    let at = choose|at: int| 0 <= at < shorter.len() && shorter[at] == key;
                    assert(longer[at] == key);
                }
                if key == held@[i as int] {
                    assert(longer[i as int] == key);
                }
            }
        }
        match held[i] {
            MoveKey::Forward => {
                forward = true;
            },
            MoveKey::Backward => {
                backward = true;
            },
            MoveKey::Left => {
                left = true;
            },
            MoveKey::Right => {
                right = true;
            },
            MoveKey::Up => {
                up = true;
            },
            MoveKey::Down => {
                down = true;
            },
        }
        i += 1;
    }
    assert(held@.take(i as int) =~= held@);
    Heading {
        forward: axis(forward, backward),
        right: axis(right, left),
        up: axis(up, down),
    }
}

/// One step toward, one step away, or none.
fn axis(toward: bool, away: bool) -> (step: i32)
    ensures
        step == (if toward {
            1int
        } else {
            0int
        }) - (if away {
            1int
        } else {
            0int
        }),
{
    if toward == away {
        0
    } else if toward {
        1
    } else {
        -1
    }
}

/// With no key held the camera is asked to stay where it is.
pub proof fn lemma_no_keys_no_movement()
    ensures
        heading_of(Seq::<MoveKey>::empty()).is_still(),
{
}

/// Keys that pull against each other cancel.
pub proof fn lemma_opposite_keys_cancel(held: Seq<MoveKey>, toward: MoveKey, away: MoveKey)
    requires
        held.contains(toward) == held.contains(away),
    ensures
        pull(held, toward, away) == 0,
{
}

} // verus!
