//! Size transitions: an element whose size changes is animated from its old
//! size to its new one through its right and bottom margins, which do not feed
//! back into the observation of its size.
use vstd::prelude::*;
use vstd::string::StringExecFns;
use crate::animation_defs::{frame_view, frames_view, Keyframe};
use crate::css::{px, px_text};
use crate::position::Extent;

verus! {

/// Remembers the last observed size of one element.
pub struct SizeTracker {
    last: Option<Extent>,
}

impl SizeTracker {
    /// The size observed last, if any.
    pub closed spec fn last(&self) -> Option<Extent> {
        self.last
    }

    /// A tracker that has observed nothing yet.
    pub fn new() -> (r: SizeTracker)
        ensures
            r.last() == None::<Extent>,
    {
        SizeTracker { last: None }
    }

    /// Records an observed size. The first observation only sets the baseline
    /// and returns `None`; each later one returns the previous and the new
    /// size, between which to animate.
    pub fn observe(&mut self, size: Extent) -> (r: Option<(Extent, Extent)>)
        ensures
            final(self).last() == Some(size),
            r == (match old(self).last() {
                None => None,
                Some(p) => Some((p, size)),
            }),
    {
        let r = match self.last {
            None => None,
            Some(p) => Some((p, size)),
        };
        self.last = Some(size);
        r
    }
}

/// The two keyframes of a size transition from `from` to `to`: the element,
/// already at its new size, starts with margins that make it take the room of
/// its old size, and ends with no extra margin.
pub open spec fn resize_frames(from: Extent, to: Extent) -> Seq<Seq<(Seq<char>, Seq<char>)>> {
    seq![
        seq![
            ("marginRight"@, px_text(from.width - to.width)),
            ("marginBottom"@, px_text(from.height - to.height)),
        ],
        seq![("marginRight"@, px_text(0)), ("marginBottom"@, px_text(0))],
    ]
}

fn margin_frame(dw: i128, dh: i128) -> (r: Keyframe)
    requires
        -0x7fff_ffff_ffff_ffff_ffff_ffff_ffff_ffff <= dw,
        -0x7fff_ffff_ffff_ffff_ffff_ffff_ffff_ffff <= dh,
    ensures
        frame_view(r) == seq![("marginRight"@, px_text(dw as int)), ("marginBottom"@, px_text(dh as int))],
{
    let mut props: Vec<(String, String)> = Vec::new();
    props.push((String::from_str("marginRight"), px(dw)));
    props.push((String::from_str("marginBottom"), px(dh)));
    let r = Keyframe { props };
    assert(frame_view(r) =~= seq![("marginRight"@, px_text(dw as int)), ("marginBottom"@, px_text(dh as int))]);
    r
}

/// The keyframes of the size transition from `from` to `to`.
pub fn resize_keyframes(from: Extent, to: Extent) -> (r: Vec<Keyframe>)
    ensures
        frames_view(r@) == resize_frames(from, to),
{
    let mut r: Vec<Keyframe> = Vec::new();
    r.push(margin_frame(from.width as i128 - to.width as i128, from.height as i128 - to.height as i128));
    r.push(margin_frame(0, 0));
    assert(frames_view(r@) =~= resize_frames(from, to));
    r
}

} // verus!
