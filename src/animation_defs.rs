//! Animation strategies: what an enter, leave, move or resize animation looks
//! like, and the provided fade, sliding and dynamics strategies.
use vstd::prelude::*;
use vstd::string::StringExecFns;
use std::time::Duration;
use itertools::Itertools;
use crate::position::{ElementSnapshot, Extent};

verus! {

/// The duration of `millis` milliseconds.
pub uninterp spec fn duration_of_millis(millis: u64) -> Duration;

/// Relies on `Duration::from_millis`: the duration depends on the number of
/// milliseconds alone.
pub assume_specification[ core::time::Duration::from_millis ](millis: u64) -> (r: Duration)
    ensures
        r == duration_of_millis(millis),
;

/// One keyframe: CSS property names, in camelCase, with their values.
#[derive(Clone, Debug)]
pub struct Keyframe {
    pub props: Vec<(String, String)>,
}

/// The text of a keyframe's properties.
pub open spec fn frame_view(k: Keyframe) -> Seq<(Seq<char>, Seq<char>)> {
    k.props@.map_values(|p: (String, String)| (p.0@, p.1@))
}

/// The text of a list of keyframes.
pub open spec fn frames_view(ks: Seq<Keyframe>) -> Seq<Seq<(Seq<char>, Seq<char>)>> {
    ks.map_values(|k: Keyframe| frame_view(k))
}

/// A keyframe of a single property.
pub fn single_prop_frame(name: &str, value: &str) -> (r: Keyframe)
    ensures
        frame_view(r) == seq![(name@, value@)],
{
    let mut props: Vec<(String, String)> = Vec::new();
    props.push((String::from_str(name), String::from_str(value)));
    let r = Keyframe { props };
    assert(frame_view(r) =~= seq![(name@, value@)]);
    r
}

/// Return value of an enter or leave animation.
pub struct AnimationConfig {
    /// Duration of the animation.
    pub duration: Duration,
    /// Timing function of the animation, as a CSS easing.
    pub timing_fn: Option<String>,
    /// Keyframes of the animation.
    pub keyframes: Vec<Keyframe>,
}

/// Return value of a move animation.
pub struct AnimationConfigMove {
    /// Duration of the animation.
    pub duration: Duration,
    /// Timing function of the animation, as a CSS easing.
    pub timing_fn: Option<String>,
}

/// Return value of a resize animation.
pub struct AnimationConfigResize {
    /// Duration of the animation.
    pub duration: Duration,
    /// Timing function of the animation, as a CSS easing.
    pub timing_fn: Option<String>,
}

/// An enter animation.
pub trait EnterAnimation {
    /// The keyframes, timing function and duration of the animation.
    fn enter(&self) -> AnimationConfig;
}

/// A leave animation.
pub trait LeaveAnimation {
    /// The keyframes, timing function and duration of the animation.
    fn leave(&self) -> AnimationConfig;
}

/// A move animation. Its translation keyframes come from the two snapshots;
/// the strategy gives the timing.
pub trait MoveAnimation {
    /// The timing function and duration of the animation.
    fn animate(&self, from: ElementSnapshot, to: ElementSnapshot) -> AnimationConfigMove;
}

/// A resize animation of a size transition.
pub trait ResizeAnimation {
    /// The timing function and duration of the animation.
    fn resize(&self, from: Extent, to: Extent) -> AnimationConfigResize;
}

/// Whether an optional timing function holds the text `t`.
pub open spec fn timing_is(timing_fn: Option<String>, t: Seq<char>) -> bool {
    match timing_fn {
        Some(s) => s@ == t,
        None => false,
    }
}

/// Fades elements in and out through their opacity.
pub struct FadeAnimation {
    pub timing_fn: String,
    pub duration: Duration,
}

impl FadeAnimation {
    /// A fade of the given duration and easing.
    pub fn new(duration: Duration, timing_fn: &str) -> (r: FadeAnimation)
        ensures
            r.duration == duration,
            r.timing_fn@ == timing_fn@,
    {
        FadeAnimation { duration, timing_fn: String::from_str(timing_fn) }
    }
}

impl Default for FadeAnimation {
    /// A 200 ms fade with the `ease-out` easing.
    fn default() -> (r: FadeAnimation)
        ensures
            r.duration == duration_of_millis(200),
            r.timing_fn@ == "ease-out"@,
    {
        FadeAnimation { duration: Duration::from_millis(200), timing_fn: String::from_str("ease-out") }
    }
}

/// The keyframes of a fade from opacity `a` to opacity `b`.
pub open spec fn fade_frames(a: Seq<char>, b: Seq<char>) -> Seq<Seq<(Seq<char>, Seq<char>)>> {
    seq![seq![("opacity"@, a)], seq![("opacity"@, b)]]
}

fn fade_keyframes(from: &str, to: &str) -> (r: Vec<Keyframe>)
    ensures
        frames_view(r@) == fade_frames(from@, to@),
{
    let mut r: Vec<Keyframe> = Vec::new();
    r.push(single_prop_frame("opacity", from));
    r.push(single_prop_frame("opacity", to));
    assert(frames_view(r@) =~= fade_frames(from@, to@));
    r
}

impl EnterAnimation for FadeAnimation {
    /// Opacity from 0 to 1.
    fn enter(&self) -> (r: AnimationConfig)
        ensures
            r.duration == self.duration,
            timing_is(r.timing_fn, self.timing_fn@),
            frames_view(r.keyframes@) == fade_frames("0"@, "1"@),
    {
        AnimationConfig {
            duration: self.duration,
            timing_fn: Some(self.timing_fn.clone()),
            keyframes: fade_keyframes("0", "1"),
        }
    }
}

impl LeaveAnimation for FadeAnimation {
    /// Opacity from 1 to 0.
    fn leave(&self) -> (r: AnimationConfig)
        ensures
            r.duration == self.duration,
            timing_is(r.timing_fn, self.timing_fn@),
            frames_view(r.keyframes@) == fade_frames("1"@, "0"@),
    {
        AnimationConfig {
            duration: self.duration,
            timing_fn: Some(self.timing_fn.clone()),
            keyframes: fade_keyframes("1", "0"),
        }
    }
}

/// Moves and resizes elements along an easing curve.
pub struct SlidingAnimation {
    pub timing_fn: String,
    pub duration: Duration,
}

impl SlidingAnimation {
    /// A slide of the given duration and easing.
    pub fn new(duration: Duration, timing_fn: &str) -> (r: SlidingAnimation)
        ensures
            r.duration == duration,
            r.timing_fn@ == timing_fn@,
    {
        SlidingAnimation { duration, timing_fn: String::from_str(timing_fn) }
    }
}

impl Default for SlidingAnimation {
    /// A 200 ms slide with the `ease-out` easing.
    fn default() -> (r: SlidingAnimation)
        ensures
            r.duration == duration_of_millis(200),
            r.timing_fn@ == "ease-out"@,
    {
        SlidingAnimation {
            timing_fn: String::from_str("ease-out"),
            duration: Duration::from_millis(200),
        }
    }
}

impl MoveAnimation for SlidingAnimation {
    fn animate(&self, from: ElementSnapshot, to: ElementSnapshot) -> (r: AnimationConfigMove)
        ensures
            r.duration == self.duration,
            timing_is(r.timing_fn, self.timing_fn@),
    {
        AnimationConfigMove { duration: self.duration, timing_fn: Some(self.timing_fn.clone()) }
    }
}

impl ResizeAnimation for SlidingAnimation {
    fn resize(&self, from: Extent, to: Extent) -> (r: AnimationConfigResize)
        ensures
            r.duration == self.duration,
            timing_is(r.timing_fn, self.timing_fn@),
    {
        AnimationConfigResize { duration: self.duration, timing_fn: Some(self.timing_fn.clone()) }
    }
}

/// The texts of `s` separated by `sep`.
pub open spec fn joined(s: Seq<Seq<char>>, sep: Seq<char>) -> Seq<char>
    decreases s.len(),
{
    if s.len() == 0 {
        Seq::empty()
    } else if s.len() == 1 {
        s[0]
    } else {
        joined(s.drop_last(), sep) + sep + s.last()
    }
}

/// The texts of a list of strings.
pub open spec fn texts(v: Seq<String>) -> Seq<Seq<char>> {
    v.map_values(|s: String| s@)
}

/// Relies on itertools' `Itertools::join`: the items' text separated by `sep`.
#[verifier::external_body]
fn join_with(v: &Vec<String>, sep: &str) -> (r: String)
    ensures
        r@ == joined(texts(v@), sep@),
{
    v.iter().join(sep)
}

/// The CSS easing `linear(...)` through the given samples.
pub open spec fn linear_easing(samples: Seq<Seq<char>>) -> Seq<char> {
    "linear("@ + joined(samples, ", "@) + ")"@
}

/// A move or resize animation along a curve sampled from a simulation of
/// second order dynamics.
pub struct DynamicsAnimation {
    timing_fn: String,
    duration: Duration,
}

impl DynamicsAnimation {
    /// The animation through the sampled positions `samples`, given as CSS
    /// numbers, lasting `duration`.
    pub fn from_samples(samples: &Vec<String>, duration: Duration) -> (r: DynamicsAnimation)
        ensures
            r.timing_fn() == linear_easing(texts(samples@)),
            r.duration() == duration,
    {
        let mut t = String::from_str("linear(");
        let body = join_with(samples, ", ");
        t.append(body.as_str());
        t.append(")");
        DynamicsAnimation { timing_fn: t, duration }
    }

    /// The CSS easing of the animation.
    pub closed spec fn timing_fn(&self) -> Seq<char> {
        self.timing_fn@
    }

    /// The duration of the animation.
    pub closed spec fn duration(&self) -> Duration {
        self.duration
    }

    /// The CSS easing of the animation.
    pub fn easing(&self) -> (r: String)
        ensures
            r@ == self.timing_fn(),
    {
        self.timing_fn.clone()
    }
}

impl MoveAnimation for DynamicsAnimation {
    fn animate(&self, from: ElementSnapshot, to: ElementSnapshot) -> (r: AnimationConfigMove)
        ensures
            r.duration == self.duration(),
            timing_is(r.timing_fn, self.timing_fn()),
    {
        AnimationConfigMove { duration: self.duration, timing_fn: Some(self.timing_fn.clone()) }
    }
}

impl ResizeAnimation for DynamicsAnimation {
    fn resize(&self, from: Extent, to: Extent) -> (r: AnimationConfigResize)
        ensures
            r.duration == self.duration(),
            timing_is(r.timing_fn, self.timing_fn()),
    {
        AnimationConfigResize { duration: self.duration, timing_fn: Some(self.timing_fn.clone()) }
    }
}

} // verus!
