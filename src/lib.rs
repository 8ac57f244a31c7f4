//! Animation toolkit for keyed list rendering: the reconciliation engine that
//! tracks alive and leaving items, the geometry snapshots it compares, and the
//! animation strategies it schedules.

pub mod animated_for;
pub mod animation_defs;
pub mod css;
pub mod dynamics;
pub mod keyed_map;
pub mod measure;
pub mod position;
pub mod size_transition;

pub use animated_for::{move_keyframes, pin_styles, CyclePlan, DeferredStep, LeaveStep, Reconciler};
pub use animation_defs::{
    AnimationConfig, AnimationConfigMove, AnimationConfigResize, DynamicsAnimation, EnterAnimation,
    FadeAnimation, Keyframe, LeaveAnimation, MoveAnimation, ResizeAnimation, SlidingAnimation,
};
pub use keyed_map::KeyedMap;
pub use position::{ElementSnapshot, Extent, Position};
pub use size_transition::{resize_keyframes, SizeTracker};
