use leptos_animate::animated_for::{move_keyframes, pin_styles};
use leptos_animate::animation_defs::{
    DynamicsAnimation, EnterAnimation, FadeAnimation, Keyframe, LeaveAnimation, MoveAnimation,
    ResizeAnimation, SlidingAnimation,
};
use leptos_animate::dynamics::{sampling, Sampling, MAX_SAMPLES};
use leptos_animate::position::{ElementSnapshot, Extent, Position};
use leptos_animate::size_transition::{resize_keyframes, SizeTracker};
use std::time::Duration;

fn props(k: &Keyframe) -> Vec<(&str, &str)> {
    k.props.iter().map(|(a, b)| (a.as_str(), b.as_str())).collect()
}

#[test]
fn fade_enter_and_leave_keyframes() {
    let f = FadeAnimation::new(Duration::from_millis(500), "linear");
    let e = f.enter();
    assert_eq!(e.duration, Duration::from_millis(500));
    assert_eq!(e.timing_fn.as_deref(), Some("linear"));
    assert_eq!(e.keyframes.len(), 2);
    assert_eq!(props(&e.keyframes[0]), vec![("opacity", "0")]);
    assert_eq!(props(&e.keyframes[1]), vec![("opacity", "1")]);
    let l = f.leave();
    assert_eq!(props(&l.keyframes[0]), vec![("opacity", "1")]);
    assert_eq!(props(&l.keyframes[1]), vec![("opacity", "0")]);
}

#[test]
fn default_strategies() {
    let f = FadeAnimation::default();
    assert_eq!(f.duration, Duration::from_millis(200));
    assert_eq!(f.timing_fn, "ease-out");
    let s = SlidingAnimation::default();
    assert_eq!(s.duration, Duration::from_millis(200));
    assert_eq!(s.timing_fn, "ease-out");
}

#[test]
fn sliding_gives_its_timing_for_moves_and_resizes() {
    let s = SlidingAnimation::new(Duration::from_millis(300), "ease-in");
    let a = ElementSnapshot { position: Position { x: 0, y: 0 }, extent: None };
    let m = MoveAnimation::animate(&s, a, a);
    assert_eq!(m.duration, Duration::from_millis(300));
    assert_eq!(m.timing_fn.as_deref(), Some("ease-in"));
    let e = Extent { width: 1, height: 2 };
    let r = s.resize(e, e);
    assert_eq!(r.timing_fn.as_deref(), Some("ease-in"));
}

#[test]
fn dynamics_animation_uses_a_linear_easing_through_the_samples() {
    let samples = vec!["0.1".to_string(), "0.5".to_string(), "1".to_string()];
    let d = DynamicsAnimation::from_samples(&samples, Duration::from_millis(200));
    assert_eq!(d.easing(), "linear(0.1, 0.5, 1)");
    let a = ElementSnapshot { position: Position { x: 0, y: 0 }, extent: None };
    let m = MoveAnimation::animate(&d, a, a);
    assert_eq!(m.duration, Duration::from_millis(200));
    assert_eq!(m.timing_fn.as_deref(), Some("linear(0.1, 0.5, 1)"));
    let e = Extent { width: 1, height: 2 };
    assert_eq!(d.resize(e, e).timing_fn.as_deref(), Some("linear(0.1, 0.5, 1)"));
    let one = DynamicsAnimation::from_samples(&vec!["1".to_string()], Duration::from_millis(1));
    assert_eq!(one.easing(), "linear(1)");
}

#[test]
fn sampling_stops_on_settling_or_at_the_cap() {
    assert_eq!(sampling(1, false), Sampling::Continue);
    assert_eq!(sampling(1, true), Sampling::Settled);
    assert_eq!(sampling(MAX_SAMPLES - 1, false), Sampling::Continue);
    assert_eq!(sampling(MAX_SAMPLES, false), Sampling::TooLong);
    assert_eq!(sampling(MAX_SAMPLES, true), Sampling::Settled);
    assert_eq!(MAX_SAMPLES, 1000);
}

#[test]
fn move_keyframes_translate_back_to_the_old_place() {
    let prev = ElementSnapshot {
        position: Position { x: 1000, y: 2050 },
        extent: Some(Extent { width: 10000, height: 5000 }),
    };
    let next = ElementSnapshot {
        position: Position { x: 3000, y: 2000 },
        extent: Some(Extent { width: 20000, height: 5000 }),
    };
    let k = move_keyframes(prev, next, false);
    assert_eq!(k.len(), 2);
    assert_eq!(
        props(&k[0]),
        vec![("transformOrigin", "top left"), ("transform", "translate(-20px, 0.50px)")]
    );
    assert_eq!(props(&k[1]), vec![("transformOrigin", "top left"), ("transform", "none")]);
    let k = move_keyframes(prev, next, true);
    assert_eq!(
        props(&k[0]),
        vec![
            ("transformOrigin", "top left"),
            ("transform", "translate(-20px, 0.50px)"),
            ("width", "100px"),
            ("height", "50px"),
        ]
    );
    assert_eq!(
        props(&k[1]),
        vec![
            ("transformOrigin", "top left"),
            ("transform", "none"),
            ("width", "200px"),
            ("height", "50px"),
        ]
    );
}

#[test]
fn leaving_element_is_pinned_at_its_snapshot() {
    let s = ElementSnapshot {
        position: Position { x: 1200, y: 3400 },
        extent: Some(Extent { width: 10000, height: 2550 }),
    };
    let p = pin_styles(s);
    let p: Vec<(&str, &str)> = p.iter().map(|(a, b)| (a.as_str(), b.as_str())).collect();
    assert_eq!(
        p,
        vec![
            ("position", "absolute"),
            ("top", "34px"),
            ("left", "12px"),
            ("width", "100px"),
            ("height", "25.50px"),
        ]
    );
}

#[test]
fn size_transition_animates_from_the_second_observation() {
    let mut t = SizeTracker::new();
    assert!(t.observe(Extent { width: 10000, height: 2000 }).is_none());
    let (from, to) = t.observe(Extent { width: 14000, height: 2000 }).unwrap();
    assert_eq!((from.width, to.width), (10000, 14000));
    let k = resize_keyframes(from, to);
    assert_eq!(k.len(), 2);
    assert_eq!(props(&k[0]), vec![("marginRight", "-40px"), ("marginBottom", "0px")]);
    assert_eq!(props(&k[1]), vec![("marginRight", "0px"), ("marginBottom", "0px")]);
    let (from, to) = t.observe(Extent { width: 12000, height: 2500 }).unwrap();
    assert_eq!((from.width, to.width), (14000, 12000));
    let k = resize_keyframes(from, to);
    assert_eq!(props(&k[0]), vec![("marginRight", "20px"), ("marginBottom", "-5px")]);
}
