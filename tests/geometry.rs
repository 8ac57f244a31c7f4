use leptos_animate::css::px;
use leptos_animate::measure::{parse_px, snapshot_from_measures, SnapshotError};
use leptos_animate::position::{fuzzy_compare, ElementSnapshot, Extent, Position};

#[test]
fn fuzzy_compare_threshold_is_a_tenth_of_a_pixel() {
    assert!(fuzzy_compare(100, 109));
    assert!(fuzzy_compare(109, 100));
    assert!(!fuzzy_compare(100, 110));
    assert!(!fuzzy_compare(-5, 5));
    assert!(fuzzy_compare(i64::MAX, i64::MAX));
    assert!(!fuzzy_compare(i64::MIN, i64::MAX));
}

#[test]
fn move_detection_threshold() {
    let before = ElementSnapshot { position: Position { x: 1000, y: 2000 }, extent: None };
    let near = ElementSnapshot { position: Position { x: 1005, y: 1992 }, extent: None };
    let far = ElementSnapshot { position: Position { x: 1015, y: 2000 }, extent: None };
    assert!(before.stayed_at(&near));
    assert!(!before.stayed_at(&far));
}

#[test]
fn size_counts_only_when_measured_after() {
    let p = Position { x: 0, y: 0 };
    let small = ElementSnapshot { position: p, extent: Some(Extent { width: 100, height: 100 }) };
    let big = ElementSnapshot { position: p, extent: Some(Extent { width: 300, height: 100 }) };
    let unsized_after = ElementSnapshot { position: p, extent: None };
    assert!(small.stayed_at(&unsized_after));
    assert!(!small.stayed_at(&big));
    assert!(!unsized_after.stayed_at(&small));
    assert!(small.stayed_at(&small));
}

#[test]
fn position_arithmetic_and_conversions() {
    let a = Position::from((300, -200));
    let b = Position { x: 100, y: 50 };
    let s = a.add(b);
    assert_eq!((s.x, s.y), (400, -150));
    let d = a.sub(b);
    assert_eq!((d.x, d.y), (200, -250));
    let z = Position::default();
    assert_eq!((z.x, z.y), (0, 0));
    assert!(a.approx_eq(&Position { x: 305, y: -209 }));
    assert!(!a.approx_eq(&Position { x: 310, y: -200 }));
    let e = Extent::from((4000, 3000));
    assert_eq!((e.width, e.height), (4000, 3000));
    let z = Extent::default();
    assert_eq!((z.width, z.height), (0, 0));
    assert!(e.approx_eq(&Extent { width: 4009, height: 2991 }));
}

#[test]
fn px_text_of_lengths() {
    assert_eq!(px(4000), "40px");
    assert_eq!(px(-4000), "-40px");
    assert_eq!(px(0), "0px");
    assert_eq!(px(-5), "-0.05px");
    assert_eq!(px(1250), "12.50px");
    assert_eq!(px(123456789), "1234567.89px");
}

#[test]
fn parse_px_accepts_pixel_lengths() {
    assert_eq!(parse_px("12px"), Ok(1200));
    assert_eq!(parse_px("-3.25px"), Ok(-325));
    assert_eq!(parse_px("0.5px"), Ok(50));
    assert_eq!(parse_px("1.999px"), Ok(199));
    assert_eq!(parse_px("0px"), Ok(0));
}

#[test]
fn parse_px_rejects_other_units_and_shapes() {
    assert_eq!(parse_px("12em"), Err(SnapshotError::NotPixels));
    assert_eq!(parse_px("px"), Err(SnapshotError::NotPixels));
    assert_eq!(parse_px("1.px"), Err(SnapshotError::NotPixels));
    assert_eq!(parse_px(".5px"), Err(SnapshotError::NotPixels));
    assert_eq!(parse_px("1.2.3px"), Err(SnapshotError::NotPixels));
    assert_eq!(parse_px("-px"), Err(SnapshotError::NotPixels));
    assert_eq!(parse_px("auto"), Err(SnapshotError::NotPixels));
    assert_eq!(parse_px(""), Err(SnapshotError::NotPixels));
}

#[test]
fn parse_px_rejects_lengths_out_of_range() {
    assert_eq!(parse_px("100000000000000000000px"), Err(SnapshotError::OutOfRange));
    assert_eq!(parse_px("-100000000000000000000.5px"), Err(SnapshotError::OutOfRange));
}

#[test]
fn snapshot_excludes_parent_offset_and_margins() {
    let el = Position { x: 5000, y: 7000 };
    let parent = Position { x: 1000, y: 2000 };
    let extent = Some(Extent { width: 100, height: 200 });
    let s = snapshot_from_measures(el, parent, "8px", "4.5px", extent).unwrap();
    assert_eq!((s.position.x, s.position.y), (3200, 4550));
    assert_eq!(s.extent.unwrap().width, 100);
    assert_eq!(
        snapshot_from_measures(el, parent, "auto", "0px", None).unwrap_err(),
        SnapshotError::NotPixels
    );
    assert_eq!(
        snapshot_from_measures(el, parent, "0px", "1em", None).unwrap_err(),
        SnapshotError::NotPixels
    );
    let far = Position { x: i64::MIN, y: 0 };
    assert_eq!(
        snapshot_from_measures(far, parent, "0px", "0px", None).unwrap_err(),
        SnapshotError::OutOfRange
    );
}
