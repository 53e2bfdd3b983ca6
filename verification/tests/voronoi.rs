use lau_stochastic_geometry::voronoi::{clip_plan, ClipStep};

#[test]
fn test_clip_plan_all_inside() {
    let plan = clip_plan(&vec![true, true, true, true]);
    assert_eq!(
        plan,
        vec![ClipStep::Keep(0), ClipStep::Keep(1), ClipStep::Keep(2), ClipStep::Keep(3)]
    );
}

#[test]
fn test_clip_plan_half_inside() {
    let plan = clip_plan(&vec![true, true, false, false]);
    assert_eq!(
        plan,
        vec![ClipStep::Keep(0), ClipStep::Keep(1), ClipStep::Cross(1, 2), ClipStep::Cross(3, 0)]
    );
}

#[test]
fn test_clip_plan_all_outside() {
    assert!(clip_plan(&vec![false, false, false]).is_empty());
    assert!(clip_plan(&vec![]).is_empty());
}

#[test]
fn test_clip_plan_crossings_even() {
    let plan = clip_plan(&vec![true, false, true, false, false, true]);
    let crossings = plan.iter().filter(|s| matches!(s, ClipStep::Cross(_, _))).count();
    assert_eq!(crossings % 2, 0);
    assert_eq!(crossings, 4);
}
