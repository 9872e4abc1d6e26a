use wlshot::geometry::{output_intersects, select_targets, OutputInfo, Region};

fn output(id: u32, x: i32, y: i32, width: i32, height: i32, scale: i32) -> OutputInfo {
    OutputInfo { id, xdg_id: None, x, y, width, height, scale }
}

#[test]
fn region_spanning_two_outputs_intersects_both() {
    let a = output(0, 0, 0, 1920, 1080, 1);
    let b = output(1, 1920, 0, 1920, 1080, 1);
    let r = Region { x: 1900, y: 500, width: 100, height: 100 };
    assert!(output_intersects(&a, &r));
    assert!(output_intersects(&b, &r));
}

#[test]
fn region_outside_everything_intersects_neither() {
    let a = output(0, 0, 0, 1920, 1080, 1);
    let b = output(1, 1920, 0, 1920, 1080, 1);
    let r = Region { x: 5000, y: 5000, width: 10, height: 10 };
    assert!(!output_intersects(&a, &r));
    assert!(!output_intersects(&b, &r));
}

#[test]
fn select_targets_keeps_all_overlapped_outputs() {
    let outputs = vec![
        output(0, 0, 0, 1920, 1080, 1),
        output(1, 1920, 0, 1920, 1080, 1),
    ];
    let r = Region { x: 1900, y: 500, width: 100, height: 100 };
    let targets = select_targets(&outputs, Some(r));
    assert_eq!(targets.len(), 2);
    assert_eq!(targets[0].id, 0);
    assert_eq!(targets[1].id, 1);
}

#[test]
fn select_targets_falls_back_to_first_output() {
    let outputs = vec![
        output(0, 0, 0, 1920, 1080, 1),
        output(1, 1920, 0, 1920, 1080, 1),
    ];
    let r = Region { x: 5000, y: 5000, width: 10, height: 10 };
    let targets = select_targets(&outputs, Some(r));
    assert_eq!(targets.len(), 1);
    assert_eq!(targets[0].id, 0);
}

#[test]
fn select_targets_without_region_takes_first_output() {
    let outputs = vec![
        output(7, 0, 0, 800, 600, 1),
        output(8, 800, 0, 800, 600, 1),
    ];
    let targets = select_targets(&outputs, None);
    assert_eq!(targets.len(), 1);
    assert_eq!(targets[0].id, 7);
}

#[test]
fn select_targets_with_no_outputs_is_empty() {
    let outputs: Vec<OutputInfo> = Vec::new();
    let r = Region { x: 0, y: 0, width: 10, height: 10 };
    assert_eq!(select_targets(&outputs, Some(r)).len(), 0);
    assert_eq!(select_targets(&outputs, None).len(), 0);
}

#[test]
fn touching_edges_do_not_intersect() {
    let a = output(0, 0, 0, 100, 100, 1);
    let right_edge = Region { x: 100, y: 0, width: 50, height: 50 };
    assert!(!output_intersects(&a, &right_edge));
    let inside_corner = Region { x: 99, y: 99, width: 1, height: 1 };
    assert!(output_intersects(&a, &inside_corner));
}
