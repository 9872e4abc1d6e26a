use wlshot::capture::{capture_start, capture_step, CaptureAction, FrameEvent};
use wlshot::geometry::OutputInfo;
use wlshot::registry::{
    assign_xdg_id, bind_version, classify_interface, handle_output_event, handle_xdg_event,
    output_needs_xdg, register_output, InterfaceKind, OutputEvent, XdgOutputEvent,
};

#[test]
fn recognizes_the_four_interfaces() {
    assert_eq!(classify_interface(b"wl_output"), InterfaceKind::Output);
    assert_eq!(classify_interface(b"wl_shm"), InterfaceKind::Shm);
    assert_eq!(
        classify_interface(b"zwlr_screencopy_manager_v1"),
        InterfaceKind::ScreencopyManager
    );
    assert_eq!(
        classify_interface(b"zxdg_output_manager_v1"),
        InterfaceKind::XdgOutputManager
    );
    assert_eq!(classify_interface(b"wl_seat"), InterfaceKind::Unknown);
    assert_eq!(classify_interface(b"wl_outputs"), InterfaceKind::Unknown);
    assert_eq!(classify_interface(b""), InterfaceKind::Unknown);
}

#[test]
fn bind_version_takes_minimum_of_advertised_and_feature_level() {
    assert_eq!(bind_version(InterfaceKind::Output, 2), 2);
    assert_eq!(bind_version(InterfaceKind::Output, 9), 4);
    assert_eq!(bind_version(InterfaceKind::Shm, 5), 1);
    assert_eq!(bind_version(InterfaceKind::ScreencopyManager, 3), 3);
    assert_eq!(bind_version(InterfaceKind::ScreencopyManager, 7), 3);
    assert_eq!(bind_version(InterfaceKind::XdgOutputManager, 2), 2);
}

#[test]
fn registry_records_events_on_the_right_output() {
    let mut outputs: Vec<OutputInfo> = Vec::new();
    register_output(&mut outputs, 0);
    register_output(&mut outputs, 1);
    assert_eq!(outputs.len(), 2);
    assert_eq!(outputs[0].scale, 1);
    assert_eq!(outputs[0].width, 0);

    handle_output_event(
        &mut outputs,
        1,
        OutputEvent::Mode { current: true, width: 2560, height: 1440 },
    );
    handle_output_event(&mut outputs, 1, OutputEvent::Scale { factor: 2 });
    assert_eq!(outputs[1].width, 2560);
    assert_eq!(outputs[1].height, 1440);
    assert_eq!(outputs[1].scale, 2);
    assert_eq!(outputs[0].width, 0);
    assert_eq!(outputs[0].scale, 1);
}

#[test]
fn non_current_mode_is_ignored() {
    let mut outputs: Vec<OutputInfo> = Vec::new();
    register_output(&mut outputs, 0);
    handle_output_event(
        &mut outputs,
        0,
        OutputEvent::Mode { current: false, width: 640, height: 480 },
    );
    assert_eq!(outputs[0].width, 0);
    assert_eq!(outputs[0].height, 0);
}

#[test]
fn unknown_ids_change_nothing() {
    let mut outputs: Vec<OutputInfo> = Vec::new();
    register_output(&mut outputs, 0);
    handle_output_event(&mut outputs, 9, OutputEvent::Scale { factor: 3 });
    handle_xdg_event(&mut outputs, 9, XdgOutputEvent::LogicalPosition { x: 5, y: 6 });
    assert_eq!(outputs[0].scale, 1);
    assert_eq!(outputs[0].x, 0);
    assert_eq!(outputs[0].y, 0);
}

#[test]
fn logical_position_arrives_through_the_xdg_counterpart() {
    let mut outputs: Vec<OutputInfo> = Vec::new();
    register_output(&mut outputs, 0);
    register_output(&mut outputs, 1);
    assert!(output_needs_xdg(&outputs[0]));
    assign_xdg_id(&mut outputs, 0, 10);
    assign_xdg_id(&mut outputs, 1, 11);
    assert!(!output_needs_xdg(&outputs[0]));

    handle_xdg_event(&mut outputs, 11, XdgOutputEvent::LogicalPosition { x: 1920, y: 0 });
    assert_eq!(outputs[1].x, 1920);
    assert_eq!(outputs[1].y, 0);
    assert_eq!(outputs[0].x, 0);
}

#[test]
fn capture_state_machine_runs_to_ready() {
    let mut st = capture_start();
    assert!(!st.done);
    let act = capture_step(
        &mut st,
        FrameEvent::BufferParams { format: 1, width: 10, height: 2, stride: 48 },
    );
    assert_eq!(
        act,
        CaptureAction::CreateBuffer { format: 1, width: 10, height: 2, stride: 48, size: 96 }
    );
    assert!(!st.done);
    let act2 = capture_step(&mut st, FrameEvent::Ready);
    assert_eq!(act2, CaptureAction::NoAction);
    assert!(st.done);
    assert!(!st.failed);
}

#[test]
fn capture_state_machine_records_failure() {
    let mut st = capture_start();
    let act = capture_step(&mut st, FrameEvent::Failed);
    assert_eq!(act, CaptureAction::NoAction);
    assert!(st.done);
    assert!(st.failed);
}

#[test]
fn capture_buffer_size_does_not_overflow() {
    let mut st = capture_start();
    let act = capture_step(
        &mut st,
        FrameEvent::BufferParams {
            format: 0,
            width: 4294967295,
            height: 4294967295,
            stride: 4294967295,
        },
    );
    assert_eq!(
        act,
        CaptureAction::CreateBuffer {
            format: 0,
            width: 4294967295,
            height: 4294967295,
            stride: 4294967295,
            size: 4294967295u64 * 4294967295u64,
        }
    );
}
