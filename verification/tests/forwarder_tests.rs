use blit::forwarder::{share_step, ShareEvent, ShareState, drive_step, wait_step, DriveEvent, DriveState, ReadySignal, WaitStep, MAX_FRAME_SIZE};

fn start() -> DriveState {
    DriveState { channel_open: false, ready_pending: true, signaling_alive: true }
}

#[test]
fn hub_answers_end_or_fail_the_wait() {
    assert_eq!(wait_step("registered", "registered", Some("s1".to_string()), None), WaitStep::Done("s1".to_string()));
    assert_eq!(wait_step("peer_joined", "peer_joined", None, None), WaitStep::Done(String::new()));
    assert_eq!(
        wait_step("registered", "error", None, Some("busy".to_string())),
        WaitStep::Fail("signaling: busy".to_string())
    );
    assert_eq!(wait_step("registered", "error", None, None), WaitStep::Fail("signaling: ".to_string()));
    assert_eq!(wait_step("registered", "signal", None, None), WaitStep::Keep);
}

#[test]
fn the_terminal_channel_opening_reports_ready_once() {
    let s = drive_step(start(), DriveEvent::ChannelOpen { blit: false });
    assert_eq!(s.ready, None);
    assert!(!s.state.channel_open);
    let s = drive_step(start(), DriveEvent::ChannelOpen { blit: true });
    assert_eq!(s.ready, Some(ReadySignal::Open));
    assert!(s.state.channel_open && !s.state.ready_pending);
    let again = drive_step(s.state, DriveEvent::ChannelOpen { blit: true });
    assert_eq!(again.ready, None);
    assert_eq!(ReadySignal::Open.failure(), None);
}

#[test]
fn data_close_and_frames() {
    let open = DriveState { channel_open: true, ready_pending: false, signaling_alive: true };
    assert!(drive_step(open, DriveEvent::ChannelData { ours: true }).forward);
    assert!(!drive_step(open, DriveEvent::ChannelData { ours: false }).forward);
    assert!(drive_step(open, DriveEvent::ChannelClose { ours: true }).stop);
    assert!(!drive_step(open, DriveEvent::ChannelClose { ours: false }).stop);
    assert_eq!(drive_step(open, DriveEvent::FrameLength(5)).payload, Some(5));
    assert_eq!(drive_step(open, DriveEvent::FrameLength(MAX_FRAME_SIZE)).payload, Some(MAX_FRAME_SIZE));
    let big = drive_step(open, DriveEvent::FrameLength(MAX_FRAME_SIZE + 1));
    assert!(big.stop && big.payload.is_none());
}

#[test]
fn failures_before_the_channel_opens() {
    let s = drive_step(start(), DriveEvent::IceDisconnected);
    assert!(s.stop);
    assert_eq!(s.ready, Some(ReadySignal::IceDisconnected));
    assert_eq!(ReadySignal::IceDisconnected.failure(), Some("ICE disconnected".to_string()));
    let s = drive_step(start(), DriveEvent::SignalingLost);
    assert!(s.stop && !s.state.signaling_alive);
    assert_eq!(s.ready.unwrap().failure(), Some("signaling lost before channel open".to_string()));
    let open = DriveState { channel_open: true, ready_pending: false, signaling_alive: true };
    let s = drive_step(open, DriveEvent::SignalingLost);
    assert!(!s.stop && s.ready.is_none() && !s.state.signaling_alive);
}

#[test]
fn sharing_side_decisions() {
    let closed = ShareState { channel_open: false };
    let s = share_step(closed, ShareEvent::ChannelOpen { blit: true });
    assert!(s.connect_local && s.state.channel_open);
    assert!(!share_step(closed, ShareEvent::ChannelOpen { blit: false }).connect_local);
    let open = s.state;
    assert!(share_step(open, ShareEvent::ChannelData { ours: true }).to_local);
    assert!(!share_step(closed, ShareEvent::ChannelData { ours: true }).to_local);
    assert!(share_step(open, ShareEvent::ChannelClose { ours: true }).stop);
    assert!(!share_step(open, ShareEvent::ChannelClose { ours: false }).stop);
    assert!(share_step(open, ShareEvent::IceDisconnected).stop);
    assert!(share_step(open, ShareEvent::LocalClosed).stop);
    assert_eq!(share_step(open, ShareEvent::LocalFrameLength(9)).payload, Some(9));
    assert!(share_step(open, ShareEvent::LocalFrameLength(MAX_FRAME_SIZE + 1)).stop);
    let idle = share_step(closed, ShareEvent::LocalFrameLength(9));
    assert!(!idle.stop && idle.payload.is_none());
}
