use arachne::audio::mixer::{ChannelHandle, ChannelTable, PlayState, MAX_CHANNELS};

#[test]
fn channel_table_fills_up_to_max_channels() {
    let mut t = ChannelTable::new();
    for k in 0..MAX_CHANNELS {
        assert_eq!(t.play(false, 100), Some(ChannelHandle(k as u32 + 1)));
    }
    assert_eq!(t.active_channels(), MAX_CHANNELS);
    assert_eq!(t.play(false, 100), None);
    assert_eq!(t.next_handle(), MAX_CHANNELS as u32 + 1);
}

#[test]
fn stopped_channels_make_room_and_handles_are_not_reused() {
    let mut t = ChannelTable::new();
    for _ in 0..MAX_CHANNELS {
        t.play(false, 100).unwrap();
    }
    t.stop(ChannelHandle(5));
    assert_eq!(t.state(ChannelHandle(5)), Some(PlayState::Stopped));
    let h = t.play(true, 10).unwrap();
    assert_eq!(h, ChannelHandle(MAX_CHANNELS as u32 + 1));
    assert_eq!(t.state(ChannelHandle(5)), None);
    assert_eq!(t.active_channels(), MAX_CHANNELS);
    assert_eq!(t.slots().last().unwrap().handle, h);
}

#[test]
fn pause_and_resume_change_only_the_right_states() {
    let mut t = ChannelTable::new();
    let a = t.play(false, 1024).unwrap();
    let b = t.play(false, 1024).unwrap();
    assert_eq!(t.state(a), Some(PlayState::Playing));
    t.pause(a);
    assert_eq!(t.state(a), Some(PlayState::Paused));
    assert_eq!(t.state(b), Some(PlayState::Playing));
    t.resume(a);
    assert_eq!(t.state(a), Some(PlayState::Playing));
    // Resuming a playing channel and pausing a stopped one change nothing.
    t.resume(b);
    assert_eq!(t.state(b), Some(PlayState::Playing));
    t.stop(b);
    t.pause(b);
    assert_eq!(t.state(b), Some(PlayState::Stopped));
    // Unknown handles are ignored.
    t.stop(ChannelHandle(99));
    assert_eq!(t.state(ChannelHandle(99)), None);
}

#[test]
fn remove_stopped_reports_the_dropped_handles() {
    let mut t = ChannelTable::new();
    let a = t.play(false, 1).unwrap();
    let b = t.play(false, 1).unwrap();
    let c = t.play(false, 1).unwrap();
    t.stop(a);
    t.stop(c);
    assert_eq!(t.remove_stopped(), vec![a, c]);
    assert_eq!(t.active_channels(), 1);
    assert_eq!(t.slots()[0].handle, b);
    assert_eq!(t.remove_stopped(), Vec::<ChannelHandle>::new());
}

#[test]
fn step_plays_frames_then_stops_at_the_end() {
    let mut t = ChannelTable::new();
    let h = t.play(false, 3).unwrap();
    assert_eq!(t.step(0), Some(0));
    assert_eq!(t.step(0), Some(1));
    assert_eq!(t.step(0), Some(2));
    assert_eq!(t.step(0), None);
    assert_eq!(t.state(h), Some(PlayState::Stopped));
}

#[test]
fn step_wraps_a_looping_source() {
    let mut t = ChannelTable::new();
    let h = t.play(true, 2).unwrap();
    let frames: Vec<Option<usize>> = (0..5).map(|_| t.step(0)).collect();
    assert_eq!(frames, vec![Some(0), Some(1), Some(0), Some(1), Some(0)]);
    assert_eq!(t.state(h), Some(PlayState::Playing));
    assert_eq!(t.slots()[0].position, 1);
}
