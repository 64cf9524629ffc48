use musickbeets::playback::{PlaybackData, PlaybackState, TransportState};

#[test]
fn new_player_is_stopped_and_empty() {
    let d = PlaybackData::new();
    assert_eq!(d.get_state(), PlaybackState::Stopped);
    assert_eq!(d.get_position_samples(), 0);
    assert!(!d.has_audio());
    assert_eq!(d.sample_rate(), 48000);
}

#[test]
fn state_changes() {
    let mut d = PlaybackData::new();
    d.load(10, 44100);
    assert!(d.has_audio());
    d.play();
    assert_eq!(d.get_state(), PlaybackState::Playing);
    d.pause();
    assert_eq!(d.get_state(), PlaybackState::Paused);
    d.seek_to_sample(4);
    d.stop();
    assert_eq!(d.get_state(), PlaybackState::Stopped);
    assert_eq!(d.get_position_samples(), 0);
}

#[test]
fn seeking_clamps_to_end() {
    let mut d = PlaybackData::new();
    d.load(10, 44100);
    d.seek_to_sample(7);
    assert_eq!(d.get_position_samples(), 7);
    d.seek_to_sample(70);
    assert_eq!(d.get_position_samples(), 10);
}

#[test]
fn silent_unless_playing() {
    let mut d = PlaybackData::new();
    d.load(4, 44100);
    assert_eq!(d.fill_frames(3), vec![None, None, None]);
    assert_eq!(d.get_position_samples(), 0);
}

#[test]
fn end_without_repeat_rewinds_and_pauses() {
    let mut d = PlaybackData::new();
    d.load(3, 44100);
    d.play();
    let out = d.fill_frames(6);
    // The rest of the buffer keeps playing from the start once paused; the
    // next buffer is silent.
    assert_eq!(out, vec![Some(0), Some(1), Some(2), None, Some(0), Some(1)]);
    assert_eq!(d.get_state(), PlaybackState::Paused);
    assert_eq!(d.fill_frames(2), vec![None, None]);
}

#[test]
fn end_with_repeat_wraps() {
    let mut d = PlaybackData::new();
    d.load(2, 44100);
    d.set_repeat(true);
    d.play();
    assert_eq!(d.fill_frames(5), vec![Some(0), Some(1), Some(0), Some(1), Some(0)]);
    assert_eq!(d.get_state(), PlaybackState::Playing);
}

#[test]
fn end_while_seeking_holds() {
    let mut d = PlaybackData::new();
    d.load(2, 44100);
    d.play();
    d.set_seeking(true);
    d.seek_to_sample(2);
    assert_eq!(d.fill_frames(3), vec![None, None, None]);
    assert_eq!(d.get_position_samples(), 2);
    assert_eq!(d.get_state(), PlaybackState::Playing);
    assert_eq!(d.next_frame(), None);
}

#[test]
fn transport_defaults() {
    let t = TransportState::default();
    assert_eq!(t.position_samples, 0);
    assert_eq!(t.duration_samples, 0);
    assert_eq!(t.sample_rate, 48000);
    assert!(!t.is_playing);
    assert!(!t.repeat);
}

#[test]
fn test_player_creation() {
    let player = PlaybackData::new();
    assert_eq!(player.get_state(), PlaybackState::Stopped);
}

#[test]
fn test_state_changes() {
    let mut player = PlaybackData::new();

    player.play();
    assert_eq!(player.get_state(), PlaybackState::Playing);

    player.pause();
    assert_eq!(player.get_state(), PlaybackState::Paused);

    player.stop();
    assert_eq!(player.get_state(), PlaybackState::Stopped);
}

#[test]
fn test_repeat_setting() {
    let mut player = PlaybackData::new();
    player.load(3, 48000);
    player.set_repeat(true);
    player.play();
    assert_eq!(player.fill_frames(5), vec![Some(0), Some(1), Some(2), Some(0), Some(1)]);
    assert_eq!(player.get_state(), PlaybackState::Playing);

    player.set_repeat(false);
    // The state is consulted once per buffer: after the pause at the end,
    // the rest of the buffer goes on from the start.
    assert_eq!(player.fill_frames(3), vec![Some(2), None, Some(0)]);
    assert_eq!(player.get_state(), PlaybackState::Paused);
    assert_eq!(player.get_position_samples(), 1);
    assert_eq!(player.fill_frames(2), vec![None, None]);
}
