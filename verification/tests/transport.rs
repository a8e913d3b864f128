use iwaks::queue::RepeatMode;
use iwaks::transport::{
    startup_options, Command, Effect, EndFileReason, Options, Transport, EVENT_END_FILE,
    EVENT_FILE_LOADED, EVENT_IDLE, EVENT_NONE, EVENT_SHUTDOWN, EVENT_START_FILE, EVENT_TICK,
};

#[test]
fn event_ids_match_libmpv_header() {
    assert_eq!(EVENT_NONE, 0);
    assert_eq!(EVENT_SHUTDOWN, 1);
    assert_eq!(EVENT_START_FILE, 6);
    assert_eq!(EVENT_END_FILE, 7);
    assert_eq!(EVENT_FILE_LOADED, 8);
    assert_eq!(EVENT_IDLE, 11);
    assert_eq!(EVENT_TICK, 14);
}

#[test]
fn end_file_reason_mapping() {
    assert_eq!(EndFileReason::from_raw(0), EndFileReason::Eof);
    assert_eq!(EndFileReason::from_raw(1), EndFileReason::Stop);
    assert_eq!(EndFileReason::from_raw(2), EndFileReason::Quit);
    assert_eq!(EndFileReason::from_raw(3), EndFileReason::Error);
    assert_eq!(EndFileReason::from_raw(4), EndFileReason::Redirect);
    assert_eq!(EndFileReason::from_raw(99), EndFileReason::Other(99));
}

fn step(t: &Transport, c: Command) -> (Transport, Effect) {
    t.handle(c)
}

fn playing(count: usize, index: usize) -> Transport {
    let (t, e) = step(&Transport::new(), Command::PlayTracks { count, index, seed: 1 });
    assert_eq!(e, Effect::EnqueueLoad(index.min(count - 1)));
    let (t, e) = step(&t, Command::Load(index.min(count - 1)));
    assert_eq!(e, Effect::LoadFile(index.min(count - 1)));
    t
}

#[test]
fn play_tracks_clamps_and_queues_a_load() {
    let (t, e) = step(&Transport::new(), Command::PlayTracks { count: 3, index: 7, seed: 1 });
    assert_eq!(e, Effect::EnqueueLoad(2));
    assert_eq!(t.queue.current(), Some(2));
    assert_eq!(t.queue.len, 3);
    let (_, e) = step(&t, Command::PlayTracks { count: 0, index: 0, seed: 1 });
    assert_eq!(e, Effect::Nothing, "an empty list is ignored");
}

#[test]
fn play_tracks_keeps_the_repeat_mode() {
    let (t, _) = step(&Transport::new(), Command::SetRepeat(RepeatMode::All));
    let (t, _) = step(&t, Command::PlayTracks { count: 2, index: 0, seed: 1 });
    assert_eq!(t.queue.repeat, RepeatMode::All);
}

#[test]
fn end_of_file_advances_then_stops_at_the_end() {
    let t = playing(2, 0);
    let (t, e) = step(&t, Command::EndFile(EndFileReason::Eof));
    assert_eq!(e, Effect::EnqueueLoad(1));
    let (t, e) = step(&t, Command::Load(1));
    assert_eq!(e, Effect::LoadFile(1));
    let (t, e) = step(&t, Command::EndFile(EndFileReason::Eof));
    assert_eq!(e, Effect::ReportStopped, "stops on the last track");
    assert!(t.stopped);
    assert_eq!(t.queue.current(), Some(1));
}

#[test]
fn corrupt_file_is_skipped_like_a_finished_one() {
    let t = playing(3, 0);
    let (_, e) = step(&t, Command::EndFile(EndFileReason::Redirect));
    assert_eq!(e, Effect::EnqueueLoad(1));
    let (_, e) = step(&t, Command::EndFile(EndFileReason::Error));
    assert_eq!(e, Effect::EnqueueLoad(1));
}

#[test]
fn manual_stop_end_never_advances() {
    let t = playing(3, 0);
    for reason in [EndFileReason::Stop, EndFileReason::Quit, EndFileReason::Other(9)] {
        let (next, e) = step(&t, Command::EndFile(reason));
        assert_eq!(e, Effect::Nothing);
        assert!(!next.stopped);
        assert_eq!(next.queue.current(), Some(0));
    }
}

#[test]
fn repeat_all_wraps_after_the_last_track() {
    let t = playing(3, 2);
    let (t, _) = step(&t, Command::SetRepeat(RepeatMode::All));
    let (_, e) = step(&t, Command::EndFile(EndFileReason::Eof));
    assert_eq!(e, Effect::EnqueueLoad(0));
}

#[test]
fn toggle_pauses_while_playing_and_restarts_after_stop() {
    let t = playing(3, 1);
    let (t, e) = step(&t, Command::TogglePlay { paused: false });
    assert_eq!(e, Effect::SetPause(true));
    let (t, e) = step(&t, Command::TogglePlay { paused: true });
    assert_eq!(e, Effect::SetPause(false));
    let (t, e) = step(&t, Command::Stop);
    assert_eq!(e, Effect::StopPlayback);
    assert!(t.stopped);
    let (t, e) = step(&t, Command::TogglePlay { paused: true });
    assert_eq!(e, Effect::LoadFile(1), "restarts the last selected track");
    assert!(!t.stopped);
}

#[test]
fn toggle_with_nothing_selected_after_stop_does_nothing() {
    let (t, _) = step(&Transport::new(), Command::Stop);
    let (t, e) = step(&t, Command::TogglePlay { paused: true });
    assert_eq!(e, Effect::Nothing);
    assert!(t.stopped);
}

#[test]
fn next_and_prev_follow_the_queue() {
    let t = playing(3, 2);
    let (t2, e) = step(&t, Command::Next);
    assert_eq!(e, Effect::Emit, "no next at the end with repeat off");
    assert_eq!(t2.queue.current(), Some(2));
    let (t3, e) = step(&t, Command::Prev);
    assert_eq!(e, Effect::LoadFile(1));
    assert_eq!(t3.queue.current(), Some(1));
    let first = playing(3, 0);
    let (_, e) = step(&first, Command::Prev);
    assert_eq!(e, Effect::LoadFile(2), "prev wraps to the last track");
}

#[test]
fn volume_is_clamped_and_mute_toggles() {
    let t = playing(1, 0);
    assert_eq!(step(&t, Command::SetVolume(150)).1, Effect::SetVolume(100));
    assert_eq!(step(&t, Command::SetVolume(-5)).1, Effect::SetVolume(0));
    assert_eq!(step(&t, Command::SetVolume(42)).1, Effect::SetVolume(42));
    assert_eq!(step(&t, Command::ToggleMute { muted: false }).1, Effect::SetMute(true));
    assert_eq!(step(&t, Command::ToggleMute { muted: true }).1, Effect::SetMute(false));
    assert_eq!(step(&t, Command::Refresh).1, Effect::Emit);
}

#[test]
fn defaults_use_shared_wasapi_audio() {
    let o = Options::default();
    assert!(!o.ao_null);
    assert!(!o.audio_exclusive);
}

fn names(opts: &Options) -> Vec<(String, String, bool)> {
    startup_options(opts)
        .into_iter()
        .map(|o| (o.name, o.value, o.required))
        .collect()
}

#[test]
fn startup_options_headless() {
    let got = names(&Options { ao_null: true, audio_exclusive: false });
    let want: Vec<(String, String, bool)> = [
        ("idle", "yes", true),
        ("vo", "null", true),
        ("ao", "null", true),
        ("ao-null-untimed", "no", true),
        ("audio-client-name", "Iwaks", true),
        ("volume-max", "100", true),
        ("keep-open", "no", true),
        ("gapless-audio", "yes", true),
        ("audio-resampler", "soxr", false),
    ]
    .iter()
    .map(|(n, v, r)| (n.to_string(), v.to_string(), *r))
    .collect();
    assert_eq!(got, want);
}

#[test]
fn startup_options_exclusive_device() {
    let got = names(&Options { ao_null: false, audio_exclusive: true });
    assert_eq!(got.len(), 9);
    assert_eq!(got[2], ("ao".to_string(), "wasapi".to_string(), true));
    assert_eq!(got[3], ("audio-exclusive".to_string(), "yes".to_string(), true));
    assert_eq!(got[4].0, "audio-client-name");
}

#[test]
fn shuffle_commands_keep_the_playing_track() {
    let t = playing(6, 3);
    let (t, e) = step(&t, Command::SetShuffle { on: true, seed: 42 });
    assert_eq!(e, Effect::Emit);
    assert!(t.queue.shuffle);
    assert_eq!(t.queue.current(), Some(3));
    assert_eq!(t.queue.index, Some(0));
    let (t, _) = step(&t, Command::Reshuffle { seed: 7 });
    assert_eq!(t.queue.current(), Some(3));
    let (t, _) = step(&t, Command::Reorder { from: 0, to: 5 });
    assert_eq!(t.queue.current(), Some(3));
    assert_eq!(t.queue.index, Some(5));
    let (t, _) = step(&t, Command::SetShuffle { on: false, seed: 0 });
    assert!(!t.queue.shuffle);
    assert_eq!(t.queue.order, (0..6).collect::<Vec<_>>());
    assert_eq!(t.queue.current(), Some(3));
}

#[test]
fn play_tracks_keeps_shuffle_and_starts_at_the_front() {
    let t = playing(3, 0);
    let (t, _) = step(&t, Command::SetShuffle { on: true, seed: 1 });
    let (t, e) = step(&t, Command::PlayTracks { count: 8, index: 5, seed: 99 });
    assert_eq!(e, Effect::EnqueueLoad(5));
    assert!(t.queue.shuffle);
    assert_eq!(t.queue.index, Some(0));
    assert_eq!(t.queue.current(), Some(5));
    let mut sorted = t.queue.order.clone();
    sorted.sort();
    assert_eq!(sorted, (0..8).collect::<Vec<_>>());
    let (t, e) = step(&t, Command::Load(5));
    assert_eq!(e, Effect::LoadFile(5));
    assert_eq!(t.queue.index, Some(0));
}
