//! Playback transport decisions.
//!
//! The player drives libmpv from a single pump thread; every decision that
//! thread makes (which track to load, when playback stops, what a toggle
//! does) is taken here, from the current transport state and one command
//! or mpv event, as a new state plus the one effect the pump must perform.
//! Anything the decision needs from mpv (the pause or mute flag) arrives
//! inside the command.

use vstd::prelude::*;

use crate::queue::{identity, law_operations_keep_queue_well_formed, Queue, QueueModel, RepeatMode};

verus! {

/// `mpv_event_id` values the pump reacts to (libmpv 2.x `client.h`).
pub const EVENT_NONE: i32 = 0;
pub const EVENT_SHUTDOWN: i32 = 1;
pub const EVENT_LOG_MESSAGE: i32 = 2;
pub const EVENT_START_FILE: i32 = 6;
pub const EVENT_END_FILE: i32 = 7;
pub const EVENT_FILE_LOADED: i32 = 8;
pub const EVENT_IDLE: i32 = 11;
pub const EVENT_TICK: i32 = 14;

/// `mpv_format` values used for property reads.
pub const FORMAT_STRING: i32 = 1;
pub const FORMAT_FLAG: i32 = 3;
pub const FORMAT_INT64: i32 = 4;
pub const FORMAT_DOUBLE: i32 = 5;

/// Why the current file ended (`mpv_event_end_file.reason`).
#[derive(Debug, Clone, Copy, PartialEq, Eq, Structural)]
pub enum EndFileReason {
    Eof,
    Stop,
    Quit,
    Error,
    Redirect,
    Other(i32),
}

impl EndFileReason {
    /// Decode libmpv's raw `mpv_end_file_reason` value.
    pub fn from_raw(v: i32) -> (r: EndFileReason)
        ensures
            r == (if v == 0 {
                EndFileReason::Eof
            } else if v == 1 {
                EndFileReason::Stop
            } else if v == 2 {
                EndFileReason::Quit
            } else if v == 3 {
                EndFileReason::Error
            } else if v == 4 {
                EndFileReason::Redirect
            } else {
                EndFileReason::Other(v)
            }),
    {
        match v {
            0 => EndFileReason::Eof,
            1 => EndFileReason::Stop,
            2 => EndFileReason::Quit,
            3 => EndFileReason::Error,
            4 => EndFileReason::Redirect,
            other => EndFileReason::Other(other),
        }
    }
}

/// Playback behaviour knobs applied at startup.
#[derive(Debug, Clone)]
pub struct Options {
    /// Null audio output — headless (tests/CI, no device required).
    pub ao_null: bool,
    /// WASAPI exclusive mode (bit-perfect); only meaningful with a real AO.
    /// Off by default: shared mode lets other applications keep playing.
    pub audio_exclusive: bool,
}

impl Default for Options {
    fn default() -> (o: Options)
        ensures
            !o.ao_null,
            !o.audio_exclusive,
    {
        Options { ao_null: false, audio_exclusive: false }
    }
}

/// One startup option for libmpv. Options that are not `required` may be
/// rejected by the libmpv build without failing startup.
pub struct MpvOption {
    pub name: String,
    pub value: String,
    pub required: bool,
}

pub open spec fn option_is(o: MpvOption, name: &str, value: &str, required: bool) -> bool {
    o.name@ == name@ && o.value@ == value@ && o.required == required
}

fn opt(name: &str, value: &str, required: bool) -> (o: MpvOption)
    ensures
        option_is(o, name, value, required),
{
    MpvOption { name: String::from_str(name), value: String::from_str(value), required }
}

/// The startup options, in the order they are applied: stay idle between
/// files, no video, the audio output (null or WASAPI, real-time paced when
/// null), exclusive mode when asked, client name, volume range, no
/// keep-open, gapless audio, and the soxr resampler when the build has it.
pub fn startup_options(options: &Options) -> (r: Vec<MpvOption>)
    ensures
        r@.len() == 8 + (if options.ao_null { 1int } else { 0int }) + (if options.audio_exclusive {
            1int
        } else {
            0int
        }),
        option_is(r@[0], "idle", "yes", true),
        option_is(r@[1], "vo", "null", true),
        option_is(r@[2], "ao", if options.ao_null { "null" } else { "wasapi" }, true),
        ({
            let k = 3 + (if options.ao_null { 1int } else { 0int });
            &&& options.ao_null ==> option_is(r@[3], "ao-null-untimed", "no", true)
            &&& options.audio_exclusive ==> option_is(r@[k], "audio-exclusive", "yes", true)
            &&& {
                let m = k + (if options.audio_exclusive { 1int } else { 0int });
                &&& option_is(r@[m], "audio-client-name", "Iwaks", true)
                &&& option_is(r@[m + 1], "volume-max", "100", true)
                &&& option_is(r@[m + 2], "keep-open", "no", true)
                &&& option_is(r@[m + 3], "gapless-audio", "yes", true)
                &&& option_is(r@[m + 4], "audio-resampler", "soxr", false)
            }
        }),
{
    let mut r: Vec<MpvOption> = Vec::new();
    r.push(opt("idle", "yes", true));
    r.push(opt("vo", "null", true));
    if options.ao_null {
        r.push(opt("ao", "null", true));
        r.push(opt("ao-null-untimed", "no", true));
    } else {
        r.push(opt("ao", "wasapi", true));
    }
    if options.audio_exclusive {
        r.push(opt("audio-exclusive", "yes", true));
    }
    r.push(opt("audio-client-name", "Iwaks", true));
    r.push(opt("volume-max", "100", true));
    r.push(opt("keep-open", "no", true));
    r.push(opt("gapless-audio", "yes", true));
    r.push(opt("audio-resampler", "soxr", false));
    r
}

/// Work items for the pump, and the mpv events it reacts to. Commands that
/// depend on an mpv property carry its current value.
#[derive(Debug, Clone, Copy, PartialEq, Eq, Structural)]
pub enum Command {
    /// Replace the list with `count` tracks and start at `index`; when
    /// shuffle is on the new list is shuffled with `seed`.
    PlayTracks { count: usize, index: usize, seed: u64 },
    /// Load track `index` of the list.
    Load(usize),
    /// Play/pause; `paused` is mpv's current pause flag.
    TogglePlay { paused: bool },
    Next,
    Prev,
    /// Set the volume (clamped to 0..=100).
    SetVolume(i64),
    /// Mute toggle; `muted` is mpv's current mute flag.
    ToggleMute { muted: bool },
    SetRepeat(RepeatMode),
    /// Turn shuffle on (a fresh order from `seed`) or off.
    SetShuffle { on: bool, seed: u64 },
    /// Re-shuffle the rest of the list around the playing track.
    Reshuffle { seed: u64 },
    /// Move the entry at play-order position `from` to `to`.
    Reorder { from: usize, to: usize },
    Stop,
    Refresh,
    /// mpv reported the end of the current file.
    EndFile(EndFileReason),
}

/// What the pump does with libmpv after a decision.
#[derive(Debug, Clone, Copy, PartialEq, Eq, Structural)]
pub enum Effect {
    Nothing,
    /// `loadfile` track `i` of the list, then publish the state.
    LoadFile(usize),
    /// Queue a `Load(i)` command for the pump's next command drain.
    EnqueueLoad(usize),
    /// `set pause`, then publish the state.
    SetPause(bool),
    /// `set volume`, then publish the state.
    SetVolume(i64),
    /// `set mute`, then publish the state.
    SetMute(bool),
    /// `stop`, then publish the state.
    StopPlayback,
    /// Publish the state.
    Emit,
    /// The list ended: publish a stopped, paused state without touching mpv.
    ReportStopped,
}

/// Transport state: the queue and whether the list ended (or was stopped).
pub struct Transport {
    pub queue: Queue,
    pub stopped: bool,
}

pub struct TransportModel {
    pub queue: QueueModel,
    pub stopped: bool,
}

impl View for Transport {
    type V = TransportModel;

    open spec fn view(&self) -> TransportModel {
        TransportModel { queue: self.queue@, stopped: self.stopped }
    }
}

pub open spec fn clamp_volume(v: i64) -> i64 {
    if v < 0 {
        0
    } else if v > 100 {
        100
    } else {
        v
    }
}

/// Loading track `i`: the queue moves to it and playback is no longer
/// stopped.
pub open spec fn load(t: TransportModel, i: usize) -> (TransportModel, Effect) {
    (TransportModel { queue: t.queue.start(i), stopped: false }, Effect::LoadFile(i))
}

/// The decision for one command.
pub open spec fn transition(t: TransportModel, c: Command) -> (TransportModel, Effect) {
    match c {
        Command::PlayTracks { count, index, seed } => if count == 0 {
            (t, Effect::Nothing)
        } else {
            let idx = if index < count {
                index
            } else {
                (count - 1) as usize
            };
            let fresh = QueueModel {
                len: count,
                index: None,
                repeat: RepeatMode::Off,
                shuffle: false,
                order: identity(count as nat),
            }.with_repeat(t.queue.repeat).start(idx);
            (
                TransportModel {
                    queue: if t.queue.shuffle {
                        fresh.with_shuffle(seed)
                    } else {
                        fresh
                    },
                    ..t
                },
                Effect::EnqueueLoad(idx),
            )
        },
        Command::Load(i) => load(t, i),
        Command::TogglePlay { paused } => if t.stopped {
            match t.queue.current() {
                Some(i) => load(t, i),
                None => (t, Effect::Nothing),
            }
        } else {
            (t, Effect::SetPause(!paused))
        },
        Command::Next => match t.queue.user_next() {
            Some(i) => load(t, i),
            None => (t, Effect::Emit),
        },
        Command::Prev => match t.queue.user_prev() {
            Some(i) => load(t, i),
            None => (t, Effect::Emit),
        },
        Command::SetVolume(v) => (t, Effect::SetVolume(clamp_volume(v))),
        Command::ToggleMute { muted } => (t, Effect::SetMute(!muted)),
        Command::SetRepeat(r) => (TransportModel { queue: t.queue.with_repeat(r), ..t }, Effect::Emit),
        Command::SetShuffle { on, seed } => (
            TransportModel {
                queue: if on {
                    t.queue.with_shuffle(seed)
                } else {
                    t.queue.with_shuffle_off()
                },
                ..t
            },
            Effect::Emit,
        ),
        Command::Reshuffle { seed } => (
            TransportModel { queue: t.queue.reshuffle(seed), ..t },
            Effect::Emit,
        ),
        Command::Reorder { from, to } => (
            TransportModel { queue: t.queue.reorder(from, to), ..t },
            Effect::Emit,
        ),
        Command::Stop => (TransportModel { stopped: true, ..t }, Effect::StopPlayback),
        Command::Refresh => (t, Effect::Emit),
        Command::EndFile(reason) => match reason {
            EndFileReason::Eof | EndFileReason::Error | EndFileReason::Redirect => {
                match t.queue.after_end() {
                    Some(i) => (t, Effect::EnqueueLoad(i)),
                    None => (TransportModel { stopped: true, ..t }, Effect::ReportStopped),
                }
            },
            _ => (t, Effect::Nothing),
        },
    }
}

impl Transport {
    /// Nothing queued, not stopped.
    pub fn new() -> (t: Transport)
        ensures
            t@ == (TransportModel {
                queue: QueueModel {
                    len: 0,
                    index: None,
                    repeat: RepeatMode::Off,
                    shuffle: false,
                    order: Seq::empty(),
                },
                stopped: false,
            }),
            t@.queue.wf(),
    {
        let queue = Queue::new(0);
        assert(queue@.order =~= Seq::<usize>::empty());
        Transport { queue, stopped: false }
    }

    fn load(&self, i: usize) -> (r: (Transport, Effect))
        requires
            self@.queue.wf(),
        ensures
            (r.0@, r.1) == load(self@, i),
            r.0@.queue.wf(),
    {
        (Transport { queue: self.queue.start(i), stopped: false }, Effect::LoadFile(i))
    }

    fn same(&self) -> (r: Transport)
        requires
            self@.queue.wf(),
        ensures
            r@ == self@,
            r@.queue.wf(),
    {
        Transport { queue: self.queue.with_repeat(self.queue.repeat), stopped: self.stopped }
    }

    /// Decide one command: the next transport state and the effect the pump
    /// performs.
    pub fn handle(&self, c: Command) -> (r: (Transport, Effect))
        requires
            self@.queue.wf(),
        ensures
            (r.0@, r.1) == transition(self@, c),
            r.0@.queue.wf(),
    {
        match c {
            Command::PlayTracks { count, index, seed } => {
                if count == 0 {
                    (self.same(), Effect::Nothing)
                } else {
                    let idx = if index < count {
                        index
                    } else {
                        count - 1
                    };
                    let fresh = Queue::new(count).with_repeat(self.queue.repeat).start(idx);
                    let q = if self.queue.shuffle {
                        fresh.with_shuffle(seed)
                    } else {
                        fresh
                    };
                    (Transport { queue: q, stopped: self.stopped }, Effect::EnqueueLoad(idx))
                }
            },
            Command::Load(i) => self.load(i),
            Command::TogglePlay { paused } => {
                if self.stopped {
                    match self.queue.current() {
                        Some(i) => self.load(i),
                        None => (self.same(), Effect::Nothing),
                    }
                } else {
                    (self.same(), Effect::SetPause(!paused))
                }
            },
            Command::Next => match self.queue.user_next() {
                Some(i) => self.load(i),
                None => (self.same(), Effect::Emit),
            },
            Command::Prev => match self.queue.user_prev() {
                Some(i) => self.load(i),
                None => (self.same(), Effect::Emit),
            },
            Command::SetVolume(v) => {
                let v = if v < 0 {
                    0
                } else if v > 100 {
                    100
                } else {
                    v
                };
                (self.same(), Effect::SetVolume(v))
            },
            Command::ToggleMute { muted } => (self.same(), Effect::SetMute(!muted)),
            Command::SetRepeat(r) => (
                Transport { queue: self.queue.with_repeat(r), stopped: self.stopped },
                Effect::Emit,
            ),
            Command::SetShuffle { on, seed } => {
                let q = if on {
                    self.queue.with_shuffle(seed)
                } else {
                    self.queue.with_shuffle_off()
                };
                (Transport { queue: q, stopped: self.stopped }, Effect::Emit)
            },
            Command::Reshuffle { seed } => (
                Transport { queue: self.queue.reshuffle(seed), stopped: self.stopped },
                Effect::Emit,
            ),
            Command::Reorder { from, to } => (
                Transport { queue: self.queue.reorder(from, to), stopped: self.stopped },
                Effect::Emit,
            ),
            Command::Stop => (
                Transport { queue: self.queue.with_repeat(self.queue.repeat), stopped: true },
                Effect::StopPlayback,
            ),
            Command::Refresh => (self.same(), Effect::Emit),
            Command::EndFile(reason) => match reason {
                EndFileReason::Eof | EndFileReason::Error | EndFileReason::Redirect => {
                    match self.queue.after_end() {
                        Some(i) => (self.same(), Effect::EnqueueLoad(i)),
                        None => (
                            Transport {
                                queue: self.queue.with_repeat(self.queue.repeat),
                                stopped: true,
                            },
                            Effect::ReportStopped,
                        ),
                    }
                },
                _ => (self.same(), Effect::Nothing),
            },
        }
    }
}


// ---------------------------------------------------------------------
// Laws
// ---------------------------------------------------------------------

/// Every decision keeps the queue well formed.
pub proof fn law_transitions_keep_queue_well_formed(t: TransportModel, c: Command)
    requires
        t.queue.wf(),
    ensures
        transition(t, c).0.queue.wf(),
{
    law_operations_keep_queue_well_formed(t.queue, 0, RepeatMode::Off, 0, 0, 0);
    match c {
        Command::PlayTracks { count, index, seed } => {
            if count > 0 {
                let idx = if index < count {
                    index
                } else {
                    (count - 1) as usize
                };
                let fresh = QueueModel {
                    len: count,
                    index: None,
                    repeat: RepeatMode::Off,
                    shuffle: false,
                    order: identity(count as nat),
                };
                assert forall|i: int, j: int| 0 <= i < j < count implies #[trigger] fresh.order[i]
                    != #[trigger] fresh.order[j] by {
                    assert(fresh.order[i] == i as usize);
                    assert(fresh.order[j] == j as usize);
                }
                law_operations_keep_queue_well_formed(fresh, idx, t.queue.repeat, 0, 0, 0);
                law_operations_keep_queue_well_formed(fresh.with_repeat(t.queue.repeat), idx, t.queue.repeat, 0, 0, 0);
                law_operations_keep_queue_well_formed(
                    fresh.with_repeat(t.queue.repeat).start(idx),
                    idx,
                    t.queue.repeat,
                    seed,
                    0,
                    0,
                );
            }
        },
        Command::Load(i) => law_operations_keep_queue_well_formed(t.queue, i, RepeatMode::Off, 0, 0, 0),
        Command::TogglePlay { .. } => {
            if let Some(i) = t.queue.current() {
                law_operations_keep_queue_well_formed(t.queue, i, RepeatMode::Off, 0, 0, 0);
            }
        },
        Command::Next => {
            if let Some(i) = t.queue.user_next() {
                law_operations_keep_queue_well_formed(t.queue, i, RepeatMode::Off, 0, 0, 0);
            }
        },
        Command::Prev => {
            if let Some(i) = t.queue.user_prev() {
                law_operations_keep_queue_well_formed(t.queue, i, RepeatMode::Off, 0, 0, 0);
            }
        },
        Command::SetRepeat(r) => law_operations_keep_queue_well_formed(t.queue, 0, r, 0, 0, 0),
        Command::SetShuffle { seed, .. } => law_operations_keep_queue_well_formed(
            t.queue,
            0,
            RepeatMode::Off,
            seed,
            0,
            0,
        ),
        Command::Reshuffle { seed } => law_operations_keep_queue_well_formed(
            t.queue,
            0,
            RepeatMode::Off,
            seed,
            0,
            0,
        ),
        Command::Reorder { from, to } => law_operations_keep_queue_well_formed(
            t.queue,
            0,
            RepeatMode::Off,
            0,
            from,
            to,
        ),
        _ => {},
    }
}

/// A manual stop, a quit or an unknown end reason never advances the
/// queue or touches mpv.
pub proof fn law_manual_end_never_advances(t: TransportModel, code: i32)
    ensures
        transition(t, Command::EndFile(EndFileReason::Stop)) == (t, Effect::Nothing),
        transition(t, Command::EndFile(EndFileReason::Quit)) == (t, Effect::Nothing),
        transition(t, Command::EndFile(EndFileReason::Other(code))) == (t, Effect::Nothing),
{
}

/// A file that fails to play (decode error, or unreadable input that mpv
/// reports as a redirect) moves the queue on exactly like a file that
/// played to its end.
pub proof fn law_failed_file_is_skipped_like_finished(t: TransportModel)
    ensures
        transition(t, Command::EndFile(EndFileReason::Error)) == transition(
            t,
            Command::EndFile(EndFileReason::Eof),
        ),
        transition(t, Command::EndFile(EndFileReason::Redirect)) == transition(
            t,
            Command::EndFile(EndFileReason::Eof),
        ),
{
}

/// When the last track of the list ends with repeat off, playback stops
/// on that track (the queue is unchanged); with repeat all the first track
/// of the order is loaded next; with repeat one the same track again.
pub proof fn law_end_of_last_track(t: TransportModel)
    requires
        t.queue.wf(),
        t.queue.len > 0,
        t.queue.index == Some((t.queue.len - 1) as usize),
    ensures
        t.queue.repeat == RepeatMode::Off ==> transition(t, Command::EndFile(EndFileReason::Eof))
            == (TransportModel { stopped: true, ..t }, Effect::ReportStopped),
        t.queue.repeat == RepeatMode::All ==> transition(t, Command::EndFile(EndFileReason::Eof))
            == (t, Effect::EnqueueLoad(t.queue.order[0])),
        t.queue.repeat == RepeatMode::One ==> transition(t, Command::EndFile(EndFileReason::Eof))
            == (t, Effect::EnqueueLoad(t.queue.order[t.queue.len - 1])),
{
}

/// Play/pause after the list ended restarts the selected track from the
/// beginning instead of toggling mpv's pause flag.
pub proof fn law_toggle_after_stop_restarts_current(t: TransportModel, paused: bool)
    requires
        t.queue.wf(),
        t.stopped,
        t.queue.index is Some,
    ensures
        transition(t, Command::TogglePlay { paused }).1 == Effect::LoadFile(
            t.queue.current().unwrap(),
        ),
        !transition(t, Command::TogglePlay { paused }).0.stopped,
        transition(t, Command::TogglePlay { paused }).0.queue.current() == t.queue.current(),
{
    law_operations_keep_queue_well_formed(t.queue, t.queue.current().unwrap(), RepeatMode::Off, 0, 0, 0);
    crate::queue::law_start_selects_the_requested_track(t.queue, t.queue.current().unwrap());
}

/// Editing the queue while it plays (turning shuffle on or off,
/// re-shuffling, moving an entry) never changes the playing track, never
/// touches mpv beyond publishing the state, and keeps the stopped flag.
pub proof fn law_queue_edits_keep_current_track(
    t: TransportModel,
    on: bool,
    seed: u64,
    from: usize,
    to: usize,
)
    requires
        t.queue.wf(),
    ensures
        transition(t, Command::SetShuffle { on, seed }).0.queue.current() == t.queue.current(),
        transition(t, Command::SetShuffle { on, seed }).0.queue.shuffle == on,
        transition(t, Command::Reshuffle { seed }).0.queue.current() == t.queue.current(),
        transition(t, Command::Reorder { from, to }).0.queue.current() == t.queue.current(),
        transition(t, Command::SetShuffle { on, seed }).1 == Effect::Emit,
        transition(t, Command::Reshuffle { seed }).1 == Effect::Emit,
        transition(t, Command::Reorder { from, to }).1 == Effect::Emit,
        transition(t, Command::SetShuffle { on, seed }).0.stopped == t.stopped,
        transition(t, Command::Reshuffle { seed }).0.stopped == t.stopped,
        transition(t, Command::Reorder { from, to }).0.stopped == t.stopped,
{
    crate::queue::law_shuffling_keeps_current_track(t.queue, seed);
    crate::queue::law_reorder_keeps_current_track(t.queue, from, to);
}

/// With shuffle on, playing a new list keeps shuffle on and starts the
/// requested track at the front of the new order, so "next" walks the
/// whole new list.
pub proof fn law_play_tracks_keeps_shuffle(t: TransportModel, count: usize, index: usize, seed: u64)
    requires
        t.queue.wf(),
        t.queue.shuffle,
        count > 0,
        index < count,
    ensures
        transition(t, Command::PlayTracks { count, index, seed }).0.queue.shuffle,
        transition(t, Command::PlayTracks { count, index, seed }).0.queue.index == Some(0usize),
        transition(t, Command::PlayTracks { count, index, seed }).0.queue.current() == Some(index),
        transition(t, Command::PlayTracks { count, index, seed }).1 == Effect::EnqueueLoad(index),
{
    let fresh = QueueModel {
        len: count,
        index: None,
        repeat: RepeatMode::Off,
        shuffle: false,
        order: identity(count as nat),
    };
    law_transitions_keep_queue_well_formed(t, Command::PlayTracks { count, index, seed });
    assert forall|i: int, j: int| 0 <= i < j < count implies #[trigger] fresh.order[i]
        != #[trigger] fresh.order[j] by {
        assert(fresh.order[i] == i as usize);
        assert(fresh.order[j] == j as usize);
    }
    let started = fresh.with_repeat(t.queue.repeat).start(index);
    crate::queue::law_start_selects_the_requested_track(fresh.with_repeat(t.queue.repeat), index);
    crate::queue::law_shuffling_keeps_current_track(started, seed);
}

/// "Next" and "previous" from the user always move along the play order,
/// whatever the repeat mode: from position `p`, "next" loads the entry at
/// `p + 1` and "previous" the entry at `p - 1`, the queue moves to that
/// position and playback is no longer stopped. At the last position "next"
/// wraps to the front only with repeat all and otherwise changes nothing;
/// at the first position "previous" wraps to the back. Repeat one loops the
/// playing entry only when its file plays to the end. With nothing
/// selected neither move changes anything.
pub proof fn law_user_moves_follow_the_play_order(t: TransportModel)
    requires
        t.queue.wf(),
    ensures
        t.queue.index is None ==> transition(t, Command::Next) == (t, Effect::Emit) && transition(
            t,
            Command::Prev,
        ) == (t, Effect::Emit),
        t.queue.index matches Some(p) ==> {
            &&& p + 1 < t.queue.len ==> {
                let (n, e) = transition(t, Command::Next);
                &&& e == Effect::LoadFile(t.queue.order[p + 1])
                &&& n.queue.index == Some((p + 1) as usize)
                &&& n.queue.current() == Some(t.queue.order[p + 1])
                &&& n.queue.order == t.queue.order
                &&& n.queue.repeat == t.queue.repeat
                &&& !n.stopped
            }
            &&& p + 1 == t.queue.len && t.queue.repeat == RepeatMode::All ==> {
                let (n, e) = transition(t, Command::Next);
                &&& e == Effect::LoadFile(t.queue.order[0])
                &&& n.queue.index == Some(0usize)
                &&& !n.stopped
            }
            &&& p + 1 == t.queue.len && t.queue.repeat != RepeatMode::All ==> transition(
                t,
                Command::Next,
            ) == (t, Effect::Emit)
            &&& p > 0 ==> {
                let (n, e) = transition(t, Command::Prev);
                &&& e == Effect::LoadFile(t.queue.order[p - 1])
                &&& n.queue.index == Some((p - 1) as usize)
                &&& n.queue.current() == Some(t.queue.order[p - 1])
                &&& n.queue.order == t.queue.order
                &&& !n.stopped
            }
            &&& p == 0 ==> {
                let (n, e) = transition(t, Command::Prev);
                &&& e == Effect::LoadFile(t.queue.order[t.queue.len - 1])
                &&& n.queue.index == Some((t.queue.len - 1) as usize)
                &&& !n.stopped
            }
            &&& t.queue.repeat == RepeatMode::One ==> transition(
                t,
                Command::EndFile(EndFileReason::Eof),
            ) == (t, Effect::EnqueueLoad(t.queue.order[p as int]))
        },
{
    crate::queue::law_moves_follow_the_play_order(t.queue);
}

/// The volume handed to mpv is always within 0..=100.
pub proof fn law_volume_in_range(t: TransportModel, v: i64)
    ensures
        transition(t, Command::SetVolume(v)).1 matches Effect::SetVolume(x) && 0 <= x <= 100,
        0 <= v <= 100 ==> transition(t, Command::SetVolume(v)).1 == Effect::SetVolume(v),
{
}

} // verus!
