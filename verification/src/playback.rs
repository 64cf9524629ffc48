//! Playback transport: the position in the loaded audio, play/pause/stop,
//! seeking and repeat, and which sample each output frame of the audio
//! callback plays.
use vstd::prelude::*;

verus! {

/// Whether audio is playing.
#[derive(Debug, Clone, Copy, PartialEq, Eq, Structural)]
pub enum PlaybackState {
    Stopped,
    Playing,
    Paused,
}

/// The shared playback state read by the audio callback: how many samples
/// are loaded, where playback is, and how it behaves at the end.
pub struct PlaybackData {
    num_samples: usize,
    sample_rate: u32,
    position: usize,
    state: PlaybackState,
    repeat: bool,
    end_sample: usize,
    is_seeking: bool,
}

/// Abstract playback state.
pub struct PlaybackModel {
    pub num_samples: nat,
    pub sample_rate: u32,
    pub position: nat,
    pub state: PlaybackState,
    pub repeat: bool,
    pub end_sample: nat,
    pub is_seeking: bool,
}

/// What one output frame does: the model after the frame, and the index of
/// the sample it plays (`None` for silence). At the end of the playable
/// range playback wraps to the start when repeating; stays put, silent,
/// while the user is seeking; and otherwise rewinds and pauses.
pub open spec fn frame_step(m: PlaybackModel) -> (PlaybackModel, Option<nat>) {
    let (m1, silent) = if m.position >= m.end_sample {
        if m.repeat {
            (PlaybackModel { position: 0, ..m }, false)
        } else if m.is_seeking {
            (m, true)
        } else {
            (PlaybackModel { position: 0, state: PlaybackState::Paused, ..m }, true)
        }
    } else {
        (m, false)
    };
    if silent {
        (m1, None)
    } else if m1.position < m1.num_samples {
        (PlaybackModel { position: m1.position + 1, ..m1 }, Some(m1.position))
    } else {
        (m1, None)
    }
}

/// The model after `k` frames, and the samples they play.
pub open spec fn frames_from(m: PlaybackModel, k: nat) -> (PlaybackModel, Seq<Option<nat>>)
    decreases k,
{
    if k == 0 {
        (m, Seq::empty())
    } else {
        let prev = frames_from(m, (k - 1) as nat);
        let step = frame_step(prev.0);
        (step.0, prev.1.push(step.1))
    }
}

impl View for PlaybackData {
    type V = PlaybackModel;

    closed spec fn view(&self) -> PlaybackModel {
        PlaybackModel {
            num_samples: self.num_samples as nat,
            sample_rate: self.sample_rate,
            position: self.position as nat,
            state: self.state,
            repeat: self.repeat,
            end_sample: self.end_sample as nat,
            is_seeking: self.is_seeking,
        }
    }
}

/// The playable range is the loaded audio, and the position lies within it.
pub open spec fn playback_wf(m: PlaybackModel) -> bool {
    m.position <= m.end_sample && m.end_sample == m.num_samples
}

/// Optional sample indices as spec values.
pub open spec fn index_views(v: Seq<Option<usize>>) -> Seq<Option<nat>> {
    v.map_values(|o: Option<usize>| match o {
        Some(i) => Some(i as nat),
        None => None,
    })
}

impl PlaybackData {
    #[verifier::type_invariant]
    spec fn inv(self) -> bool {
        playback_wf(self@)
    }

    /// Nothing loaded, stopped at the start, 48 kHz.
    pub fn new() -> (d: Self)
        ensures
            d@ == (PlaybackModel {
                num_samples: 0,
                sample_rate: 48000,
                position: 0,
                state: PlaybackState::Stopped,
                repeat: false,
                end_sample: 0,
                is_seeking: false,
            }),
    {
        PlaybackData {
            num_samples: 0,
            sample_rate: 48000,
            position: 0,
            state: PlaybackState::Stopped,
            repeat: false,
            end_sample: 0,
            is_seeking: false,
        }
    }

    /// Loads `num_samples` samples at `sample_rate`: playback stops, the
    /// position returns to the start, and the whole audio becomes playable.
    pub fn load(&mut self, num_samples: usize, sample_rate: u32)
        ensures
            final(self)@ == (PlaybackModel {
                num_samples: num_samples as nat,
                sample_rate,
                position: 0,
                state: PlaybackState::Stopped,
                end_sample: num_samples as nat,
                ..old(self)@
            }),
    {
        proof {
            use_type_invariant(&*self);
        }
        *self = PlaybackData {
            num_samples,
            sample_rate,
            position: 0,
            state: PlaybackState::Stopped,
            repeat: self.repeat,
            end_sample: num_samples,
            is_seeking: self.is_seeking,
        };
    }

    /// Starts (or resumes) playing.
    pub fn play(&mut self)
        ensures
            final(self)@ == (PlaybackModel { state: PlaybackState::Playing, ..old(self)@ }),
    {
        proof {
            use_type_invariant(&*self);
        }
        self.state = PlaybackState::Playing;
    }

    /// Pauses, keeping the position.
    pub fn pause(&mut self)
        ensures
            final(self)@ == (PlaybackModel { state: PlaybackState::Paused, ..old(self)@ }),
    {
        proof {
            use_type_invariant(&*self);
        }
        self.state = PlaybackState::Paused;
    }

    /// Stops and returns to the start.
    pub fn stop(&mut self)
        ensures
            final(self)@ == (PlaybackModel {
                state: PlaybackState::Stopped,
                position: 0,
                ..old(self)@
            }),
    {
        proof {
            use_type_invariant(&*self);
        }
        self.state = PlaybackState::Stopped;
        self.position = 0;
    }

    /// Moves to `sample`, or to the end of the playable range if it lies
    /// beyond it.
    pub fn seek_to_sample(&mut self, sample: usize)
        ensures
            final(self)@ == (PlaybackModel {
                position: if sample as nat <= old(self)@.end_sample {
                    sample as nat
                } else {
                    old(self)@.end_sample
                },
                ..old(self)@
            }),
    {
        proof {
            use_type_invariant(&*self);
        }
        self.position = if sample < self.end_sample { sample } else { self.end_sample };
    }

    /// Marks whether the user is dragging the playback cursor; while so,
    /// reaching the end does not pause.
    pub fn set_seeking(&mut self, seeking: bool)
        ensures
            final(self)@ == (PlaybackModel { is_seeking: seeking, ..old(self)@ }),
    {
        proof {
            use_type_invariant(&*self);
        }
        self.is_seeking = seeking;
    }

    /// Turns repeat on or off.
    pub fn set_repeat(&mut self, repeat: bool)
        ensures
            final(self)@ == (PlaybackModel { repeat, ..old(self)@ }),
    {
        proof {
            use_type_invariant(&*self);
        }
        self.repeat = repeat;
    }

    /// The playback state.
    pub fn get_state(&self) -> (s: PlaybackState)
        ensures
            s == self@.state,
    {
        self.state
    }

    /// The position, in samples.
    pub fn get_position_samples(&self) -> (p: usize)
        ensures
            p == self@.position,
    {
        self.position
    }

    /// The sample rate of the loaded audio.
    pub fn sample_rate(&self) -> (r: u32)
        ensures
            r == self@.sample_rate,
    {
        self.sample_rate
    }

    /// Whether any audio is loaded.
    pub fn has_audio(&self) -> (b: bool)
        ensures
            b == (self@.num_samples > 0),
    {
        self.num_samples != 0
    }

    /// Advances playback by one output frame and returns the index of the
    /// sample to play, or `None` for silence.
    pub fn next_frame(&mut self) -> (idx: Option<usize>)
        ensures
            final(self)@ == frame_step(old(self)@).0,
            index_views(seq![idx]) == seq![frame_step(old(self)@).1],
            idx matches Some(i) ==> i < old(self)@.num_samples,
    {
        proof {
            use_type_invariant(&*self);
        }
        if self.position >= self.end_sample {
            if self.repeat {
                self.position = 0;
            } else if self.is_seeking {
                assert(index_views(seq![None::<usize>]) =~= seq![None::<nat>]);
                return None;
            } else {
                self.position = 0;
                self.state = PlaybackState::Paused;
                assert(index_views(seq![None::<usize>]) =~= seq![None::<nat>]);
                return None;
            }
        }
        if self.position < self.num_samples {
            let i = self.position;
            self.position = i + 1;
            assert(index_views(seq![Some(i)]) =~= seq![Some(i as nat)]);
            Some(i)
        } else {
            assert(index_views(seq![None::<usize>]) =~= seq![None::<nat>]);
            None
        }
    }

    /// The samples to play for an output buffer of `count` frames: silence
    /// throughout unless playing; otherwise one `next_frame` per frame (the
    /// state is consulted once per buffer, as the audio callback does).
    pub fn fill_frames(&mut self, count: usize) -> (out: Vec<Option<usize>>)
        ensures
            out.len() == count,
            old(self)@.state != PlaybackState::Playing ==> final(self)@ == old(self)@ && forall|
                i: int,
            |
                0 <= i < count ==> #[trigger] out@[i] is None,
            old(self)@.state == PlaybackState::Playing ==> final(self)@ == frames_from(
                old(self)@,
                count as nat,
            ).0 && index_views(out@) == frames_from(old(self)@, count as nat).1,
            forall|i: int|
                0 <= i < count ==> (#[trigger] out@[i] matches Some(j) ==> j
                    < old(self)@.num_samples),
    {
        let mut out: Vec<Option<usize>> = Vec::new();
        if self.state != PlaybackState::Playing {
            let mut k: usize = 0;
            while k < count
                invariant
                    k <= count,
                    out.len() == k,
                    forall|i: int| 0 <= i < k ==> #[trigger] out@[i] is None,
                decreases count - k,
            {
                out.push(None);
                k = k + 1;
            }
            return out;
        }
        let ghost start = self@;
        let mut k: usize = 0;
        while k < count
            invariant
                k <= count,
                out.len() == k,
                self@ == frames_from(start, k as nat).0,
                index_views(out@) == frames_from(start, k as nat).1,
                self@.num_samples == start.num_samples,
                forall|i: int|
                    0 <= i < k ==> (#[trigger] out@[i] matches Some(j) ==> j < start.num_samples),
            decreases count - k,
        {
            let ghost before = out@;
            let idx = self.next_frame();
            out.push(idx);
            proof {
                assert(out@ == before.push(idx));
                assert(index_views(out@) =~= index_views(before) + index_views(seq![idx]));
                assert(index_views(out@) =~= index_views(before).push(
                    frames_from(start, (k + 1) as nat).1.last(),
                ));
            }
            k = k + 1;
        }
        out
    }
}

/// What the transport bar shows: playback position and length of the
/// reconstructed audio.
#[derive(Debug, Clone)]
pub struct TransportState {
    /// Current playback position in samples (reconstruction start plus the
    /// position within the reconstruction).
    pub position_samples: usize,
    /// Length of the reconstructed audio in samples.
    pub duration_samples: usize,
    /// Sample rate used to show times in seconds.
    pub sample_rate: u32,
    pub is_playing: bool,
    pub repeat: bool,
}

impl Default for TransportState {
    fn default() -> (t: Self)
        ensures
            t.position_samples == 0,
            t.duration_samples == 0,
            t.sample_rate == 48000,
            !t.is_playing,
            !t.repeat,
    {
        TransportState {
            position_samples: 0,
            duration_samples: 0,
            sample_rate: 48000,
            is_playing: false,
            repeat: false,
        }
    }
}

/// Playing with repeat on never pauses at the end of the audio: every frame
/// keeps the playback state.
pub proof fn lemma_repeat_never_pauses(m: PlaybackModel)
    requires
        m.repeat,
    ensures
        frame_step(m).0.state == m.state,
        frame_step(m).0.repeat,
{
}

/// Without repeat and without seeking, a frame at the end of the playable
/// range rewinds to the start, pauses, and is silent.
pub proof fn lemma_end_rewinds_and_pauses(m: PlaybackModel)
    requires
        !m.repeat,
        !m.is_seeking,
        m.position >= m.end_sample,
    ensures
        frame_step(m).0.position == 0,
        frame_step(m).0.state == PlaybackState::Paused,
        frame_step(m).1 is None,
{
}

/// Every frame keeps the playback invariant, and a frame that plays a
/// sample plays the one at the position and moves past it.
pub proof fn lemma_frame_step_wf(m: PlaybackModel)
    requires
        playback_wf(m),
    ensures
        playback_wf(frame_step(m).0),
        frame_step(m).1 matches Some(i) ==> i < m.num_samples && frame_step(m).0.position == i
            + 1,
{
}

} // verus!
