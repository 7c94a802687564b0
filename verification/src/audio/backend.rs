//! Audio output backends as state machines: configured and running, or
//! stopped. The sample data itself never reaches these types; a backend
//! only learns how many samples were submitted.

use vstd::prelude::*;

verus! {

/// How to set up an audio backend.
#[derive(Clone, Copy, Debug, PartialEq, Eq, Structural)]
pub struct BackendConfig {
    /// Samples per second per channel.
    pub sample_rate: u32,
    /// Output channels, 2 for stereo.
    pub channels: u32,
    /// Output buffer size in frames.
    pub buffer_size: u32,
}

impl Default for BackendConfig {
    fn default() -> (c: Self)
        ensures
            c.sample_rate == 48000,
            c.channels == 2,
            c.buffer_size == 1024,
    {
        BackendConfig { sample_rate: 48000, channels: 2, buffer_size: 1024 }
    }
}

/// Why a backend operation failed.
#[derive(Clone, Debug, PartialEq)]
pub enum BackendError {
    InitFailed(String),
    /// The backend is not running.
    NotInitialized,
    SubmitFailed(String),
    /// `init` was called on a running backend.
    AlreadyRunning,
    Unsupported,
}

/// A backend that discards its output, for tests and headless runs. It
/// counts the frames submitted to it.
pub struct NullBackend {
    config: Option<BackendConfig>,
    running: bool,
    /// Frames submitted so far.
    pub frames_submitted: u64,
}

impl NullBackend {
    /// The configuration while running, `None` while stopped.
    pub closed spec fn config_view(&self) -> Option<BackendConfig> {
        self.config
    }

    pub closed spec fn running_view(&self) -> bool {
        self.running
    }

    pub closed spec fn frames_view(&self) -> u64 {
        self.frames_submitted
    }

    /// A backend runs exactly while it holds a configuration.
    pub open spec fn wf(&self) -> bool {
        self.running_view() == (self.config_view() is Some)
    }

    pub fn new() -> (b: Self)
        ensures
            b.wf(),
            !b.running_view(),
            b.frames_view() == 0,
    {
        NullBackend { config: None, running: false, frames_submitted: 0 }
    }

    /// Start with `config`; a running backend refuses.
    pub fn init(&mut self, config: BackendConfig) -> (r: Result<(), BackendError>)
        requires
            old(self).wf(),
        ensures
            final(self).wf(),
            final(self).frames_view() == old(self).frames_view(),
            old(self).running_view() ==> r == Err::<(), BackendError>(BackendError::AlreadyRunning)
                && final(self).config_view() == old(self).config_view(),
            !old(self).running_view() ==> r is Ok && final(self).config_view() == Some(config),
    {
        if self.running {
            return Err(BackendError::AlreadyRunning);
        }
        self.config = Some(config);
        self.running = true;
        Ok(())
    }

    /// Account for `sample_count` interleaved samples: whole frames of the
    /// configured channel count are added to the count.
    pub fn submit_samples(&mut self, sample_count: usize) -> (r: Result<(), BackendError>)
        requires
            old(self).wf(),
            match old(self).config_view() {
                Some(c) => c.channels > 0 ==> old(self).frames_view() + (sample_count as int) / (c.channels as int) <= u64::MAX,
                None => true,
            },
        ensures
            final(self).wf(),
            final(self).config_view() == old(self).config_view(),
            !old(self).running_view() ==> r == Err::<(), BackendError>(BackendError::NotInitialized)
                && final(self).frames_view() == old(self).frames_view(),
            old(self).running_view() ==> r is Ok && final(self).frames_view() == old(self).frames_view()
                + match old(self).config_view() {
                Some(c) => if c.channels > 0 { (sample_count as int) / (c.channels as int) } else { 0 },
                None => 0,
            },
    {
        if !self.running {
            return Err(BackendError::NotInitialized);
        }
        let channels = match self.config {
            Some(c) => c.channels as usize,
            None => 0,
        };
        if channels > 0 {
            self.frames_submitted = self.frames_submitted + (sample_count / channels) as u64;
        }
        Ok(())
    }

    /// Stop; a stopped backend refuses.
    pub fn shutdown(&mut self) -> (r: Result<(), BackendError>)
        requires
            old(self).wf(),
        ensures
            final(self).wf(),
            !final(self).running_view(),
            final(self).frames_view() == old(self).frames_view(),
            old(self).running_view() ==> r is Ok,
            !old(self).running_view() ==> r == Err::<(), BackendError>(BackendError::NotInitialized),
    {
        if !self.running {
            return Err(BackendError::NotInitialized);
        }
        self.running = false;
        self.config = None;
        Ok(())
    }

    /// The configured sample rate, 0 while stopped.
    pub fn sample_rate(&self) -> (r: u32)
        ensures
            r == match self.config_view() {
                Some(c) => c.sample_rate,
                None => 0,
            },
    {
        match self.config {
            Some(c) => c.sample_rate,
            None => 0,
        }
    }

    pub fn is_running(&self) -> (r: bool)
        ensures
            r == self.running_view(),
    {
        self.running
    }
}

impl Default for NullBackend {
    fn default() -> (b: Self)
        ensures
            b.wf(),
            !b.running_view(),
            b.frames_view() == 0,
    {
        NullBackend::new()
    }
}

/// The web backend; it holds no audio context here, so submitting only
/// checks that it runs.
pub struct WasmBackend {
    config: Option<BackendConfig>,
    running: bool,
}

impl WasmBackend {
    pub closed spec fn config_view(&self) -> Option<BackendConfig> {
        self.config
    }

    pub closed spec fn running_view(&self) -> bool {
        self.running
    }

    pub open spec fn wf(&self) -> bool {
        self.running_view() == (self.config_view() is Some)
    }

    pub fn new() -> (b: Self)
        ensures
            b.wf(),
            !b.running_view(),
    {
        WasmBackend { config: None, running: false }
    }

    pub fn init(&mut self, config: BackendConfig) -> (r: Result<(), BackendError>)
        requires
            old(self).wf(),
        ensures
            final(self).wf(),
            old(self).running_view() ==> r == Err::<(), BackendError>(BackendError::AlreadyRunning)
                && final(self).config_view() == old(self).config_view(),
            !old(self).running_view() ==> r is Ok && final(self).config_view() == Some(config),
    {
        if self.running {
            return Err(BackendError::AlreadyRunning);
        }
        self.config = Some(config);
        self.running = true;
        Ok(())
    }

    pub fn submit_samples(&mut self, sample_count: usize) -> (r: Result<(), BackendError>)
        requires
            old(self).wf(),
        ensures
            final(self).wf(),
            final(self).config_view() == old(self).config_view(),
            old(self).running_view() ==> r is Ok,
            !old(self).running_view() ==> r == Err::<(), BackendError>(BackendError::NotInitialized),
    {
        if !self.running {
            return Err(BackendError::NotInitialized);
        }
        Ok(())
    }

    pub fn shutdown(&mut self) -> (r: Result<(), BackendError>)
        requires
            old(self).wf(),
        ensures
            final(self).wf(),
            !final(self).running_view(),
            old(self).running_view() ==> r is Ok,
            !old(self).running_view() ==> r == Err::<(), BackendError>(BackendError::NotInitialized),
    {
        if !self.running {
            return Err(BackendError::NotInitialized);
        }
        self.running = false;
        self.config = None;
        Ok(())
    }

    pub fn sample_rate(&self) -> (r: u32)
        ensures
            r == match self.config_view() {
                Some(c) => c.sample_rate,
                None => 0,
            },
    {
        match self.config {
            Some(c) => c.sample_rate,
            None => 0,
        }
    }

    pub fn is_running(&self) -> (r: bool)
        ensures
            r == self.running_view(),
    {
        self.running
    }
}

impl Default for WasmBackend {
    fn default() -> (b: Self)
        ensures
            b.wf(),
            !b.running_view(),
    {
        WasmBackend::new()
    }
}

/// An output that discards all samples and only tracks whether it plays.
pub struct NullAudioOutput {
    is_playing: bool,
}

impl NullAudioOutput {
    pub closed spec fn playing(&self) -> bool {
        self.is_playing
    }

    /// A new output plays.
    pub fn new() -> (o: Self)
        ensures
            o.playing(),
    {
        NullAudioOutput { is_playing: true }
    }

    pub fn pause(&mut self)
        ensures
            !final(self).playing(),
    {
        self.is_playing = false;
    }

    pub fn resume(&mut self)
        ensures
            final(self).playing(),
    {
        self.is_playing = true;
    }

    pub fn is_playing(&self) -> (r: bool)
        ensures
            r == self.playing(),
    {
        self.is_playing
    }
}

impl Default for NullAudioOutput {
    fn default() -> (o: Self)
        ensures
            o.playing(),
    {
        NullAudioOutput::new()
    }
}

} // verus!
