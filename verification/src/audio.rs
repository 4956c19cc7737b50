//! The sizes that govern writing samples into the buffer of an audio device.

use vstd::prelude::*;

verus! {

/// The format of an audio stream and the size of the device buffer that it
/// is written to.
///
/// The device hands out its buffer in frames. A frame holds one sample for
/// each channel.
#[derive(Clone, Copy, Debug, PartialEq, Eq, Structural)]
pub struct AudioSource {
    max_frames_in_buffer: u32,
    bytes_per_frame: u32,
    bytes_per_sample: u32,
    samples_per_second: u32,
}

impl AudioSource {
    /// A frame and a sample have a size.
    #[verifier::type_invariant]
    spec fn sized(&self) -> bool {
        self.bytes_per_frame > 0 && self.bytes_per_sample > 0
    }

    /// The number of frames that the device buffer holds.
    pub closed spec fn capacity(&self) -> int {
        self.max_frames_in_buffer as int
    }

    /// The size of a frame in bytes.
    pub closed spec fn frame_size(&self) -> int {
        self.bytes_per_frame as int
    }

    /// The size of a sample in bytes.
    pub closed spec fn sample_size(&self) -> int {
        self.bytes_per_sample as int
    }

    /// The number of samples played in a second.
    pub closed spec fn rate(&self) -> int {
        self.samples_per_second as int
    }

    /// The source for a buffer of `max_frames_in_buffer` frames, or `None`
    /// if a frame or a sample is given no size.
    pub fn new(
        max_frames_in_buffer: u32,
        bytes_per_frame: u32,
        bytes_per_sample: u32,
        samples_per_second: u32,
    ) -> (source: Option<AudioSource>)
        ensures
            source is Some <==> bytes_per_frame > 0 && bytes_per_sample > 0,
            source matches Some(s) ==> s.capacity() == max_frames_in_buffer && s.frame_size()
                == bytes_per_frame && s.sample_size() == bytes_per_sample && s.rate()
                == samples_per_second,
    {
        if bytes_per_frame == 0 || bytes_per_sample == 0 {
            None
        } else {
            Some(
                AudioSource {
                    max_frames_in_buffer,
                    bytes_per_frame,
                    bytes_per_sample,
                    samples_per_second,
                },
            )
        }
    }

    /// Returns the number of frames that the device buffer holds.
    pub fn max_frames_in_buffer(&self) -> (frames: u32)
        ensures
            frames == self.capacity(),
    {
        self.max_frames_in_buffer
    }

    /// Returns the size of a frame in bytes.
    pub fn bytes_per_frame(&self) -> (bytes: u32)
        ensures
            bytes == self.frame_size(),
            bytes > 0,
    {
        proof {
            use_type_invariant(self);
        }
        self.bytes_per_frame
    }

    /// Returns the size of a sample in bytes.
    pub fn bytes_per_sample(&self) -> (bytes: u32)
        ensures
            bytes == self.sample_size(),
            bytes > 0,
    {
        proof {
            use_type_invariant(self);
        }
        self.bytes_per_sample
    }

    /// Returns the number of samples played in a second.
    pub fn samples_per_second(&self) -> (rate: u32)
        ensures
            rate == self.rate(),
    {
        self.samples_per_second
    }

    /// The number of frames to ask the device for: the frames that are free
    /// while `padding` frames wait to be played, but no more than
    /// `max_samples` samples fill.
    pub fn frames_available(&self, padding: u32, max_samples: u32) -> (frames: u32)
        requires
            padding <= self.capacity(),
            max_samples * self.sample_size() <= u32::MAX,
        ensures
            frames == if self.capacity() - padding <= max_samples * self.sample_size()
                / self.frame_size() {
                self.capacity() - padding
            } else {
                max_samples * self.sample_size() / self.frame_size()
            },
    {
        proof {
            use_type_invariant(self);
        }
        let free = self.max_frames_in_buffer - padding;
        assert(max_samples * self.bytes_per_sample <= u32::MAX);
        let wanted = max_samples * self.bytes_per_sample / self.bytes_per_frame;
        if free <= wanted {
            free
        } else {
            wanted
        }
    }

    /// The number of samples that `frames` frames of the buffer hold.
    pub fn samples_in(&self, frames: u32) -> (samples: u64)
        ensures
            samples == frames * self.frame_size() / self.sample_size(),
    {
        proof {
            use_type_invariant(self);
        }
        assert(frames * self.bytes_per_frame <= 0xffff_ffff * 0xffff_ffff) by (nonlinear_arith)
            requires
                frames <= 0xffff_ffff,
                self.bytes_per_frame <= 0xffff_ffff,
        ;
        (frames as u64 * self.bytes_per_frame as u64) / self.bytes_per_sample as u64
    }

    /// The number of whole frames that `samples` written samples fill.
    pub fn frames_written(&self, samples: u32) -> (frames: u64)
        ensures
            frames == samples * self.sample_size() / self.frame_size(),
    {
        proof {
            use_type_invariant(self);
        }
        assert(samples * self.bytes_per_sample <= 0xffff_ffff * 0xffff_ffff) by (nonlinear_arith)
            requires
                samples <= 0xffff_ffff,
                self.bytes_per_sample <= 0xffff_ffff,
        ;
        (samples as u64 * self.bytes_per_sample as u64) / self.bytes_per_frame as u64
    }
}

} // verus!
