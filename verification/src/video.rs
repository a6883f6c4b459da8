//! The place of a run in the frames of a video.
//!
//! Opening the video and reading a frame belong to the caller. What is
//! decided here is which frames a run covers and when it is over.

use vstd::prelude::*;

use crate::error::PaletteError;

verus! {

/// A forward-only walk over the frames of a video from `frame_number` up
/// to, and not including, `end_frame`.
#[derive(Clone, Copy, Debug, PartialEq, Eq, Structural)]
pub struct VideoFrameIterator {
    pub end_frame: u64,
    pub frame_number: u64,
}

impl VideoFrameIterator {
    /// The frames still to come: those from `frame_number` up to
    /// `end_frame`.
    pub open spec fn remaining(self) -> int {
        if self.frame_number < self.end_frame {
            self.end_frame - self.frame_number
        } else {
            0
        }
    }

    /// The walk over a video of `total_frames` frames, from `start_frame`,
    /// or from the first frame, up to `end_frame`, or to the end of the
    /// video.
    ///
    /// A video without frames gives `SourceOpen`. Every range is taken as
    /// it is given: a walk whose start lies at or behind its end yields no
    /// frame.
    pub fn new(total_frames: u64, start_frame: Option<u64>, end_frame: Option<u64>) -> (result:
        Result<VideoFrameIterator, PaletteError>)
        ensures
            total_frames == 0 ==> result == Err::<VideoFrameIterator, PaletteError>(
                PaletteError::SourceOpen,
            ),
            total_frames > 0 ==> result == Ok::<VideoFrameIterator, PaletteError>(
                VideoFrameIterator {
                    end_frame: match end_frame {
                        Some(frame) => frame,
                        None => total_frames,
                    },
                    frame_number: match start_frame {
                        Some(frame) => frame,
                        None => 0,
                    },
                },
            ),
    {
        if total_frames == 0 {
            return Err(PaletteError::SourceOpen);
        }
        let frame_number: u64 = match start_frame {
            Some(frame) => frame,
            None => 0,
        };
        let end_frame: u64 = match end_frame {
            Some(frame) => frame,
            None => total_frames,
        };
        Ok(VideoFrameIterator { end_frame, frame_number })
    }

    /// The number of frames still to come.
    pub fn frames_left(&self) -> (left: u64)
        ensures
            left == self.remaining(),
    {
        if self.frame_number < self.end_frame {
            self.end_frame - self.frame_number
        } else {
            0
        }
    }

    /// Whether the walk is at its end, so that no frame is to be read.
    pub fn is_finished(&self) -> (finished: bool)
        ensures
            finished == (self.remaining() == 0),
    {
        self.frame_number >= self.end_frame
    }

    /// Takes note of one read of the video and says whether the walk
    /// yields its frame: it does when the walk was not at its end and the
    /// read gave a frame. Then the walk stands one frame further.
    pub fn next(&mut self, frame_read: bool) -> (yielded: bool)
        ensures
            yielded == (frame_read && old(self).remaining() > 0),
            final(self).end_frame == old(self).end_frame,
            yielded ==> final(self).frame_number == old(self).frame_number + 1,
            !yielded ==> final(self).frame_number == old(self).frame_number,
            final(self).remaining() == old(self).remaining() - (if yielded {
                1int
            } else {
                0int
            }),
    {
        if self.frame_number >= self.end_frame || !frame_read {
            return false;
        }
        self.frame_number = self.frame_number + 1;
        true
    }
}

} // verus!
