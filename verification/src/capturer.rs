//! Screen capture bookkeeping: which globals the compositor must offer, and the state
//! of one frame request as the compositor's events arrive.
use vstd::prelude::*;
use vstd::string::*;

verus! {

/// The shared-memory format code of 32-bit ARGB (`wl_shm` format 0).
pub const FORMAT_ARGB8888: u32 = 0;

/// An event that the compositor sends about a frame request.
pub enum FrameEvent {
    /// The buffer the frame needs: its format (`None` where the format is not one that
    /// we know), its size in pixels and its bytes per row.
    Buffer { format: Option<u32>, width: u32, height: u32, stride: u32 },
    /// The frame has been copied into the buffer.
    Ready,
    /// The compositor could not copy the frame.
    Failed,
    /// Any other event.
    Other,
}

/// What the program should report after an event.
#[derive(Debug, PartialEq, Eq)]
pub enum FrameNotice {
    Nothing,
    /// The copy failed.
    CaptureFailed,
}

/// The state of the current frame request.
pub struct FrameState {
    /// The compositor has described the buffer it needs.
    pub buffer_done: bool,
    /// The frame has been copied.
    pub buffer_ready: bool,
    pub width: u32,
    pub height: u32,
    pub stride: u32,
    pub format: u32,
}

impl FrameState {
    /// No frame described yet, format ARGB8888.
    pub fn new() -> (s: FrameState)
        ensures
            !s.buffer_done,
            !s.buffer_ready,
            s.width == 0 && s.height == 0 && s.stride == 0,
            s.format == FORMAT_ARGB8888,
    {
        FrameState {
            buffer_done: false,
            buffer_ready: false,
            width: 0,
            height: 0,
            stride: 0,
            format: FORMAT_ARGB8888,
        }
    }

    /// A new frame is requested: it is neither described nor copied yet. The size and
    /// format of the last frame stay.
    pub fn begin_frame(&mut self)
        ensures
            !final(self).buffer_done,
            !final(self).buffer_ready,
            final(self).width == old(self).width,
            final(self).height == old(self).height,
            final(self).stride == old(self).stride,
            final(self).format == old(self).format,
    {
        self.buffer_done = false;
        self.buffer_ready = false;
    }

    /// Takes one event about the frame request.
    pub fn on_event(&mut self, event: FrameEvent) -> (notice: FrameNotice)
        ensures
            match event {
                FrameEvent::Buffer { format, width, height, stride } => {
                    &&& final(self).buffer_done
                    &&& final(self).buffer_ready == old(self).buffer_ready
                    &&& final(self).width == width
                    &&& final(self).height == height
                    &&& final(self).stride == stride
                    &&& final(self).format == match format {
                        Some(f) => f,
                        None => old(self).format,
                    }
                    &&& notice == FrameNotice::Nothing
                },
                FrameEvent::Ready => {
                    &&& final(self).buffer_ready
                    &&& final(self).buffer_done == old(self).buffer_done
                    &&& final(self).width == old(self).width
                    &&& final(self).height == old(self).height
                    &&& final(self).stride == old(self).stride
                    &&& final(self).format == old(self).format
                    &&& notice == FrameNotice::Nothing
                },
                FrameEvent::Failed => {
                    &&& *final(self) == *old(self)
                    &&& notice == FrameNotice::CaptureFailed
                },
                FrameEvent::Other => {
                    &&& *final(self) == *old(self)
                    &&& notice == FrameNotice::Nothing
                },
            },
    {
        match event {
            FrameEvent::Buffer { format, width, height, stride } => {
                self.width = width;
                self.height = height;
                self.stride = stride;
                if let Some(f) = format {
                    self.format = f;
                }
                self.buffer_done = true;
                FrameNotice::Nothing
            },
            FrameEvent::Ready => {
                self.buffer_ready = true;
                FrameNotice::Nothing
            },
            FrameEvent::Failed => FrameNotice::CaptureFailed,
            FrameEvent::Other => FrameNotice::Nothing,
        }
    }

    /// The size in bytes of the frame's buffer: `stride` bytes for each of `height` rows.
    pub fn buffer_len(&self) -> (len: u32)
        requires
            self.stride * self.height <= u32::MAX,
        ensures
            len == self.stride * self.height,
    {
        self.stride * self.height
    }
}

/// Why capture cannot be set up.
#[derive(Debug, PartialEq, Eq)]
pub enum CaptureSetupError {
    /// The compositor offers no output.
    NoOutput,
    /// The compositor lacks shared memory or the screencopy protocol.
    MissingGlobals,
}

/// The position of the first global whose interface is `wl_output`.
pub fn find_output(interfaces: &Vec<String>) -> (index: Option<usize>)
    ensures
        match index {
            Some(i) => i < interfaces@.len() && interfaces@[i as int]@ == "wl_output"@ && forall|
                j: int,
            | 0 <= j < i ==> #[trigger] interfaces@[j]@ != "wl_output"@,
            None => forall|j: int|
                0 <= j < interfaces@.len() ==> #[trigger] interfaces@[j]@ != "wl_output"@,
        },
{
    let output = String::from_str("wl_output");
    let mut i: usize = 0;
    while i < interfaces.len()
        invariant
            i <= interfaces@.len(),
            output@ == "wl_output"@,
            forall|j: int| 0 <= j < i ==> #[trigger] interfaces@[j]@ != "wl_output"@,
        decreases interfaces@.len() - i,
    {
        if interfaces[i] == output {
            return Some(i);
        }
        i = i + 1;
    }
    None
}

/// Whether capture can go on: an output was found, then shared memory and screencopy
/// are both offered. A missing output is reported first.
pub fn check_globals(output: Option<usize>, has_shm: bool, has_screencopy: bool) -> (res: Result<
    usize,
    CaptureSetupError,
>)
    ensures
        match output {
            None => res == Err::<usize, CaptureSetupError>(CaptureSetupError::NoOutput),
            Some(i) => if has_shm && has_screencopy {
                res == Ok::<usize, CaptureSetupError>(i)
            } else {
                res == Err::<usize, CaptureSetupError>(CaptureSetupError::MissingGlobals)
            },
        },
{
    match output {
        None => Err(CaptureSetupError::NoOutput),
        Some(i) => {
            if has_shm && has_screencopy {
                Ok(i)
            } else {
                Err(CaptureSetupError::MissingGlobals)
            }
        },
    }
}

} // verus!
