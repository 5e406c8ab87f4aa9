//! The value types of the callback-style decoding interface.
use vstd::prelude::*;

verus! {

/// A metadata value handed to a drawing callback.
#[derive(Debug, Clone, PartialEq, Eq)]
pub enum DataMap {
    UInt(u64),
    UIntAllay(Vec<u64>),
    Raw(Vec<u8>),
    Ascii(String),
    /// No value.
    Empty,
}

/// What a callback asks the decoder to do next.
#[derive(Debug, Clone, Copy, PartialEq, Eq, Structural)]
pub enum ResponseCommand {
    Abort,
    Continue,
}

/// The response a callback returns.
#[derive(Debug, Clone, Copy, PartialEq, Eq, Structural)]
pub struct CallbackResponse {
    pub response: ResponseCommand,
}

impl CallbackResponse {
    /// Asks the decoder to stop.
    pub fn abort() -> (response: Self)
        ensures
            response.response == ResponseCommand::Abort,
    {
        CallbackResponse { response: ResponseCommand::Abort }
    }

    /// Asks the decoder to go on.
    pub fn cont() -> (response: Self)
        ensures
            response.response == ResponseCommand::Continue,
    {
        CallbackResponse { response: ResponseCommand::Continue }
    }
}

/// Whether a callback's response asks the decoder to stop; no response goes on.
pub fn is_abort(response: Option<CallbackResponse>) -> (abort: bool)
    ensures
        abort == (response matches Some(r) && r.response == ResponseCommand::Abort),
{
    match response {
        Some(response) => response.response == ResponseCommand::Abort,
        None => false,
    }
}

/// Options of the first callback: how often an animation loops, and whether it is one.
#[derive(Debug, Clone, PartialEq, Eq, Structural)]
pub struct InitOptions {
    pub loop_count: u32,
    pub animation: bool,
}

/// Options of a drawing call (none so far).
#[derive(Debug, Clone, Copy, PartialEq, Eq, Default, Structural)]
pub struct DrawOptions {}

/// The rectangle one animation frame covers.
#[derive(Debug, Clone, Copy, PartialEq, Eq, Structural)]
pub struct ImageRect {
    pub start_x: i32,
    pub start_y: i32,
    pub width: usize,
    pub height: usize,
}

/// What becomes of the previous animation frame.
#[derive(Debug, Clone, Copy, PartialEq, Eq, Structural)]
pub enum NextDispose {
    /// The previous frame stays.
    Keep,
    Background,
    Previous,
}

/// How an animation frame is blended.
#[derive(Debug, Clone, Copy, PartialEq, Eq, Structural)]
pub enum NextBlend {
    Source,
    Override,
}

/// Timing and placement of the next animation frame.
#[derive(Debug, Clone, Copy, PartialEq, Eq, Structural)]
pub struct NextOptions {
    pub await_time: u64,
    pub image_rect: Option<ImageRect>,
    pub dispose: NextDispose,
    pub blend: NextBlend,
}

impl NextOptions {
    /// A frame that covers the whole canvas, replacing it, after `await_time`.
    pub fn full_canvas(width: usize, height: usize, await_time: u64) -> (options: Self)
        ensures
            options == (NextOptions {
                await_time,
                image_rect: Some(ImageRect { start_x: 0, start_y: 0, width, height }),
                dispose: NextDispose::Keep,
                blend: NextBlend::Override,
            }),
    {
        NextOptions {
            await_time,
            image_rect: Some(ImageRect { start_x: 0, start_y: 0, width, height }),
            dispose: NextDispose::Keep,
            blend: NextBlend::Override,
        }
    }
}

/// Options of the final callback (none so far).
#[derive(Debug, Clone, Copy, PartialEq, Eq, Default, Structural)]
pub struct TerminateOptions {}

/// Options of a diagnostic message (none so far).
#[derive(Debug, Clone, Copy, PartialEq, Eq, Default, Structural)]
pub struct VerboseOptions {}

} // verus!
