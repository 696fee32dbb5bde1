//! Errors surfaced by the pipeline and its collaborators.
use vstd::prelude::*;
use vstd::string::StringExecFns;

verus! {

/// Every variant states where things went wrong, with a detail message.
#[derive(Debug)]
pub enum Error {
    /// Creating the window failed.
    WindowInit(String),
    /// Presenting a finished frame failed.
    WindowUpdate(String),
    /// Opening or starting the camera failed.
    CameraInit(String),
    /// Grabbing or decoding a frame failed, or frames disagree in shape.
    CameraFrame(String),
}

/// The human-readable form of an error: a prefix naming its kind, then its detail.
pub open spec fn error_text(e: Error) -> Seq<char> {
    match e {
        Error::WindowInit(s) => "Window init error: "@ + s@,
        Error::WindowUpdate(s) => "Window update error: "@ + s@,
        Error::CameraInit(s) => "Camera init error: "@ + s@,
        Error::CameraFrame(s) => "Camera frame error: "@ + s@,
    }
}

impl Error {
    /// The message shown to the user for this error.
    pub fn describe(&self) -> (r: String)
        ensures
            r@ == error_text(*self),
    {
        match self {
            Error::WindowInit(s) => String::from_str("Window init error: ").concat(s.as_str()),
            Error::WindowUpdate(s) => String::from_str("Window update error: ").concat(s.as_str()),
            Error::CameraInit(s) => String::from_str("Camera init error: ").concat(s.as_str()),
            Error::CameraFrame(s) => String::from_str("Camera frame error: ").concat(s.as_str()),
        }
    }
}

} // verus!
