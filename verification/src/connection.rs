use crate::cursor::{cursor_over, position, set_position};
use crate::frame::{scan_frame, Defect, Frame, FrameError, FrameView};
use vstd::prelude::*;

verus! {

/// The failures of a stream that a connection tells apart.
#[derive(Debug, PartialEq, Eq, Structural, Clone, Copy)]
pub enum ErrorKind {
    /// The stream could not be read.
    InvalidInput,
    /// The stream ended in the middle of a frame.
    ConnectionReset,
}

/// Why no frame could be read from a connection.
#[derive(Debug)]
pub enum ConnectionError {
    /// The bytes that came in are no frame.
    FrameError(FrameError),
    /// The stream failed.
    IOError(ErrorKind),
}

/// The text that tells of a stream that could not be read.
pub open spec fn invalid_input_text() -> Seq<char> {
    "invalid input parameter"@
}

/// The text that tells of a stream that ended in the middle of a frame.
pub open spec fn connection_reset_text() -> Seq<char> {
    "connection reset"@
}

impl ErrorKind {
    /// The text that tells of this failure.
    pub open spec fn text(self) -> Seq<char> {
        match self {
            ErrorKind::InvalidInput => invalid_input_text(),
            ErrorKind::ConnectionReset => connection_reset_text(),
        }
    }

    /// The text that tells of this failure.
    pub fn description(&self) -> (text: String)
        ensures
            text@ == self.text(),
    {
        match self {
            ErrorKind::InvalidInput => "invalid input parameter".to_owned(),
            ErrorKind::ConnectionReset => "connection reset".to_owned(),
        }
    }
}

impl ConnectionError {
    /// The frame with which a connection that failed is answered: an error
    /// with the text of the failure. An incomplete frame is no failure of a
    /// connection, which reads on instead, and has no answer.
    pub fn reply(self) -> (frame: Option<Frame>)
        ensures
            match self {
                ConnectionError::FrameError(FrameError::Other(text)) => frame matches Some(f)
                    && f@ == FrameView::SimpleError(text@),
                ConnectionError::FrameError(FrameError::Incomplete) => frame is None,
                ConnectionError::IOError(kind) => frame matches Some(f) && f@
                    == FrameView::SimpleError(kind.text()),
            },
    {
        match self {
            ConnectionError::FrameError(FrameError::Other(text)) => Some(Frame::SimpleError(text)),
            ConnectionError::FrameError(FrameError::Incomplete) => None,
            ConnectionError::IOError(kind) => Some(Frame::SimpleError(kind.description())),
        }
    }
}

/// Takes the frame with which a buffer begins, if the buffer holds all of
/// it, and tells how many bytes it takes up. A buffer that holds the
/// beginning of a frame only gives none; bytes that cannot begin a frame
/// are an error.
pub fn parse_frame(buffer: &[u8]) -> (res: Result<Option<(Frame, usize)>, FrameError>)
    ensures
        match res {
            Ok(Some((frame, taken))) => scan_frame(buffer@, 0).outcome == Ok::<FrameView, Defect>(
                frame@,
            ) && taken == scan_frame(buffer@, 0).end && 0 < taken <= buffer@.len(),
            Ok(None) => scan_frame(buffer@, 0).outcome == Err::<FrameView, Defect>(
                Defect::Incomplete,
            ),
            Err(e) => scan_frame(buffer@, 0).outcome matches Err(defect) && !(defect
                is Incomplete) && e.reports(defect),
        },
{
    let size = buffer.len();
    let mut cursor = cursor_over(buffer);
    proof {
        crate::frame::lemma_scan_frame_bounds(buffer@, 0);
    }
    match Frame::check(&mut cursor) {
        Ok(_) => {
            let len = position(&cursor);
            assert(len <= size);
            set_position(&mut cursor, 0);
            let frame = Frame::parse(&mut cursor)?;
            Ok(Some((frame, len as usize)))
        },
        Err(err) => match err {
            // More bytes have to be read from the stream
            FrameError::Incomplete => Ok(None),
            FrameError::Other(input) => Err(FrameError::Other(input)),
        },
    }
}

/// What a connection does after it has asked its stream for more bytes.
#[derive(Debug)]
pub enum ReadStep {
    /// Bytes came in: the buffer is tried again.
    Again,
    /// The stream ended between two frames: there is nothing to answer.
    Closed,
    /// The stream failed, or ended in the middle of a frame.
    Failed(ConnectionError),
}

/// Decides what a connection does after a read: `read` is the number of
/// bytes that came in, or none where the stream failed, and `buffered` the
/// number of bytes that the buffer holds after it.
pub fn after_read(read: Option<usize>, buffered: usize) -> (step: ReadStep)
    ensures
        match read {
            None => step matches ReadStep::Failed(
                ConnectionError::IOError(ErrorKind::InvalidInput),
            ),
            Some(n) => if n > 0 {
                step is Again
            } else if buffered == 0 {
                step is Closed
            } else {
                step matches ReadStep::Failed(
                    ConnectionError::IOError(ErrorKind::ConnectionReset),
                )
            },
        },
{
    match read {
        None => ReadStep::Failed(ConnectionError::IOError(ErrorKind::InvalidInput)),
        Some(n) => if n > 0 {
            ReadStep::Again
        } else if buffered == 0 {
            ReadStep::Closed
        } else {
            ReadStep::Failed(ConnectionError::IOError(ErrorKind::ConnectionReset))
        },
    }
}

} // verus!
