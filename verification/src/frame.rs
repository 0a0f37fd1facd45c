use crate::cursor::{
    cursor_data, cursor_position, data, get_u8, has_remaining, position, set_position,
};
use crate::number::{integer_of, parse_integer};
use crate::text::{string_from_utf8_lossy, text_of};
use std::collections::VecDeque;
use std::io::Cursor;
use vstd::prelude::*;
use vstd::slice::slice_subrange;

verus! {

/// One message of the wire protocol.
#[derive(Debug, PartialEq)]
pub enum Frame {
    SimpleString(String),
    SimpleError(String),
    Integer(u64),
    Array(VecDeque<Frame>),
}

/// Why bytes could not be read as a frame.
#[derive(Debug)]
pub enum FrameError {
    /// The bytes end before the frame does.
    Incomplete,
    /// The bytes cannot be a frame, with the reason as text.
    Other(String),
}

/// The mathematical value of a [`Frame`].
pub enum FrameView {
    SimpleString(Seq<char>),
    SimpleError(Seq<char>),
    Integer(u64),
    Array(Seq<FrameView>),
}

impl View for Frame {
    type V = FrameView;

    open spec fn view(&self) -> FrameView {
        frame_view(*self)
    }
}

/// The value of a frame.
pub open spec fn frame_view(frame: Frame) -> FrameView
    decreases frame, 0nat,
{
    match frame {
        Frame::SimpleString(text) => FrameView::SimpleString(text@),
        Frame::SimpleError(text) => FrameView::SimpleError(text@),
        Frame::Integer(n) => FrameView::Integer(n),
        Frame::Array(items) => FrameView::Array(first_views(items, items@.len())),
    }
}

/// The values of the first frames of a queue, up to a given number of them.
pub open spec fn first_views(items: VecDeque<Frame>, count: nat) -> Seq<FrameView>
    decreases items, count,
{
    if count == 0 || count > items@.len() {
        Seq::empty()
    } else {
        proof {
            vstd::std_specs::vecdeque::axiom_vec_dequeue_index_decreases(items, count - 1);
        }
        first_views(items, (count - 1) as nat).push(frame_view(items@[count - 1]))
    }
}

/// The values of a sequence of frames, one for one.
pub open spec fn views(items: Seq<Frame>) -> Seq<FrameView> {
    Seq::new(items.len(), |i: int| items[i]@)
}

/// The values of the first frames of a queue are those of that many frames.
pub proof fn lemma_first_views(items: VecDeque<Frame>, count: nat)
    requires
        count <= items@.len(),
    ensures
        first_views(items, count) == views(items@.take(count as int)),
    decreases count,
{
    if count > 0 {
        lemma_first_views(items, (count - 1) as nat);
        assert(items@.take(count as int - 1) =~= items@.take(count as int).drop_last());
    }
    assert(first_views(items, count) =~= views(items@.take(count as int)));
}

/// An array's value holds the values of its frames.
pub proof fn lemma_array_view(items: VecDeque<Frame>)
    ensures
        Frame::Array(items)@ == FrameView::Array(views(items@)),
{
    lemma_first_views(items, items@.len());
    assert(items@.take(items@.len() as int) =~= items@);
}

/// The ways in which bytes fail to be a frame.
pub enum Defect {
    /// The bytes end before the frame does.
    Incomplete,
    /// The first byte is none of `+`, `-`, `:` and `*`.
    InvalidTag,
    /// A line that should hold an unsigned integer does not.
    InvalidInteger,
}

/// The text that goes with a frame whose first byte is no tag.
pub open spec fn invalid_tag_text() -> Seq<char> {
    "Protocol Error: Invalid input "@
}

/// The text that goes with a line that holds no unsigned integer.
pub open spec fn invalid_integer_text() -> Seq<char> {
    "Protocol Error: Invalid input"@
}

impl FrameError {
    /// Whether this error is the one that is returned for a defect.
    pub open spec fn reports(&self, defect: Defect) -> bool {
        match defect {
            Defect::Incomplete => *self is Incomplete,
            Defect::InvalidTag => *self matches FrameError::Other(text) && text@
                == invalid_tag_text(),
            Defect::InvalidInteger => *self matches FrameError::Other(text) && text@
                == invalid_integer_text(),
        }
    }
}

/// What reading at some offset gives: a value or a defect, and the offset at
/// which reading stopped.
pub struct Scan<T> {
    pub outcome: Result<T, Defect>,
    pub end: int,
}

/// The tag of a simple string, `+`.
pub const SIMPLE_STRING: u8 = 0x2B;

/// The tag of a simple error, `-`.
pub const SIMPLE_ERROR: u8 = 0x2D;

/// The tag of an integer, `:`.
pub const INTEGER: u8 = 0x3A;

/// The tag of an array, `*`.
pub const ARRAY: u8 = 0x2A;

/// The first byte of the pair that ends a line.
pub const CR: u8 = 0x0D;

/// The second byte of the pair that ends a line.
pub const LF: u8 = 0x0A;

/// Whether a CR LF pair stands at an offset.
pub open spec fn crlf_at(bytes: Seq<u8>, at: int) -> bool {
    0 <= at && at + 1 < bytes.len() && bytes[at] == CR && bytes[at + 1] == LF
}

/// The offset of the first CR LF pair at or after an offset.
pub open spec fn find_crlf(bytes: Seq<u8>, from: int) -> Option<int>
    decreases bytes.len() - from,
{
    if from < 0 || from + 1 >= bytes.len() {
        None
    } else if crlf_at(bytes, from) {
        Some(from)
    } else {
        find_crlf(bytes, from + 1)
    }
}

/// Reads a line: the bytes up to the next CR LF pair, which is consumed too.
pub open spec fn scan_line(bytes: Seq<u8>, from: int) -> Scan<Seq<u8>> {
    match find_crlf(bytes, from) {
        Some(at) => Scan { outcome: Ok(bytes.subrange(from, at)), end: at + 2 },
        None => Scan { outcome: Err(Defect::Incomplete), end: from },
    }
}

/// Reads a line that holds an unsigned integer.
pub open spec fn scan_integer(bytes: Seq<u8>, from: int) -> Scan<u64> {
    let line = scan_line(bytes, from);
    match line.outcome {
        Ok(digits) => match integer_of(digits) {
            Some(n) => Scan { outcome: Ok(n), end: line.end },
            None => Scan { outcome: Err(Defect::InvalidInteger), end: line.end },
        },
        Err(defect) => Scan { outcome: Err(defect), end: line.end },
    }
}

/// Reads a line of text.
pub open spec fn scan_text(bytes: Seq<u8>, from: int) -> Scan<Seq<char>> {
    let line = scan_line(bytes, from);
    match line.outcome {
        Ok(raw) => Scan { outcome: Ok(text_of(raw)), end: line.end },
        Err(defect) => Scan { outcome: Err(defect), end: line.end },
    }
}

/// Reads one frame that starts at an offset.
pub open spec fn scan_frame(bytes: Seq<u8>, from: int) -> Scan<FrameView>
    decreases bytes.len() - from, 0int,
{
    if from < 0 || from >= bytes.len() {
        Scan { outcome: Err(Defect::Incomplete), end: from }
    } else if bytes[from] == SIMPLE_STRING {
        let text = scan_text(bytes, from + 1);
        match text.outcome {
            Ok(t) => Scan { outcome: Ok(FrameView::SimpleString(t)), end: text.end },
            Err(defect) => Scan { outcome: Err(defect), end: text.end },
        }
    } else if bytes[from] == SIMPLE_ERROR {
        let text = scan_text(bytes, from + 1);
        match text.outcome {
            Ok(t) => Scan { outcome: Ok(FrameView::SimpleError(t)), end: text.end },
            Err(defect) => Scan { outcome: Err(defect), end: text.end },
        }
    } else if bytes[from] == INTEGER {
        let number = scan_integer(bytes, from + 1);
        match number.outcome {
            Ok(n) => Scan { outcome: Ok(FrameView::Integer(n)), end: number.end },
            Err(defect) => Scan { outcome: Err(defect), end: number.end },
        }
    } else if bytes[from] == ARRAY {
        let count = scan_integer(bytes, from + 1);
        match count.outcome {
            Ok(n) => if from < count.end <= bytes.len() {
                let items = scan_frames(bytes, count.end, n as nat);
                match items.outcome {
                    Ok(frames) => Scan { outcome: Ok(FrameView::Array(frames)), end: items.end },
                    Err(defect) => Scan { outcome: Err(defect), end: items.end },
                }
            } else {
                // Never taken: a line ends behind its start and inside the bytes.
                Scan { outcome: Err(Defect::Incomplete), end: count.end }
            },
            Err(defect) => Scan { outcome: Err(defect), end: count.end },
        }
    } else {
        Scan { outcome: Err(Defect::InvalidTag), end: from + 1 }
    }
}

/// Reads a given number of frames that follow one another from an offset on.
/// Reading stops at the first frame that has a defect.
pub open spec fn scan_frames(bytes: Seq<u8>, from: int, count: nat) -> Scan<Seq<FrameView>>
    decreases bytes.len() - from, 1 + count,
{
    if count == 0 {
        Scan { outcome: Ok(Seq::empty()), end: from }
    } else {
        let first = scan_frame(bytes, from);
        match first.outcome {
            Ok(frame) => if from < first.end <= bytes.len() {
                let rest = scan_frames(bytes, first.end, (count - 1) as nat);
                match rest.outcome {
                    Ok(frames) => Scan { outcome: Ok(seq![frame] + frames), end: rest.end },
                    Err(defect) => Scan { outcome: Err(defect), end: rest.end },
                }
            } else {
                // Never taken: a frame ends behind its start and inside the bytes.
                Scan { outcome: Err(Defect::Incomplete), end: first.end }
            },
            Err(defect) => Scan { outcome: Err(defect), end: first.end },
        }
    }
}

/// Reads the frames of an array from the line that holds their number on.
pub open spec fn scan_array(bytes: Seq<u8>, from: int) -> Scan<Seq<FrameView>> {
    let count = scan_integer(bytes, from);
    match count.outcome {
        Ok(n) => scan_frames(bytes, count.end, n as nat),
        Err(defect) => Scan { outcome: Err(defect), end: count.end },
    }
}

/// Where a CR LF pair is found, it is the first one at or after the start,
/// and it lies inside the bytes.
pub proof fn lemma_find_crlf(bytes: Seq<u8>, from: int)
    ensures
        match find_crlf(bytes, from) {
            Some(at) => {
                &&& 0 <= from <= at
                &&& at + 2 <= bytes.len()
                &&& crlf_at(bytes, at)
                &&& forall|i: int| from <= i < at ==> !crlf_at(bytes, i)
            },
            None => forall|i: int| from <= i && 0 <= from ==> !crlf_at(bytes, i),
        },
    decreases bytes.len() - from,
{
    if from < 0 || from + 1 >= bytes.len() {
    } else if crlf_at(bytes, from) {
    } else {
        lemma_find_crlf(bytes, from + 1);
    }
}

/// A line ends behind its start and inside the bytes.
pub proof fn lemma_scan_line_bounds(bytes: Seq<u8>, from: int)
    ensures
        scan_line(bytes, from).outcome is Ok ==> 0 <= from && from + 2 <= scan_line(
            bytes,
            from,
        ).end <= bytes.len(),
        scan_integer(bytes, from).end == scan_line(bytes, from).end,
        scan_integer(bytes, from).outcome is Ok ==> scan_line(bytes, from).outcome is Ok,
        scan_text(bytes, from).end == scan_line(bytes, from).end,
        scan_text(bytes, from).outcome is Ok <==> scan_line(bytes, from).outcome is Ok,
{
    lemma_find_crlf(bytes, from);
}

/// A frame ends behind its start and inside the bytes, and so do the frames
/// of an array.
pub proof fn lemma_scan_frame_bounds(bytes: Seq<u8>, from: int)
    ensures
        scan_frame(bytes, from).outcome is Ok ==> 0 <= from < scan_frame(bytes, from).end
            <= bytes.len(),
    decreases bytes.len() - from, 0int,
{
    if 0 <= from < bytes.len() {
        lemma_scan_line_bounds(bytes, from + 1);
        if bytes[from] == ARRAY {
            let count = scan_integer(bytes, from + 1);
            if count.outcome is Ok {
                lemma_scan_frames_bounds(bytes, count.end, count.outcome->Ok_0 as nat);
            }
        }
    }
}

/// The frames of an array end at or behind their start and inside the bytes.
pub proof fn lemma_scan_frames_bounds(bytes: Seq<u8>, from: int, count: nat)
    requires
        0 <= from <= bytes.len(),
    ensures
        scan_frames(bytes, from, count).outcome is Ok ==> from <= scan_frames(
            bytes,
            from,
            count,
        ).end <= bytes.len(),
        scan_frames(bytes, from, count).outcome matches Ok(frames) ==> frames.len() == count,
    decreases bytes.len() - from, 1 + count,
{
    if count > 0 {
        lemma_scan_frame_bounds(bytes, from);
        let first = scan_frame(bytes, from);
        if first.outcome is Ok {
            lemma_scan_frames_bounds(bytes, first.end, (count - 1) as nat);
        }
    }
}

/// The frame that is an array is read as its tag and then its frames.
pub proof fn lemma_scan_frame_array(bytes: Seq<u8>, from: int)
    requires
        0 <= from < bytes.len(),
        bytes[from] == ARRAY,
    ensures
        scan_frame(bytes, from).end == scan_array(bytes, from + 1).end,
        match scan_array(bytes, from + 1).outcome {
            Ok(frames) => scan_frame(bytes, from).outcome == Ok::<FrameView, Defect>(
                FrameView::Array(frames),
            ),
            Err(defect) => scan_frame(bytes, from).outcome == Err::<FrameView, Defect>(defect),
        },
{
    lemma_scan_line_bounds(bytes, from + 1);
}

/// Reading the frames of an array one after the other: what is read after the
/// first frame.
pub proof fn lemma_scan_frames_step(bytes: Seq<u8>, from: int, count: nat)
    requires
        count > 0,
    ensures
        ({
            let first = scan_frame(bytes, from);
            let all = scan_frames(bytes, from, count);
            match first.outcome {
                Ok(frame) => {
                    let rest = scan_frames(bytes, first.end, (count - 1) as nat);
                    &&& all.end == rest.end
                    &&& match rest.outcome {
                        Ok(frames) => all.outcome == Ok::<Seq<FrameView>, Defect>(
                            seq![frame] + frames,
                        ),
                        Err(defect) => all.outcome == Err::<Seq<FrameView>, Defect>(defect),
                    }
                },
                Err(defect) => all == (Scan {
                    outcome: Err::<Seq<FrameView>, Defect>(defect),
                    end: first.end,
                }),
            }
        }),
{
    lemma_scan_frame_bounds(bytes, from);
}

fn invalid_tag() -> (e: FrameError)
    ensures
        e.reports(Defect::InvalidTag),
{
    FrameError::Other("Protocol Error: Invalid input ".to_owned())
}

fn invalid_integer() -> (e: FrameError)
    ensures
        e.reports(Defect::InvalidInteger),
{
    FrameError::Other("Protocol Error: Invalid input".to_owned())
}

/// Takes the byte at the cursor, if there is one.
pub fn get_first_byte(cursor: &mut Cursor<&[u8]>) -> (res: Result<u8, FrameError>)
    ensures
        cursor_data(*final(cursor)) == cursor_data(*old(cursor)),
        match res {
            Ok(byte) => {
                &&& cursor_position(*old(cursor)) < cursor_data(*old(cursor)).len()
                &&& byte == cursor_data(*old(cursor))[cursor_position(*old(cursor)) as int]
                &&& cursor_position(*final(cursor)) == cursor_position(*old(cursor)) + 1
            },
            Err(e) => {
                &&& cursor_position(*old(cursor)) >= cursor_data(*old(cursor)).len()
                &&& e is Incomplete
                &&& cursor_position(*final(cursor)) == cursor_position(*old(cursor))
            },
        },
{
    if !has_remaining(cursor) {
        return Err(FrameError::Incomplete);
    }
    Ok(get_u8(cursor))
}

/// Takes the line at the cursor: the bytes before the next CR LF pair. The
/// cursor moves behind the pair; where there is none it stays.
pub fn get_simple_string<'a>(cursor: &mut Cursor<&'a [u8]>) -> (res: Result<&'a [u8], FrameError>)
    ensures
        cursor_data(*final(cursor)) == cursor_data(*old(cursor)),
        cursor_position(*final(cursor)) == scan_line(
            cursor_data(*old(cursor)),
            cursor_position(*old(cursor)) as int,
        ).end,
        match res {
            Ok(line) => scan_line(
                cursor_data(*old(cursor)),
                cursor_position(*old(cursor)) as int,
            ).outcome == Ok::<Seq<u8>, Defect>(line@),
            Err(e) => e is Incomplete && scan_line(
                cursor_data(*old(cursor)),
                cursor_position(*old(cursor)) as int,
            ).outcome == Err::<Seq<u8>, Defect>(Defect::Incomplete),
        },
{
    let bytes = data(cursor);
    let start = position(cursor);
    let len = bytes.len();
    if start >= len as u64 {
        return Err(FrameError::Incomplete);
    }
    let first = start as usize;
    let mut at: usize = first;
    while at + 1 < len
        invariant
            first <= at < len,
            len == bytes@.len(),
            first == start,
            bytes@ == cursor_data(*cursor),
            *cursor == *old(cursor),
            cursor_position(*cursor) == start,
            find_crlf(bytes@, first as int) == find_crlf(bytes@, at as int),
        decreases len - at,
    {
        if bytes[at] == CR && bytes[at + 1] == LF {
            set_position(cursor, (at + 2) as u64);
            return Ok(slice_subrange(bytes, first, at));
        }
        at += 1;
    }
    Err(FrameError::Incomplete)
}

/// Takes the line at the cursor and reads it as an unsigned integer.
pub fn get_integer(cursor: &mut Cursor<&[u8]>) -> (res: Result<u64, FrameError>)
    ensures
        cursor_data(*final(cursor)) == cursor_data(*old(cursor)),
        cursor_position(*final(cursor)) == scan_integer(
            cursor_data(*old(cursor)),
            cursor_position(*old(cursor)) as int,
        ).end,
        match res {
            Ok(n) => scan_integer(
                cursor_data(*old(cursor)),
                cursor_position(*old(cursor)) as int,
            ).outcome == Ok::<u64, Defect>(n),
            Err(e) => scan_integer(
                cursor_data(*old(cursor)),
                cursor_position(*old(cursor)) as int,
            ).outcome matches Err(defect) && e.reports(defect),
        },
{
    let line = get_simple_string(cursor)?;
    match parse_integer(line) {
        Some(n) => Ok(n),
        None => Err(invalid_integer()),
    }
}

/// A scan with some frames put in front of what it read.
pub open spec fn prepend(head: Seq<FrameView>, scan: Scan<Seq<FrameView>>) -> Scan<
    Seq<FrameView>,
> {
    match scan.outcome {
        Ok(frames) => Scan { outcome: Ok(head + frames), end: scan.end },
        Err(defect) => Scan { outcome: Err(defect), end: scan.end },
    }
}

/// Whether a check's result is the one that a scan calls for.
pub open spec fn check_agrees<T>(res: Result<(), FrameError>, scan: Scan<T>) -> bool {
    match res {
        Ok(_) => scan.outcome is Ok,
        Err(e) => scan.outcome matches Err(defect) && e.reports(defect),
    }
}

/// Whether a parse's result is the one that a scan calls for.
pub open spec fn parse_agrees(res: Result<Frame, FrameError>, scan: Scan<FrameView>) -> bool {
    match res {
        Ok(frame) => scan.outcome == Ok::<FrameView, Defect>(frame@),
        Err(e) => scan.outcome matches Err(defect) && e.reports(defect),
    }
}

impl Frame {
    /// Tells whether a whole frame starts at the cursor, without building it.
    /// On success the cursor stands behind the frame's last byte; on failure
    /// it stands where reading stopped.
    pub fn check(cursor: &mut Cursor<&[u8]>) -> (res: Result<(), FrameError>)
        ensures
            cursor_data(*final(cursor)) == cursor_data(*old(cursor)),
            cursor_position(*final(cursor)) == scan_frame(
                cursor_data(*old(cursor)),
                cursor_position(*old(cursor)) as int,
            ).end,
            check_agrees(
                res,
                scan_frame(cursor_data(*old(cursor)), cursor_position(*old(cursor)) as int),
            ),
        decreases cursor_data(*old(cursor)).len() - cursor_position(*old(cursor)),
    {
        let ghost bytes = cursor_data(*cursor);
        let ghost from = cursor_position(*cursor) as int;
        let tag = get_first_byte(cursor)?;
        proof {
            lemma_scan_line_bounds(bytes, from + 1);
        }
        if tag == SIMPLE_STRING || tag == SIMPLE_ERROR {
            get_simple_string(cursor)?;
            Ok(())
        } else if tag == INTEGER {
            get_integer(cursor)?;
            Ok(())
        } else if tag == ARRAY {
            proof {
                lemma_scan_frame_array(bytes, from);
            }
            check_array(cursor)
        } else {
            Err(invalid_tag())
        }
    }

    /// Builds the frame that starts at the cursor. On success the cursor
    /// stands behind the frame's last byte; on failure it stands where
    /// reading stopped.
    pub fn parse(cursor: &mut Cursor<&[u8]>) -> (res: Result<Frame, FrameError>)
        ensures
            cursor_data(*final(cursor)) == cursor_data(*old(cursor)),
            cursor_position(*final(cursor)) == scan_frame(
                cursor_data(*old(cursor)),
                cursor_position(*old(cursor)) as int,
            ).end,
            parse_agrees(
                res,
                scan_frame(cursor_data(*old(cursor)), cursor_position(*old(cursor)) as int),
            ),
        decreases cursor_data(*old(cursor)).len() - cursor_position(*old(cursor)),
    {
        let ghost bytes = cursor_data(*cursor);
        let ghost from = cursor_position(*cursor) as int;
        let tag = get_first_byte(cursor)?;
        proof {
            lemma_scan_line_bounds(bytes, from + 1);
        }
        if tag == SIMPLE_STRING {
            let line = get_simple_string(cursor)?;
            Ok(Frame::SimpleString(string_from_utf8_lossy(line)))
        } else if tag == SIMPLE_ERROR {
            let line = get_simple_string(cursor)?;
            Ok(Frame::SimpleError(string_from_utf8_lossy(line)))
        } else if tag == INTEGER {
            let n = get_integer(cursor)?;
            Ok(Frame::Integer(n))
        } else if tag == ARRAY {
            proof {
                lemma_scan_frame_array(bytes, from);
            }
            get_array(cursor)
        } else {
            Err(invalid_tag())
        }
    }
}

/// Checks the frames of an array, from the line that holds their number on.
pub fn check_array(cursor: &mut Cursor<&[u8]>) -> (res: Result<(), FrameError>)
    ensures
        cursor_data(*final(cursor)) == cursor_data(*old(cursor)),
        cursor_position(*final(cursor)) == scan_array(
            cursor_data(*old(cursor)),
            cursor_position(*old(cursor)) as int,
        ).end,
        check_agrees(
            res,
            scan_array(cursor_data(*old(cursor)), cursor_position(*old(cursor)) as int),
        ),
    decreases cursor_data(*old(cursor)).len() - cursor_position(*old(cursor)),
{
    let ghost bytes = cursor_data(*cursor);
    let ghost from = cursor_position(*cursor) as int;
    let num_of_items = get_integer(cursor)?;
    let ghost start = cursor_position(*cursor) as int;
    proof {
        lemma_scan_line_bounds(bytes, from);
    }
    let mut done: u64 = 0;
    while done < num_of_items
        invariant
            done <= num_of_items,
            cursor_data(*cursor) == bytes,
            from < start <= cursor_position(*cursor) <= bytes.len(),
            from == cursor_position(*old(cursor)),
            bytes == cursor_data(*old(cursor)),
            scan_integer(bytes, from) == (Scan {
                outcome: Ok::<u64, Defect>(num_of_items),
                end: start,
            }),
            scan_frames(bytes, start, num_of_items as nat).end == scan_frames(
                bytes,
                cursor_position(*cursor) as int,
                (num_of_items - done) as nat,
            ).end,
            match scan_frames(
                bytes,
                cursor_position(*cursor) as int,
                (num_of_items - done) as nat,
            ).outcome {
                Ok(_) => scan_frames(bytes, start, num_of_items as nat).outcome is Ok,
                Err(defect) => scan_frames(bytes, start, num_of_items as nat).outcome == Err::<
                    Seq<FrameView>,
                    Defect,
                >(defect),
            },
        decreases num_of_items - done,
    {
        proof {
            let at = cursor_position(*cursor) as int;
            lemma_scan_frames_step(bytes, at, (num_of_items - done) as nat);
            lemma_scan_frame_bounds(bytes, at);
        }
        Frame::check(cursor)?;
        done += 1;
    }
    Ok(())
}

/// Builds the frames of an array, from the line that holds their number on.
pub fn get_array(cursor: &mut Cursor<&[u8]>) -> (res: Result<Frame, FrameError>)
    ensures
        cursor_data(*final(cursor)) == cursor_data(*old(cursor)),
        cursor_position(*final(cursor)) == scan_array(
            cursor_data(*old(cursor)),
            cursor_position(*old(cursor)) as int,
        ).end,
        match res {
            Ok(frame) => frame is Array && scan_array(
                cursor_data(*old(cursor)),
                cursor_position(*old(cursor)) as int,
            ).outcome == Ok::<Seq<FrameView>, Defect>(frame@->Array_0),
            Err(e) => scan_array(
                cursor_data(*old(cursor)),
                cursor_position(*old(cursor)) as int,
            ).outcome matches Err(defect) && e.reports(defect),
        },
    decreases cursor_data(*old(cursor)).len() - cursor_position(*old(cursor)),
{
    let ghost bytes = cursor_data(*cursor);
    let ghost from = cursor_position(*cursor) as int;
    let num_of_items = get_integer(cursor)?;
    let ghost start = cursor_position(*cursor) as int;
    proof {
        lemma_scan_line_bounds(bytes, from);
    }
    let mut frames: VecDeque<Frame> = VecDeque::new();
    let mut done: u64 = 0;
    proof {
        assert(views(frames@) + scan_frames(bytes, start, num_of_items as nat).outcome->Ok_0
            =~= scan_frames(bytes, start, num_of_items as nat).outcome->Ok_0);
    }
    while done < num_of_items
        invariant
            done <= num_of_items,
            cursor_data(*cursor) == bytes,
            from < start <= cursor_position(*cursor) <= bytes.len(),
            from == cursor_position(*old(cursor)),
            bytes == cursor_data(*old(cursor)),
            scan_integer(bytes, from) == (Scan {
                outcome: Ok::<u64, Defect>(num_of_items),
                end: start,
            }),
            scan_frames(bytes, start, num_of_items as nat) == prepend(
                views(frames@),
                scan_frames(
                    bytes,
                    cursor_position(*cursor) as int,
                    (num_of_items - done) as nat,
                ),
            ),
        decreases num_of_items - done,
    {
        let ghost at = cursor_position(*cursor) as int;
        let ghost before = frames@;
        proof {
            lemma_scan_frames_step(bytes, at, (num_of_items - done) as nat);
            lemma_scan_frame_bounds(bytes, at);
        }
        let frame = Frame::parse(cursor)?;
        frames.push_back(frame);
        done += 1;
        proof {
            let rest = scan_frames(
                bytes,
                cursor_position(*cursor) as int,
                (num_of_items - done) as nat,
            );
            assert(views(frames@) =~= views(before).push(frame@));
            if rest.outcome is Ok {
                assert(views(before) + (seq![frame@] + rest.outcome->Ok_0) =~= views(frames@)
                    + rest.outcome->Ok_0);
            }
        }
    }
    let array = Frame::Array(frames);
    proof {
        lemma_array_view(frames);
        assert(views(frames@) + Seq::<FrameView>::empty() =~= views(frames@));
    }
    Ok(array)
}

impl Clone for Frame {
    fn clone(&self) -> (copy: Frame)
        ensures
            copy@ == self@,
        decreases self,
    {
        match self {
            Frame::SimpleString(text) => Frame::SimpleString(text.clone()),
            Frame::SimpleError(text) => Frame::SimpleError(text.clone()),
            Frame::Integer(n) => Frame::Integer(*n),
            Frame::Array(items) => {
                let mut copies: VecDeque<Frame> = VecDeque::new();
                let mut done: usize = 0;
                while done < items.len()
                    invariant
                        done <= items.len(),
                        *self == Frame::Array(*items),
                        views(copies@) == views(items@.take(done as int)),
                    decreases items.len() - done,
                {
                    proof {
                        vstd::std_specs::vecdeque::axiom_vec_dequeue_index_decreases(
                            *items,
                            done as int,
                        );
                        assert(decreases_to!(*self => (*self)->Array_0));
                    }
                    let ghost before = copies@;
                    let copy = items[done].clone();
                    assert(copy@ == items@[done as int]@);
                    copies.push_back(copy);
                    done += 1;
                    proof {
                        let taken = items@.take(done as int);
                        assert(copies@ == before.push(copy));
                        assert(views(before) == views(items@.take(done - 1)));
                        assert(views(copies@).len() == views(taken).len());
                        assert forall|i: int| 0 <= i < done implies views(copies@)[i] == views(
                            taken,
                        )[i] by {
                            if i < done - 1 {
                                assert(views(before)[i] == views(items@.take(done - 1))[i]);
                            }
                        }
                        assert(views(copies@) =~= views(taken));
                    }
                }
                proof {
                    assert(items@.take(items.len() as int) =~= items@);
                    lemma_array_view(copies);
                    lemma_array_view(*items);
                }
                Frame::Array(copies)
            },
        }
    }
}

} // verus!
