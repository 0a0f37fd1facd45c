use crate::frame::{
    crlf_at, lemma_array_view, lemma_find_crlf, lemma_scan_frame_bounds, scan_frame, scan_frames,
    scan_integer, scan_line, scan_text, views, Defect, Frame, FrameView, Scan, ARRAY, CR, INTEGER,
    LF, SIMPLE_ERROR, SIMPLE_STRING,
};
use crate::number::{all_digits, decimal_value, is_digit};
use vstd::prelude::*;
use vstd::utf8::{encode_utf8, encode_utf8_decode_utf8, encode_utf8_valid_utf8};

verus! {

/// The ASCII digits that write a number in base ten, without leading zeros.
pub open spec fn digits_of(n: nat) -> Seq<u8>
    decreases n,
{
    if n < 10 {
        seq![(0x30 + n) as u8]
    } else {
        digits_of(n / 10).push((0x30 + n % 10) as u8)
    }
}

/// The two bytes that end a line.
pub open spec fn crlf() -> Seq<u8> {
    seq![CR, LF]
}

/// The bytes as which a frame goes over the wire: its tag, its line, and for
/// an array the bytes of its frames in turn.
pub open spec fn wire(frame: FrameView) -> Seq<u8>
    decreases frame, 0nat,
{
    match frame {
        FrameView::SimpleString(text) => seq![SIMPLE_STRING] + encode_utf8(text) + crlf(),
        FrameView::SimpleError(text) => seq![SIMPLE_ERROR] + encode_utf8(text) + crlf(),
        FrameView::Integer(n) => seq![INTEGER] + digits_of(n as nat) + crlf(),
        FrameView::Array(items) => seq![ARRAY] + digits_of(items.len()) + crlf() + wire_from(
            items,
            0,
        ),
    }
}

/// The bytes of the frames of a sequence from an index on, one after the other.
pub open spec fn wire_from(items: Seq<FrameView>, index: nat) -> Seq<u8>
    decreases items, items.len() - index,
{
    if index >= items.len() {
        Seq::empty()
    } else {
        wire(items[index as int]) + wire_from(items, index + 1)
    }
}

/// The bytes of the frames of a sequence before an index.
pub open spec fn wire_upto(items: Seq<FrameView>, index: nat) -> Seq<u8>
    decreases index,
{
    if index == 0 || index > items.len() {
        Seq::empty()
    } else {
        wire_upto(items, (index - 1) as nat) + wire(items[index - 1])
    }
}

/// The frames before an index and those from it on make up all of them.
pub proof fn lemma_wire_split(items: Seq<FrameView>, index: nat)
    requires
        index <= items.len(),
    ensures
        wire_upto(items, index) + wire_from(items, index) == wire_from(items, 0),
    decreases index,
{
    if index > 0 {
        lemma_wire_split(items, (index - 1) as nat);
        assert(wire_upto(items, index) + wire_from(items, index) =~= wire_upto(
            items,
            (index - 1) as nat,
        ) + wire_from(items, (index - 1) as nat));
    } else {
        assert(wire_upto(items, 0) + wire_from(items, 0) =~= wire_from(items, 0));
    }
}

/// Appends bytes to a buffer.
pub fn push_bytes(out: &mut Vec<u8>, bytes: &[u8])
    ensures
        final(out)@ == old(out)@ + bytes@,
{
    let mut i: usize = 0;
    while i < bytes.len()
        invariant
            i <= bytes.len(),
            out@ == old(out)@ + bytes@.take(i as int),
        decreases bytes.len() - i,
    {
        out.push(bytes[i]);
        i += 1;
        assert(out@ =~= old(out)@ + bytes@.take(i as int));
    }
    assert(bytes@.take(bytes.len() as int) =~= bytes@);
}

/// Appends a number to a buffer, as ASCII digits in base ten.
pub fn push_decimal(out: &mut Vec<u8>, n: u64)
    ensures
        final(out)@ == old(out)@ + digits_of(n as nat),
{
    let mut low_first: Vec<u8> = Vec::new();
    let mut rest: u64 = n;
    while rest >= 10
        invariant
            digits_of(n as nat) == digits_of(rest as nat) + low_first@.reverse(),
        decreases rest,
    {
        let digit: u8 = 0x30 + (rest % 10) as u8;
        let ghost before = low_first@;
        low_first.push(digit);
        proof {
            assert(low_first@.reverse() =~= seq![digit] + before.reverse());
            assert(digits_of(rest as nat) + before.reverse() =~= digits_of((rest / 10) as nat)
                + low_first@.reverse());
        }
        rest = rest / 10;
    }
    let ghost before = low_first@;
    let last: u8 = 0x30 + rest as u8;
    low_first.push(last);
    proof {
        assert(low_first@.reverse() =~= seq![last] + before.reverse());
        assert(digits_of(n as nat) =~= low_first@.reverse());
    }
    let mut left: usize = low_first.len();
    while left > 0
        invariant
            left <= low_first.len(),
            out@ == old(out)@ + low_first@.reverse().take(low_first.len() - left),
        decreases left,
    {
        left -= 1;
        out.push(low_first[left]);
        assert(out@ =~= old(out)@ + low_first@.reverse().take(low_first.len() - left));
    }
    assert(low_first@.reverse().take(low_first.len() as int) =~= low_first@.reverse());
}

impl Frame {
    /// Appends the bytes of this frame to a buffer.
    pub fn serialize(&self, out: &mut Vec<u8>)
        ensures
            final(out)@ == old(out)@ + wire(self@),
        decreases self,
    {
        match self {
            Frame::SimpleString(text) => {
                out.push(SIMPLE_STRING);
                push_bytes(out, text.as_str().as_bytes());
                out.push(CR);
                out.push(LF);
                assert(out@ =~= old(out)@ + wire(self@));
            },
            Frame::SimpleError(text) => {
                out.push(SIMPLE_ERROR);
                push_bytes(out, text.as_str().as_bytes());
                out.push(CR);
                out.push(LF);
                assert(out@ =~= old(out)@ + wire(self@));
            },
            Frame::Integer(n) => {
                out.push(INTEGER);
                push_decimal(out, *n);
                out.push(CR);
                out.push(LF);
                assert(out@ =~= old(out)@ + wire(self@));
            },
            Frame::Array(items) => {
                out.push(ARRAY);
                push_decimal(out, items.len() as u64);
                out.push(CR);
                out.push(LF);
                let ghost head = out@;
                let ghost all = views(items@);
                proof {
                    lemma_array_view(*items);
                    assert(head =~= old(out)@ + (seq![ARRAY] + digits_of(all.len()) + crlf()));
                }
                let mut i: usize = 0;
                while i < items.len()
                    invariant
                        i <= items.len(),
                        all == views(items@),
                        out@ == head + wire_upto(all, i as nat),
                        *self == Frame::Array(*items),
                    decreases items.len() - i,
                {
                    proof {
                        vstd::std_specs::vecdeque::axiom_vec_dequeue_index_decreases(
                            *items,
                            i as int,
                        );
                        assert(decreases_to!(*self => (*self)->Array_0));
                    }
                    items[i].serialize(out);
                    i += 1;
                    assert(out@ =~= head + wire_upto(all, i as nat));
                }
                proof {
                    lemma_wire_split(all, all.len());
                    assert(wire_from(all, all.len()) =~= Seq::<u8>::empty());
                    assert(out@ =~= old(out)@ + wire(self@));
                }
            },
        }
    }

    /// The bytes as which this frame goes over the wire.
    pub fn to_bytes(&self) -> (bytes: Vec<u8>)
        ensures
            bytes@ == wire(self@),
    {
        let mut bytes: Vec<u8> = Vec::new();
        self.serialize(&mut bytes);
        assert(bytes@ =~= wire(self@));
        bytes
    }
}

/// Whether bytes hold no CR LF pair.
pub open spec fn no_crlf(bytes: Seq<u8>) -> bool {
    forall|i: int| !crlf_at(bytes, i)
}

/// Whether, from an offset on, bytes agree with the first `upto` bytes of an
/// expected sequence.
pub open spec fn agrees_at(bytes: Seq<u8>, from: int, expected: Seq<u8>, upto: int) -> bool {
    &&& 0 <= from
    &&& 0 <= upto <= expected.len()
    &&& from + upto <= bytes.len()
    &&& forall|i: int| 0 <= i < upto ==> bytes[from + i] == #[trigger] expected[i]
}

/// Whether the whole of an expected sequence stands in bytes at an offset.
pub open spec fn stands_at(bytes: Seq<u8>, from: int, expected: Seq<u8>) -> bool {
    agrees_at(bytes, from, expected, expected.len() as int)
}

/// Bytes that agree with two sequences in a row agree with each of them.
pub proof fn lemma_agrees_split(
    bytes: Seq<u8>,
    from: int,
    first: Seq<u8>,
    second: Seq<u8>,
    upto: int,
)
    requires
        agrees_at(bytes, from, first + second, upto),
    ensures
        upto <= first.len() ==> agrees_at(bytes, from, first, upto),
        upto >= first.len() ==> stands_at(bytes, from, first) && agrees_at(
            bytes,
            from + first.len(),
            second,
            upto - first.len(),
        ),
{
    let both = first + second;
    if upto <= first.len() {
        assert forall|i: int| 0 <= i < upto implies bytes[from + i] == #[trigger] first[i] by {
            assert(both[i] == first[i]);
        }
    } else {
        assert forall|i: int| 0 <= i < first.len() implies bytes[from + i]
            == #[trigger] first[i] by {
            assert(both[i] == first[i]);
        }
        assert forall|i: int| 0 <= i < upto - first.len() implies bytes[from + first.len() + i]
            == #[trigger] second[i] by {
            assert(both[first.len() + i] == second[i]);
        }
    }
}

/// The digits of a number are digits, at least one, and write that number.
pub proof fn lemma_digits_of(n: nat)
    ensures
        digits_of(n).len() > 0,
        all_digits(digits_of(n)),
        decimal_value(digits_of(n)) == n,
        no_crlf(digits_of(n)),
    decreases n,
{
    let digits = digits_of(n);
    if n < 10 {
        assert(digits.drop_last() =~= Seq::<u8>::empty());
        assert(decimal_value(digits.drop_last()) == 0);
    } else {
        lemma_digits_of(n / 10);
        assert(digits.drop_last() =~= digits_of(n / 10));
        assert(forall|i: int| 0 <= i < digits.len() - 1 ==> digits[i] == digits_of(n / 10)[i]);
    }
    assert(forall|i: int| 0 <= i < digits.len() ==> is_digit(#[trigger] digits[i]));
}

/// A line without a CR LF pair, followed by one, is read up to that pair.
pub proof fn lemma_line_found(bytes: Seq<u8>, from: int, line: Seq<u8>)
    requires
        no_crlf(line),
        stands_at(bytes, from, line + crlf()),
    ensures
        scan_line(bytes, from) == (Scan {
            outcome: Ok::<Seq<u8>, Defect>(line),
            end: from + line.len() + 2,
        }),
{
    let ended = line + crlf();
    let at = from + line.len();
    assert(ended[line.len() as int] == CR);
    assert(ended[line.len() as int + 1] == LF);
    assert(crlf_at(bytes, at));
    assert forall|i: int| from <= i < at implies !crlf_at(bytes, i) by {
        let k = i - from;
        assert(ended[k] == line[k]);
        if k + 1 < line.len() {
            assert(ended[k + 1] == line[k + 1]);
            assert(!crlf_at(line, k));
        } else {
            assert(ended[k + 1] == CR);
        }
    }
    lemma_find_crlf(bytes, from);
    assert(bytes.subrange(from, at) =~= line) by {
        assert forall|k: int| 0 <= k < line.len() implies bytes[from + k] == line[k] by {
            assert(ended[k] == line[k]);
        }
    }
}

/// A line without a CR LF pair that is cut off before its end is not read.
pub proof fn lemma_line_cut(bytes: Seq<u8>, from: int, line: Seq<u8>, upto: int)
    requires
        no_crlf(line),
        agrees_at(bytes, from, line + crlf(), upto),
        upto < line.len() + 2,
        bytes.len() == from + upto,
    ensures
        scan_line(bytes, from) == (Scan {
            outcome: Err::<Seq<u8>, Defect>(Defect::Incomplete),
            end: from,
        }),
{
    let ended = line + crlf();
    assert forall|i: int| from <= i implies !crlf_at(bytes, i) by {
        let k = i - from;
        if k + 1 < upto {
            assert(ended[k] == bytes[from + k]);
            assert(ended[k + 1] == bytes[from + k + 1]);
            if k + 1 < line.len() {
                assert(ended[k] == line[k]);
                assert(ended[k + 1] == line[k + 1]);
                assert(!crlf_at(line, k));
            } else {
                assert(ended[k + 1] == CR);
            }
        }
    }
    lemma_find_crlf(bytes, from);
}

/// Whether a frame can go over the wire and come back: no text of it holds a
/// CR LF pair in its bytes, and no array of it has more frames than a 64-bit
/// number counts.
pub open spec fn wire_safe(frame: FrameView) -> bool
    decreases frame,
{
    match frame {
        FrameView::SimpleString(text) => no_crlf(encode_utf8(text)),
        FrameView::SimpleError(text) => no_crlf(encode_utf8(text)),
        FrameView::Integer(_) => true,
        FrameView::Array(items) => items.len() <= u64::MAX && forall|i: int|
            0 <= i < items.len() ==> wire_safe(#[trigger] items[i]),
    }
}

/// A line of text that stands in bytes is read as that text.
proof fn lemma_text_found(bytes: Seq<u8>, from: int, text: Seq<char>)
    requires
        no_crlf(encode_utf8(text)),
        stands_at(bytes, from, encode_utf8(text) + crlf()),
    ensures
        scan_text(bytes, from) == (Scan {
            outcome: Ok::<Seq<char>, Defect>(text),
            end: from + encode_utf8(text).len() + 2,
        }),
{
    lemma_line_found(bytes, from, encode_utf8(text));
    encode_utf8_valid_utf8(text);
    encode_utf8_decode_utf8(text);
}

/// A line that holds the digits of a number is read as that number.
proof fn lemma_integer_found(bytes: Seq<u8>, from: int, n: nat)
    requires
        n <= u64::MAX,
        stands_at(bytes, from, digits_of(n) + crlf()),
    ensures
        scan_integer(bytes, from) == (Scan {
            outcome: Ok::<u64, Defect>(n as u64),
            end: from + digits_of(n).len() + 2,
        }),
{
    lemma_digits_of(n);
    lemma_line_found(bytes, from, digits_of(n));
}

/// The bytes of a frame, wherever they stand, are read as that frame, and
/// reading stops right behind them.
pub proof fn lemma_scan_wire(frame: FrameView, bytes: Seq<u8>, from: int)
    requires
        wire_safe(frame),
        stands_at(bytes, from, wire(frame)),
    ensures
        scan_frame(bytes, from) == (Scan {
            outcome: Ok::<FrameView, Defect>(frame),
            end: from + wire(frame).len(),
        }),
    decreases frame, 0nat,
{
    match frame {
        FrameView::SimpleString(text) => {
            let line = encode_utf8(text) + crlf();
            assert(wire(frame) =~= seq![SIMPLE_STRING] + line);
            lemma_agrees_split(bytes, from, seq![SIMPLE_STRING], line, wire(frame).len() as int);
            assert(bytes[from] == seq![SIMPLE_STRING][0]);
            lemma_text_found(bytes, from + 1, text);
        },
        FrameView::SimpleError(text) => {
            let line = encode_utf8(text) + crlf();
            assert(wire(frame) =~= seq![SIMPLE_ERROR] + line);
            lemma_agrees_split(bytes, from, seq![SIMPLE_ERROR], line, wire(frame).len() as int);
            assert(bytes[from] == seq![SIMPLE_ERROR][0]);
            lemma_text_found(bytes, from + 1, text);
        },
        FrameView::Integer(n) => {
            let line = digits_of(n as nat) + crlf();
            assert(wire(frame) =~= seq![INTEGER] + line);
            lemma_agrees_split(bytes, from, seq![INTEGER], line, wire(frame).len() as int);
            assert(bytes[from] == seq![INTEGER][0]);
            lemma_integer_found(bytes, from + 1, n as nat);
        },
        FrameView::Array(items) => {
            let line = digits_of(items.len()) + crlf();
            let body = wire_from(items, 0);
            assert(wire(frame) =~= seq![ARRAY] + (line + body));
            lemma_agrees_split(bytes, from, seq![ARRAY], line + body, wire(frame).len() as int);
            assert(bytes[from] == seq![ARRAY][0]);
            lemma_agrees_split(bytes, from + 1, line, body, (line + body).len() as int);
            lemma_integer_found(bytes, from + 1, items.len());
            lemma_scan_wire_items(items, 0, bytes, from + 1 + line.len());
            assert(items.skip(0) =~= items);
        },
    }
}

/// The bytes of the frames of a sequence from an index on, wherever they
/// stand, are read as those frames.
pub proof fn lemma_scan_wire_items(items: Seq<FrameView>, index: nat, bytes: Seq<u8>, from: int)
    requires
        index <= items.len(),
        forall|i: int| 0 <= i < items.len() ==> wire_safe(#[trigger] items[i]),
        stands_at(bytes, from, wire_from(items, index)),
    ensures
        scan_frames(bytes, from, (items.len() - index) as nat) == (Scan {
            outcome: Ok::<Seq<FrameView>, Defect>(items.skip(index as int)),
            end: from + wire_from(items, index).len(),
        }),
    decreases items, items.len() - index,
{
    if index == items.len() {
        assert(items.skip(index as int) =~= Seq::<FrameView>::empty());
    } else {
        let first = wire(items[index as int]);
        let rest = wire_from(items, index + 1);
        lemma_agrees_split(bytes, from, first, rest, (first + rest).len() as int);
        lemma_scan_wire(items[index as int], bytes, from);
        lemma_scan_frame_bounds(bytes, from);
        lemma_scan_wire_items(items, index + 1, bytes, from + first.len());
        assert(seq![items[index as int]] + items.skip(index as int + 1) =~= items.skip(
            index as int,
        ));
    }
}

/// The bytes of a frame, cut off before their end, are not read: more bytes
/// are asked for.
pub proof fn lemma_scan_cut(frame: FrameView, bytes: Seq<u8>, from: int, upto: int)
    requires
        wire_safe(frame),
        agrees_at(bytes, from, wire(frame), upto),
        upto < wire(frame).len(),
        bytes.len() == from + upto,
    ensures
        scan_frame(bytes, from).outcome == Err::<FrameView, Defect>(Defect::Incomplete),
    decreases frame, 0nat,
{
    if upto > 0 {
        match frame {
            FrameView::SimpleString(text) => {
                let line = encode_utf8(text) + crlf();
                assert(wire(frame) =~= seq![SIMPLE_STRING] + line);
                lemma_agrees_split(bytes, from, seq![SIMPLE_STRING], line, upto);
                assert(bytes[from] == seq![SIMPLE_STRING][0]);
                lemma_line_cut(bytes, from + 1, encode_utf8(text), upto - 1);
            },
            FrameView::SimpleError(text) => {
                let line = encode_utf8(text) + crlf();
                assert(wire(frame) =~= seq![SIMPLE_ERROR] + line);
                lemma_agrees_split(bytes, from, seq![SIMPLE_ERROR], line, upto);
                assert(bytes[from] == seq![SIMPLE_ERROR][0]);
                lemma_line_cut(bytes, from + 1, encode_utf8(text), upto - 1);
            },
            FrameView::Integer(n) => {
                let line = digits_of(n as nat) + crlf();
                assert(wire(frame) =~= seq![INTEGER] + line);
                lemma_agrees_split(bytes, from, seq![INTEGER], line, upto);
                assert(bytes[from] == seq![INTEGER][0]);
                lemma_digits_of(n as nat);
                lemma_line_cut(bytes, from + 1, digits_of(n as nat), upto - 1);
            },
            FrameView::Array(items) => {
                let line = digits_of(items.len()) + crlf();
                let body = wire_from(items, 0);
                assert(wire(frame) =~= seq![ARRAY] + (line + body));
                lemma_agrees_split(bytes, from, seq![ARRAY], line + body, upto);
                assert(bytes[from] == seq![ARRAY][0]);
                lemma_agrees_split(bytes, from + 1, line, body, upto - 1);
                lemma_digits_of(items.len());
                if upto - 1 < line.len() {
                    lemma_line_cut(bytes, from + 1, digits_of(items.len()), upto - 1);
                } else {
                    lemma_integer_found(bytes, from + 1, items.len());
                    lemma_scan_cut_items(
                        items,
                        0,
                        bytes,
                        from + 1 + line.len(),
                        upto - 1 - line.len(),
                    );
                }
            },
        }
    }
}

/// The bytes of the frames of a sequence, cut off before their end, are not
/// read: more bytes are asked for.
pub proof fn lemma_scan_cut_items(
    items: Seq<FrameView>,
    index: nat,
    bytes: Seq<u8>,
    from: int,
    upto: int,
)
    requires
        index <= items.len(),
        forall|i: int| 0 <= i < items.len() ==> wire_safe(#[trigger] items[i]),
        agrees_at(bytes, from, wire_from(items, index), upto),
        upto < wire_from(items, index).len(),
        bytes.len() == from + upto,
    ensures
        scan_frames(bytes, from, (items.len() - index) as nat).outcome == Err::<
            Seq<FrameView>,
            Defect,
        >(Defect::Incomplete),
    decreases items, items.len() - index,
{
    let first = wire(items[index as int]);
    let rest = wire_from(items, index + 1);
    lemma_agrees_split(bytes, from, first, rest, upto);
    if upto < first.len() {
        lemma_scan_cut(items[index as int], bytes, from, upto);
    } else {
        lemma_scan_wire(items[index as int], bytes, from);
        lemma_scan_frame_bounds(bytes, from);
        lemma_scan_cut_items(items, index + 1, bytes, from + first.len(), upto - first.len());
    }
}

/// Whether no text of a frame holds a CR LF pair in its bytes.
pub open spec fn crlf_free(frame: FrameView) -> bool
    decreases frame,
{
    match frame {
        FrameView::SimpleString(text) => no_crlf(encode_utf8(text)),
        FrameView::SimpleError(text) => no_crlf(encode_utf8(text)),
        FrameView::Integer(_) => true,
        FrameView::Array(items) => forall|i: int|
            0 <= i < items.len() ==> crlf_free(#[trigger] items[i]),
    }
}

/// Whether no array of a frame has more frames than a 64-bit number counts.
pub open spec fn countable(frame: FrameView) -> bool
    decreases frame,
{
    match frame {
        FrameView::Array(items) => items.len() <= u64::MAX && forall|i: int|
            0 <= i < items.len() ==> countable(#[trigger] items[i]),
        _ => true,
    }
}

/// A frame can go over the wire and come back if its texts hold no CR LF
/// pair and its arrays can be counted.
pub proof fn lemma_wire_safe(frame: FrameView)
    requires
        crlf_free(frame),
        countable(frame),
    ensures
        wire_safe(frame),
    decreases frame,
{
    match frame {
        FrameView::Array(items) => {
            assert forall|i: int| 0 <= i < items.len() implies wire_safe(#[trigger] items[i]) by {
                lemma_wire_safe(items[i]);
            }
        },
        _ => {},
    }
}

/// The arrays of a frame that is held in memory can be counted.
pub proof fn lemma_countable(frame: Frame)
    ensures
        countable(frame@),
    decreases frame,
{
    match frame {
        Frame::Array(items) => {
            lemma_array_view(items);
            vstd::std_specs::vecdeque::axiom_spec_len(&items);
            assert forall|i: int| 0 <= i < items@.len() implies countable(
                #[trigger] views(items@)[i],
            ) by {
                vstd::std_specs::vecdeque::axiom_vec_dequeue_index_decreases(items, i);
                lemma_countable(items@[i]);
            }
        },
        _ => {},
    }
}

/// Reading the bytes of a frame gives back that frame, and stops at their
/// end. This holds of every frame none of whose texts holds a CR LF pair.
pub proof fn parse_inverts_serialize(frame: Frame)
    requires
        crlf_free(frame@),
    ensures
        scan_frame(wire(frame@), 0) == (Scan {
            outcome: Ok::<FrameView, Defect>(frame@),
            end: wire(frame@).len() as int,
        }),
{
    lemma_countable(frame);
    lemma_wire_safe(frame@);
    lemma_scan_wire(frame@, wire(frame@), 0);
}

/// Every proper prefix of the bytes of a frame is incomplete, and the bytes
/// themselves are a frame that ends with their last byte, whatever follows.
/// This holds of every frame none of whose texts holds a CR LF pair.
pub proof fn prefix_is_incomplete(frame: Frame, upto: int, following: Seq<u8>)
    requires
        crlf_free(frame@),
        0 <= upto < wire(frame@).len(),
    ensures
        scan_frame(wire(frame@).take(upto), 0).outcome == Err::<FrameView, Defect>(
            Defect::Incomplete,
        ),
        scan_frame(wire(frame@) + following, 0).outcome is Ok,
        scan_frame(wire(frame@) + following, 0).end == wire(frame@).len(),
{
    lemma_countable(frame);
    lemma_wire_safe(frame@);
    lemma_scan_cut(frame@, wire(frame@).take(upto), 0, upto);
    lemma_scan_wire(frame@, wire(frame@) + following, 0);
}

} // verus!
