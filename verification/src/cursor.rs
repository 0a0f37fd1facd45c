use bytes::Buf;
use std::io::Cursor;
use vstd::prelude::*;

verus! {

/// `std::io::Cursor`, of which nothing is known but what the functions below
/// say.
#[verifier::external_type_specification]
#[verifier::external_body]
#[verifier::reject_recursive_types(T)]
pub struct ExCursor<T>(Cursor<T>);

/// The bytes that a cursor reads from: the slice that it was made over.
pub uninterp spec fn cursor_data(cursor: Cursor<&[u8]>) -> Seq<u8>;

/// The offset at which a cursor stands. It may lie behind the end of the
/// bytes.
pub uninterp spec fn cursor_position(cursor: Cursor<&[u8]>) -> u64;

/// `Cursor::new`: a cursor over a slice, which stands at its first byte.
#[verifier::external_body]
pub(crate) fn cursor_over<'a>(bytes: &'a [u8]) -> (cursor: Cursor<&'a [u8]>)
    ensures
        cursor_data(cursor) == bytes@,
        cursor_position(cursor) == 0,
{
    Cursor::new(bytes)
}

/// `Cursor::position`: the offset at which the cursor stands.
#[verifier::external_body]
pub(crate) fn position(cursor: &Cursor<&[u8]>) -> (pos: u64)
    ensures
        pos == cursor_position(*cursor),
{
    cursor.position()
}

/// `Cursor::set_position`: moves the cursor to an offset, which may lie
/// behind the end of the bytes, and leaves the bytes as they are.
#[verifier::external_body]
pub(crate) fn set_position(cursor: &mut Cursor<&[u8]>, pos: u64)
    ensures
        cursor_position(*final(cursor)) == pos,
        cursor_data(*final(cursor)) == cursor_data(*old(cursor)),
{
    cursor.set_position(pos)
}

/// `Cursor::get_ref`: the slice that the cursor was made over.
#[verifier::external_body]
pub(crate) fn data<'a>(cursor: &Cursor<&'a [u8]>) -> (bytes: &'a [u8])
    ensures
        bytes@ == cursor_data(*cursor),
{
    *cursor.get_ref()
}

/// `bytes::Buf::has_remaining` on a cursor: whether bytes are left between
/// the cursor's offset and the end.
#[verifier::external_body]
pub(crate) fn has_remaining(cursor: &Cursor<&[u8]>) -> (more: bool)
    ensures
        more == (cursor_position(*cursor) < cursor_data(*cursor).len()),
{
    cursor.has_remaining()
}

/// `bytes::Buf::get_u8` on a cursor that has a byte left: the byte at the
/// cursor's offset, past which the cursor moves. With no byte left the
/// outside function panics, so such a cursor is not admitted.
#[verifier::external_body]
pub(crate) fn get_u8(cursor: &mut Cursor<&[u8]>) -> (byte: u8)
    requires
        cursor_position(*old(cursor)) < cursor_data(*old(cursor)).len(),
    ensures
        byte == cursor_data(*old(cursor))[cursor_position(*old(cursor)) as int],
        cursor_position(*final(cursor)) == cursor_position(*old(cursor)) + 1,
        cursor_data(*final(cursor)) == cursor_data(*old(cursor)),
{
    cursor.get_u8()
}

} // verus!
