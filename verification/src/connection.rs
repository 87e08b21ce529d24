//! The codec state of one connection: the bytes received and not yet
//! parsed, and the frames that go in and out through them.

use vstd::prelude::*;
use bytes::{Buf, BytesMut};
use crate::frame::{encode, encode_into, parse, parse_at, Frame, Parsed, ProtocolError};

verus! {

/// The room that the read buffer of a connection starts with.
pub const BUFFER_CAPACITY: usize = 4096;

/// The growable byte buffer of the `bytes` crate, as an opaque type.
#[verifier::external_type_specification]
#[verifier::external_body]
pub struct ExBytesMut(BytesMut);

/// The bytes that a buffer holds, in order.
pub uninterp spec fn buffered(buf: BytesMut) -> Seq<u8>;

/// `BytesMut::with_capacity`: a buffer that holds no bytes.
#[verifier::external_body]
fn new_buffer(capacity: usize) -> (buf: BytesMut)
    ensures
        buffered(buf) == Seq::<u8>::empty(),
{
    BytesMut::with_capacity(capacity)
}

/// The dereference of a `BytesMut` to a slice: the bytes that it holds.
#[verifier::external_body]
fn buffer_bytes(buf: &BytesMut) -> (bytes: &[u8])
    ensures
        bytes@ == buffered(*buf),
{
    &buf[..]
}

/// `Buf::advance` on a `BytesMut`: the first `count` bytes are dropped. It
/// panics where the buffer holds fewer.
#[verifier::external_body]
fn buffer_advance(buf: &mut BytesMut, count: usize)
    requires
        count <= buffered(*old(buf)).len(),
    ensures
        buffered(*final(buf)) == buffered(*old(buf)).skip(count as int),
{
    buf.advance(count);
}

/// `BytesMut::extend_from_slice`: the bytes are appended.
#[verifier::external_body]
fn buffer_extend(buf: &mut BytesMut, bytes: &[u8])
    ensures
        buffered(*final(buf)) == buffered(*old(buf)) + bytes@,
{
    buf.extend_from_slice(bytes);
}

/// Takes the first frame out of `buf`. A whole frame is returned and exactly
/// its bytes are dropped from the buffer; while the frame is incomplete, and
/// where the bytes start no frame, the buffer stays as it is.
pub fn parse_frame(buf: &mut BytesMut) -> (r: Result<Option<Frame>, ProtocolError>)
    ensures
        match parse(buffered(*old(buf)), 0) {
            Parsed::Complete(m, end) => r matches Ok(Some(f)) && f@ == m && buffered(*final(buf))
                == buffered(*old(buf)).skip(end),
            Parsed::Incomplete => r matches Ok(None) && buffered(*final(buf)) == buffered(
                *old(buf),
            ),
            Parsed::Invalid(err) => r matches Err(e) && e == err && buffered(*final(buf))
                == buffered(*old(buf)),
        },
{
    let parsed = parse_at(buffer_bytes(buf), 0);
    match parsed {
        Ok(Some((frame, consumed))) => {
            buffer_advance(buf, consumed);
            Ok(Some(frame))
        },
        Ok(None) => Ok(None),
        Err(err) => Err(err),
    }
}

/// Appends the wire encoding of `frame` to `buf`.
pub fn serialize_frame(frame: &Frame, buf: &mut BytesMut)
    ensures
        buffered(*final(buf)) == buffered(*old(buf)) + encode(frame@),
{
    let mut out: Vec<u8> = Vec::new();
    encode_into(frame, &mut out);
    assert(out@ =~= encode(frame@));
    buffer_extend(buf, out.as_slice());
}

/// Why reading from a connection ended without a frame.
#[derive(Debug, Clone, Copy, PartialEq, Eq)]
pub enum ReadError {
    /// The bytes received start no frame.
    Protocol(ProtocolError),
    /// The peer closed the connection within a frame.
    UnexpectedEof,
}

/// The read side of a connection.
pub struct Connection {
    buffer: BytesMut,
}

impl View for Connection {
    type V = Seq<u8>;

    /// The bytes received and not yet parsed.
    closed spec fn view(&self) -> Seq<u8> {
        buffered(self.buffer)
    }
}

impl Connection {
    /// A connection that has received nothing.
    pub fn new() -> (c: Connection)
        ensures
            c@ == Seq::<u8>::empty(),
    {
        Connection { buffer: new_buffer(BUFFER_CAPACITY) }
    }

    /// Takes in bytes that arrived from the peer.
    pub fn receive(&mut self, bytes: &[u8])
        ensures
            final(self)@ == old(self)@ + bytes@,
    {
        buffer_extend(&mut self.buffer, bytes);
    }

    /// The next frame among the bytes received: `None` until a whole frame
    /// has arrived, an error where the bytes start no frame.
    pub fn read_frame(&mut self) -> (r: Result<Option<Frame>, ReadError>)
        ensures
            match parse(old(self)@, 0) {
                Parsed::Complete(m, end) => r matches Ok(Some(f)) && f@ == m && final(self)@
                    == old(self)@.skip(end),
                Parsed::Incomplete => r matches Ok(None) && final(self)@ == old(self)@,
                Parsed::Invalid(err) => r matches Err(ReadError::Protocol(e)) && e == err
                    && final(self)@ == old(self)@,
            },
    {
        match parse_frame(&mut self.buffer) {
            Ok(found) => Ok(found),
            Err(err) => Err(ReadError::Protocol(err)),
        }
    }

    /// What the end of the peer's stream means once no whole frame is left:
    /// a clean close where nothing was received since the last frame, a
    /// reset within a frame otherwise.
    pub fn end_of_stream(&self) -> (r: Result<(), ReadError>)
        ensures
            self@.len() == 0 ==> r is Ok,
            self@.len() > 0 ==> r == Err::<(), ReadError>(ReadError::UnexpectedEof),
    {
        if buffer_bytes(&self.buffer).len() == 0 {
            Ok(())
        } else {
            Err(ReadError::UnexpectedEof)
        }
    }

    /// The bytes to send for `frame`.
    pub fn write_frame(frame: &Frame) -> (bytes: Vec<u8>)
        ensures
            bytes@ == encode(frame@),
    {
        let mut buf = new_buffer(0);
        serialize_frame(frame, &mut buf);
        let bytes = vstd::slice::slice_to_vec(buffer_bytes(&buf));
        assert(bytes@ =~= encode(frame@));
        bytes
    }
}

} // verus!
