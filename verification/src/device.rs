//! The boundary to the device.
//!
//! The library never holds a device handle. Where it needs the device it hands
//! the caller a [`DeviceRequest`]; the caller performs it and hands back a
//! [`DeviceReply`]. The spec functions at the end say what a device of fixed
//! size answers, which is what the library's laws are stated against.
use vstd::prelude::*;

verus! {

/// One positional operation on the device, to be performed by the caller.
#[derive(Debug, PartialEq, Eq)]
pub enum DeviceRequest {
    /// Read exactly `len` bytes, starting at byte `offset`.
    Read { offset: u64, len: usize },
    /// Write all of `bytes` in one call, starting at byte `offset`.
    Write { offset: u64, bytes: Vec<u8> },
}

/// What the device did with a [`DeviceRequest`].
#[derive(Debug, PartialEq, Eq)]
pub enum DeviceReply {
    /// A read completed; these are the bytes, as many as were asked for.
    Data(Vec<u8>),
    /// A write completed in full.
    Written,
    /// The operation failed, or moved fewer bytes than asked.
    Failed,
}

/// A [`DeviceRequest`] with its bytes as a sequence.
pub enum DeviceRequestView {
    Read { offset: u64, len: usize },
    Write { offset: u64, bytes: Seq<u8> },
}

/// A [`DeviceReply`] with its bytes as a sequence.
pub enum DeviceReplyView {
    Data(Seq<u8>),
    Written,
    Failed,
}

impl View for DeviceRequest {
    type V = DeviceRequestView;

    open spec fn view(&self) -> DeviceRequestView {
        match *self {
            DeviceRequest::Read { offset, len } => DeviceRequestView::Read { offset, len },
            DeviceRequest::Write { offset, bytes } => DeviceRequestView::Write {
                offset,
                bytes: bytes@,
            },
        }
    }
}

impl View for DeviceReply {
    type V = DeviceReplyView;

    open spec fn view(&self) -> DeviceReplyView {
        match *self {
            DeviceReply::Data(bytes) => DeviceReplyView::Data(bytes@),
            DeviceReply::Written => DeviceReplyView::Written,
            DeviceReply::Failed => DeviceReplyView::Failed,
        }
    }
}

/// Whether the bytes `offset .. offset + len` all lie on a device that holds
/// `image`.
pub open spec fn device_covers(image: Seq<u8>, offset: nat, len: nat) -> bool {
    offset + len <= image.len()
}

/// What a device that holds `image` answers to `request`, when it does not
/// fail on any range it covers: a read inside the device yields the bytes
/// there, a write inside the device completes, and anything that reaches past
/// the end fails.
pub open spec fn device_reply(image: Seq<u8>, request: DeviceRequestView) -> DeviceReplyView {
    match request {
        DeviceRequestView::Read { offset, len } => if device_covers(
            image,
            offset as nat,
            len as nat,
        ) {
            DeviceReplyView::Data(image.subrange(offset as int, offset + len))
        } else {
            DeviceReplyView::Failed
        },
        DeviceRequestView::Write { offset, bytes } => if device_covers(
            image,
            offset as nat,
            bytes.len(),
        ) {
            DeviceReplyView::Written
        } else {
            DeviceReplyView::Failed
        },
    }
}

/// What the same device holds after `request`: a write inside the device
/// replaces the bytes it covers, and nothing else changes anything.
pub open spec fn device_after(image: Seq<u8>, request: DeviceRequestView) -> Seq<u8> {
    match request {
        DeviceRequestView::Write { offset, bytes } => if device_covers(
            image,
            offset as nat,
            bytes.len(),
        ) {
            Seq::new(
                image.len(),
                |i: int|
                    if offset <= i < offset + bytes.len() {
                        bytes[i - offset]
                    } else {
                        image[i]
                    },
            )
        } else {
            image
        },
        DeviceRequestView::Read { .. } => image,
    }
}

/// A device gives back what was last written: reading the range of a write
/// that completed yields the written bytes.
pub proof fn lemma_read_back(image: Seq<u8>, offset: u64, bytes: Seq<u8>)
    requires
        device_covers(image, offset as nat, bytes.len()),
        bytes.len() <= usize::MAX,
    ensures
        device_reply(
            device_after(image, DeviceRequestView::Write { offset, bytes }),
            DeviceRequestView::Read { offset, len: bytes.len() as usize },
        ) == DeviceReplyView::Data(bytes),
{
    let after = device_after(image, DeviceRequestView::Write { offset, bytes });
    assert(after.subrange(offset as int, offset + bytes.len()) =~= bytes);
}

} // verus!
