//! The block devices an image lives on.
//!
//! The spec functions of the two traits say what a device holds and when
//! it may fail. They have default bodies that say nothing, so that code
//! outside the verified crate can implement the traits by their
//! executable functions alone; what is proved of a reader on such a device
//! then rests on the device keeping the contracts below.

use crate::bytes::copy_into;
use crate::error::{Error, Result};
use vstd::prelude::*;

verus! {

/// `c` after `data` landed at byte `at`: a write past the end grows the
/// device, and any gap it leaves is zero.
pub open spec fn written(c: Seq<u8>, at: int, data: Seq<u8>) -> Seq<u8> {
    if data.len() == 0 {
        c
    } else {
        let end = at + data.len();
        let len = if end > c.len() { end } else { c.len() as int };
        Seq::new(
            len as nat,
            |i: int|
                if at <= i < end {
                    data[i - at]
                } else if i < c.len() {
                    c[i]
                } else {
                    0u8
                },
        )
    }
}

/// Whether a device may answer a request with `e`. The other errors are
/// verdicts on the bytes of an image, which are not a device's to give.
pub open spec fn device_error(e: Error) -> bool {
    e is Io || e is OutOfBounds || e is ReadOnly
}

/// Read-only random-access block device.
pub trait BlockRead {
    /// The bytes the device holds.
    open spec fn contents(&self) -> Seq<u8> {
        arbitrary()
    }

    /// The size the device reports.
    open spec fn size(&self) -> nat {
        arbitrary()
    }

    /// Whether every request the device can serve, it does serve.
    open spec fn reliable(&self) -> bool {
        arbitrary()
    }

    /// Read exactly `buf.len()` bytes starting at byte `offset`.
    fn read_at(&self, offset: u64, buf: &mut [u8]) -> (r: Result<()>)
        ensures
            final(buf)@.len() == old(buf)@.len(),
            r is Ok ==> offset + old(buf)@.len() <= self.contents().len() && final(buf)@
                == self.contents().subrange(offset as int, offset + old(buf)@.len()),
            r matches Err(e) ==> device_error(e) && !(self.reliable() && offset + old(buf)@.len()
                <= self.contents().len()),
    ;

    /// Total device size in bytes.
    fn size_bytes(&self) -> (n: u64)
        ensures
            n == self.size(),
    ;
}

/// Read-write random-access block device.
pub trait BlockDevice: BlockRead {
    /// Whether the device says it takes writes.
    open spec fn writable(&self) -> bool {
        arbitrary()
    }

    /// The furthest byte a write can end at.
    open spec fn limit(&self) -> int {
        arbitrary()
    }

    /// Write exactly `buf.len()` bytes at byte `offset`.
    fn write_at(&mut self, offset: u64, buf: &[u8]) -> (r: Result<()>)
        ensures
            final(self).writable() == old(self).writable(),
            final(self).limit() == old(self).limit(),
            old(self).size() <= final(self).size(),
            final(self).size() <= old(self).size() || final(self).size() <= offset + buf@.len(),
            r is Ok ==> {
                &&& final(self).contents() == written(old(self).contents(), offset as int, buf@)
                &&& final(self).reliable() == old(self).reliable()
            },
            r matches Err(e) ==> device_error(e) && !(old(self).reliable() && offset + buf@.len()
                <= old(self).limit()),
    ;

    /// Flush pending writes to stable storage.
    fn flush(&mut self) -> (r: Result<()>)
        ensures
            final(self).writable() == old(self).writable(),
            final(self).limit() == old(self).limit(),
            final(self).size() == old(self).size(),
            r is Ok ==> {
                &&& final(self).contents() == old(self).contents()
                &&& final(self).reliable() == old(self).reliable()
            },
            r matches Err(e) ==> device_error(e) && !old(self).reliable(),
    ;

    /// Whether `write_at` is likely to succeed.
    fn is_writable(&self) -> (b: bool)
        ensures
            b == self.writable(),
    ;
}

/// An image held in memory, presented as a device.
pub struct Bytes(pub Vec<u8>);

/// `std::io::Error::new`, with the kind of a read that met the end of the
/// data and a text naming the range; nothing is claimed of the value.
#[verifier::external_body]
pub(crate) fn short_read(offset: u64, want: usize, got: usize) -> (e: std::io::Error) {
    std::io::Error::new(
        std::io::ErrorKind::UnexpectedEof,
        format!("short read at {offset}: wanted {want} got {got}"),
    )
}

impl BlockRead for Bytes {
    open spec fn contents(&self) -> Seq<u8> {
        self.0@
    }

    open spec fn size(&self) -> nat {
        self.0@.len()
    }

    open spec fn reliable(&self) -> bool {
        true
    }

    fn read_at(&self, offset: u64, buf: &mut [u8]) -> (r: Result<()>) {
        let len: usize = buf.len();
        if offset > self.0.len() as u64 {
            return Err(Error::Io(short_read(offset, len, 0)));
        }
        let start: usize = offset as usize;
        if len > self.0.len() - start {
            return Err(Error::Io(short_read(offset, len, self.0.len() - start)));
        }
        let mut i: usize = 0;
        while i < len
            invariant
                0 <= i <= len,
                len == old(buf)@.len(),
                buf@.len() == len,
                start + len <= self.0.len(),
                forall|k: int| 0 <= k < i ==> buf@[k] == self.0@[start + k],
            decreases len - i,
        {
            buf[i] = self.0[start + i];
            i += 1;
        }
        assert(buf@ =~= self.0@.subrange(start as int, start + len));
        Ok(())
    }

    fn size_bytes(&self) -> (n: u64) {
        self.0.len() as u64
    }
}

impl BlockDevice for Bytes {
    open spec fn writable(&self) -> bool {
        true
    }

    open spec fn limit(&self) -> int {
        usize::MAX as int
    }

    fn write_at(&mut self, offset: u64, buf: &[u8]) -> (r: Result<()>) {
        let len: usize = buf.len();
        if len == 0 {
            return Ok(());
        }
        if offset > usize::MAX as u64 || len as u64 > usize::MAX as u64 - offset {
            return Err(Error::Io(short_read(offset, len, 0)));
        }
        let start: usize = offset as usize;
        let end: usize = start + len;
        let ghost before = self.0@;
        while self.0.len() < end
            invariant
                before.len() <= self.0@.len(),
                self.0@.len() <= end || self.0@.len() == before.len(),
                forall|k: int| 0 <= k < before.len() ==> self.0@[k] == before[k],
                forall|k: int| before.len() <= k < self.0@.len() ==> self.0@[k] == 0,
            decreases end - self.0@.len(),
        {
            self.0.push(0);
        }
        copy_into(self.0.as_mut_slice(), start, buf);
        assert(self.0@ =~= written(before, offset as int, buf@));
        Ok(())
    }

    fn flush(&mut self) -> (r: Result<()>) {
        Ok(())
    }

    fn is_writable(&self) -> (b: bool) {
        true
    }
}

} // verus!
