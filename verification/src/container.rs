use vstd::prelude::*;
use crate::error::FsError;

verus! {

/// `n` zero bytes.
pub open spec fn zeros(n: nat) -> Seq<u8> {
    Seq::new(n, |i: int| 0u8)
}

/// The bytes of a container after `data` is written at `offset`. A write
/// past the end first extends the container with zero bytes; an empty write
/// changes nothing.
pub open spec fn written(bytes: Seq<u8>, offset: int, data: Seq<u8>) -> Seq<u8> {
    if data.len() == 0 {
        bytes
    } else {
        Seq::new(
            if bytes.len() >= offset + data.len() { bytes.len() } else { (offset + data.len()) as nat },
            |i: int|
                if offset <= i < offset + data.len() {
                    data[i - offset]
                } else if i < bytes.len() {
                    bytes[i]
                } else {
                    0u8
                },
        )
    }
}

/// A write of `len` bytes at `offset` stays within `limit`.
pub open spec fn write_fits(offset: int, len: int, limit: int) -> bool {
    len == 0 || offset + len <= limit
}

/// `len` bytes can be read at `offset` from a container of `size` bytes.
pub open spec fn read_fits(offset: int, len: int, size: int) -> bool {
    len == 0 || offset + len <= size
}

/// The backing container: a byte-addressable region that grows on demand up
/// to a fixed limit.
pub struct Container {
    bytes: Vec<u8>,
    limit: usize,
}

impl View for Container {
    type V = Seq<u8>;

    closed spec fn view(&self) -> Seq<u8> {
        self.bytes@
    }
}

impl Container {
    /// The largest size in bytes that the container may reach.
    pub closed spec fn limit(&self) -> nat {
        self.limit as nat
    }

    /// An empty container that may grow to `limit` bytes.
    pub fn new(limit: usize) -> (c: Container)
        ensures
            c@ == Seq::<u8>::empty(),
            c.limit() == limit,
    {
        Container { bytes: Vec::new(), limit }
    }

    /// A container holding `bytes` that may grow to `limit` bytes.
    pub fn from_bytes(bytes: Vec<u8>, limit: usize) -> (c: Container)
        ensures
            c@ == bytes@,
            c.limit() == limit,
    {
        Container { bytes, limit }
    }

    /// The bytes that the container holds.
    pub fn bytes(&self) -> (bytes: &Vec<u8>)
        ensures
            bytes@ == self@,
    {
        &self.bytes
    }

    /// Gives the bytes back.
    pub fn into_bytes(self) -> (bytes: Vec<u8>)
        ensures
            bytes@ == self@,
    {
        self.bytes
    }

    /// Current size in bytes.
    pub fn len(&self) -> (n: usize)
        ensures
            n == self@.len(),
    {
        self.bytes.len()
    }

    /// The limit the container was made with.
    pub fn max_len(&self) -> (n: usize)
        ensures
            n == self.limit(),
    {
        self.limit
    }

    /// Writes `data` at `offset`, growing the container if needed. Fails,
    /// changing nothing, when the write would pass the limit.
    pub fn write_at(&mut self, offset: u64, data: &[u8]) -> (r: Result<(), FsError>)
        ensures
            final(self).limit() == old(self).limit(),
            match r {
                Ok(()) => write_fits(offset as int, data@.len() as int, old(self).limit() as int)
                    && final(self)@ == written(old(self)@, offset as int, data@),
                Err(e) => e == FsError::IoFailure && !write_fits(
                    offset as int,
                    data@.len() as int,
                    old(self).limit() as int,
                ) && final(self)@ == old(self)@,
            },
    {
        let n = data.len();
        if n == 0 {
            return Ok(());
        }
        if offset as u128 + n as u128 > self.limit as u128 {
            return Err(FsError::IoFailure);
        }
        let start = offset as usize;
        let end = start + n;
        while self.bytes.len() < end
            invariant
                self.limit == old(self).limit,
                self.bytes@.len() >= old(self).bytes@.len(),
                self.bytes@.len() <= end || self.bytes@.len() == old(self).bytes@.len(),
                forall|i: int| 0 <= i < old(self).bytes@.len() ==> self.bytes@[i] == old(self).bytes@[i],
                forall|i: int| old(self).bytes@.len() <= i < self.bytes@.len() ==> self.bytes@[i] == 0u8,
            decreases end - self.bytes@.len(),
        {
            self.bytes.push(0u8);
        }
        let ghost grown = self.bytes@;
        let mut i: usize = 0;
        while i < n
            invariant
                i <= n,
                n == data@.len(),
                n > 0,
                start == offset,
                end == start + n,
                self.limit == old(self).limit,
                self.bytes@.len() == grown.len(),
                grown.len() >= end,
                grown.len() == old(self).bytes@.len() || (grown.len() == end && old(self).bytes@.len() < end),
                forall|k: int| 0 <= k < old(self).bytes@.len() ==> grown[k] == old(self).bytes@[k],
                forall|k: int| old(self).bytes@.len() <= k < grown.len() ==> grown[k] == 0u8,
                forall|k: int| start <= k < start + i ==> self.bytes@[k] == data@[k - start],
                forall|k: int| 0 <= k < grown.len() && !(start <= k < start + i) ==> self.bytes@[k] == grown[k],
            decreases n - i,
        {
            self.bytes.set(start + i, data[i]);
            i += 1;
        }
        proof {
            let target = written(old(self)@, offset as int, data@);
            assert(data@.len() > 0);
            assert(self.bytes@.len() == target.len());
            assert forall|k: int| 0 <= k < target.len() implies self.bytes@[k] == target[k] by {
                if start <= k < start + n {
                    assert(self.bytes@[k] == data@[k - start]);
                } else {
                    assert(self.bytes@[k] == grown[k]);
                }
            }
            assert(self.bytes@ =~= target);
        }
        Ok(())
    }

    /// Writes `len` zero bytes at `offset`, as `write_at` would.
    pub fn zero_fill(&mut self, offset: u64, len: u64) -> (r: Result<(), FsError>)
        ensures
            final(self).limit() == old(self).limit(),
            match r {
                Ok(()) => write_fits(offset as int, len as int, old(self).limit() as int)
                    && final(self)@ == written(old(self)@, offset as int, zeros(len as nat)),
                Err(e) => e == FsError::IoFailure && !write_fits(
                    offset as int,
                    len as int,
                    old(self).limit() as int,
                ) && final(self)@ == old(self)@,
            },
    {
        if len == 0 {
            return Ok(());
        }
        if offset as u128 + len as u128 > self.limit as u128 {
            return Err(FsError::IoFailure);
        }
        let n = len as usize;
        let mut blank: Vec<u8> = Vec::new();
        while blank.len() < n
            invariant
                blank@.len() <= n,
                forall|i: int| 0 <= i < blank@.len() ==> blank@[i] == 0u8,
            decreases n - blank@.len(),
        {
            blank.push(0u8);
        }
        assert(blank@ =~= zeros(len as nat));
        self.write_at(offset, blank.as_slice())
    }

    /// Reads `len` bytes at `offset`. Fails when they are not all there.
    pub fn read_at(&self, offset: u64, len: usize) -> (r: Result<Vec<u8>, FsError>)
        ensures
            match r {
                Ok(bytes) => read_fits(offset as int, len as int, self@.len() as int)
                    && bytes@.len() == len
                    && forall|i: int| 0 <= i < len ==> bytes@[i] == self@[offset + i],
                Err(e) => e == FsError::IoFailure && !read_fits(
                    offset as int,
                    len as int,
                    self@.len() as int,
                ),
            },
    {
        let mut out: Vec<u8> = Vec::new();
        if len == 0 {
            return Ok(out);
        }
        if offset as u128 + len as u128 > self.bytes.len() as u128 {
            return Err(FsError::IoFailure);
        }
        let start = offset as usize;
        let mut i: usize = 0;
        while i < len
            invariant
                i <= len,
                start == offset,
                start + len <= self.bytes@.len() <= usize::MAX,
                out@.len() == i,
                forall|k: int| 0 <= k < i ==> out@[k] == self.bytes@[start + k],
            decreases len - i,
        {
            out.push(self.bytes[start + i]);
            i += 1;
        }
        Ok(out)
    }
}

} // verus!
