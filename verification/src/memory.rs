//! Byte-addressable memory: a growable, zero-initialized byte buffer with
//! word and byte accessors.  Word accesses read and write 32 consecutive
//! bytes in big-endian order.  Memory never grows on its own: callers
//! grow it with `resize` before any access.

use vstd::prelude::*;
use crate::word::{Word, bytes_val, be_bytes32, word_from_be, word_to_be};

verus! {

/// A growable, zero-initialized byte buffer.
pub struct Memory {
    pub data: Vec<u8>,
}

impl Memory {
    /// Fresh memory of length zero.
    pub fn new() -> (r: Memory)
        ensures
            r.data@.len() == 0,
    {
        Memory { data: Vec::new() }
    }

    /// Extends the memory with zero bytes up to `new_size` if it is
    /// shorter; never shrinks it.
    pub fn resize(&mut self, new_size: usize)
        ensures
            final(self).data@.len() == if old(self).data@.len() >= new_size {
                old(self).data@.len()
            } else {
                new_size as nat
            },
            forall|i: int|
                0 <= i < old(self).data@.len() ==> final(self).data@[i] == old(self).data@[i],
            forall|i: int|
                old(self).data@.len() <= i < final(self).data@.len() ==> final(self).data@[i]
                    == 0u8,
    {
        while self.data.len() < new_size
            invariant
                old(self).data@.len() <= self.data@.len(),
                old(self).data@.len() >= new_size ==> self.data@.len() == old(self).data@.len(),
                old(self).data@.len() < new_size ==> self.data@.len() <= new_size,
                forall|i: int|
                    0 <= i < old(self).data@.len() ==> self.data@[i] == old(self).data@[i],
                forall|i: int|
                    old(self).data@.len() <= i < self.data@.len() ==> self.data@[i] == 0u8,
            decreases new_size - self.data.len(),
        {
            self.data.push(0u8);
        }
    }

    /// Reads the 32 bytes at `[addr, addr + 32)` as a big-endian word.
    pub fn get_word(&self, addr: usize) -> (r: Word)
        requires
            addr + 32 <= self.data@.len(),
        ensures
            r.as_nat() == bytes_val(self.data@.subrange(addr as int, addr as int + 32)),
    {
        let mut buf: Vec<u8> = Vec::new();
        let mut i: usize = 0;
        while i < 32
            invariant
                i <= 32,
                addr + 32 <= self.data@.len(),
                buf@ == self.data@.subrange(addr as int, addr as int + i as int),
            decreases 32 - i,
        {
            // `_len` being a machine size keeps `addr + i` from overflowing.
            let _len = self.data.len();
            buf.push(self.data[addr + i]);
            i = i + 1;
            proof {
                assert(buf@ =~= self.data@.subrange(addr as int, addr as int + i as int));
            }
        }
        word_from_be(&buf)
    }

    /// Overwrites the single byte at `addr`.
    pub fn set_byte(&mut self, addr: usize, value: u8)
        requires
            addr < old(self).data@.len(),
        ensures
            final(self).data@ == old(self).data@.update(addr as int, value),
    {
        self.data[addr] = value;
    }

    /// Writes the 32-byte big-endian form of `value` at `[addr, addr + 32)`.
    pub fn set_word(&mut self, addr: usize, value: Word)
        requires
            addr + 32 <= old(self).data@.len(),
        ensures
            final(self).data@.len() == old(self).data@.len(),
            final(self).data@.subrange(addr as int, addr as int + 32) == be_bytes32(
                value.as_nat(),
            ),
            forall|i: int|
                0 <= i < old(self).data@.len() && !(addr <= i < addr + 32)
                    ==> final(self).data@[i] == old(self).data@[i],
    {
        let bytes = word_to_be(&value);
        let mut i: usize = 0;
        while i < 32
            invariant
                i <= 32,
                bytes@ == be_bytes32(value.as_nat()),
                addr + 32 <= self.data@.len(),
                self.data@.len() == old(self).data@.len(),
                forall|j: int|
                    addr <= j < addr + i ==> self.data@[j] == bytes@[j - addr],
                forall|j: int|
                    0 <= j < self.data@.len() && !(addr <= j < addr + i)
                        ==> self.data@[j] == old(self).data@[j],
            decreases 32 - i,
        {
            // `_len` being a machine size keeps `addr + i` from overflowing.
            let _len = self.data.len();
            self.data[addr + i] = bytes[i];
            i = i + 1;
        }
        proof {
            assert(self.data@.subrange(addr as int, addr as int + 32) =~= be_bytes32(
                value.as_nat(),
            ));
        }
    }
}

} // verus!
