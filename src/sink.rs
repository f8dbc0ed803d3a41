//! Sinks: where encoded bytes go. A sink takes byte runs and reports how many
//! bytes it logically accepted.
use crate::digits;
use crate::scratch::{hex_buf, i64_buf, ptr_buf, u64_buf, SCRATCH_LEN};
use vstd::prelude::*;
use crate::double::{self, f64_buf};

verus! {

/// Index of the first zero byte of `s`, from `i` on, or its length when there is none.
pub open spec fn nul_index(s: Seq<u8>, i: int) -> int
    decreases s.len() - i,
{
    if i >= s.len() {
        s.len() as int
    } else if s[i] == 0 {
        i
    } else {
        nul_index(s, i + 1)
    }
}

proof fn lemma_nul_index(s: Seq<u8>, i: int)
    requires
        0 <= i <= s.len(),
    ensures
        i <= nul_index(s, i) <= s.len(),
    decreases s.len() - i,
{
    if i < s.len() && s[i] != 0 {
        lemma_nul_index(s, i + 1);
    }
}

/// What a C string renders as: `null` for a null pointer, else the bytes
/// before the first zero byte (all of them when there is none).
pub open spec fn cstr_text(s: Option<Seq<u8>>) -> Seq<u8> {
    match s {
        None => seq![110u8, 117u8, 108u8, 108u8],
        Some(b) => b.subrange(0, nul_index(b, 0)),
    }
}

/// A destination for formatted bytes.
///
/// `new(fd)` opens a sink for one top-level formatting call (1 is standard
/// output, 2 is standard error, for sinks that write to a stream). Each
/// `write_*` method hands its bytes to `write_buf` in one call and returns what
/// that call returned.
pub trait Formatter: Sized {
    /// What the sink keeps true between calls.
    open spec fn inv(&self) -> bool {
        true
    }

    /// Every byte handed to the sink so far, in order. A sink that does not
    /// keep this record cannot meet the contract of `write_buf` in verified
    /// code, so every verified sink defines it.
    open spec fn emitted(&self) -> Seq<u8> {
        Seq::empty()
    }

    fn new(fd: i32) -> (r: Self)
        ensures
            r.inv(),
            r.emitted() == Seq::<u8>::empty(),
    ;

    /// Takes `buf` and returns its length, the number of bytes logically written.
    fn write_buf(&mut self, buf: &[u8]) -> (n: usize)
        requires
            old(self).inv(),
        ensures
            final(self).inv(),
            final(self).emitted() == old(self).emitted() + buf@,
            n == buf@.len(),
    ;

    /// Writes `val` in base 10.
    fn write_u64(&mut self, val: u64) -> (n: usize)
        requires
            old(self).inv(),
        ensures
            final(self).inv(),
            final(self).emitted() == old(self).emitted() + digits::dec_digits(val as nat),
            n == digits::dec_digits(val as nat).len(),
    {
        let mut scratch = [0u8; 24];
        proof {
            digits::lemma_dec_len_u64(val);
        }
        let pos = u64_buf(val, &mut scratch, SCRATCH_LEN);
        self.write_buf(&scratch[pos..SCRATCH_LEN])
    }

    /// Writes `val` in base 10, with `-` before a negative value.
    fn write_i64(&mut self, val: i64) -> (n: usize)
        requires
            old(self).inv(),
        ensures
            final(self).inv(),
            final(self).emitted() == old(self).emitted() + digits::signed_digits(val as int),
            n == digits::signed_digits(val as int).len(),
    {
        let mut scratch = [0u8; 24];
        let pos = i64_buf(val, &mut scratch);
        self.write_buf(&scratch[pos..SCRATCH_LEN])
    }

    /// Writes `val` in base 16, lower case.
    fn write_hex(&mut self, val: u64) -> (n: usize)
        requires
            old(self).inv(),
        ensures
            final(self).inv(),
            final(self).emitted() == old(self).emitted() + digits::hex_digits(val as nat),
            n == digits::hex_digits(val as nat).len(),
    {
        let mut scratch = [0u8; 24];
        proof {
            digits::lemma_hex_len_u64(val);
        }
        let pos = hex_buf(val, &mut scratch, SCRATCH_LEN);
        self.write_buf(&scratch[pos..SCRATCH_LEN])
    }

    /// Writes an address as `0x` and its base-16 digits.
    fn write_ptr(&mut self, addr: usize) -> (n: usize)
        requires
            old(self).inv(),
        ensures
            final(self).inv(),
            final(self).emitted() == old(self).emitted() + digits::pointer_text(addr as nat),
            n == digits::pointer_text(addr as nat).len(),
    {
        let mut scratch = [0u8; 24];
        let pos = ptr_buf(addr, &mut scratch);
        self.write_buf(&scratch[pos..SCRATCH_LEN])
    }

    /// Writes the double whose IEEE-754 bit pattern is `bits`.
    fn write_f64_bits(&mut self, bits: u64) -> (n: usize)
        requires
            old(self).inv(),
        ensures
            final(self).inv(),
            final(self).emitted() == old(self).emitted() + double::double_text(bits),
            n == double::double_text(bits).len(),
    {
        let mut scratch = [0u8; 24];
        let pos = f64_buf(bits, &mut scratch);
        self.write_buf(&scratch[pos..SCRATCH_LEN])
    }

    /// Writes a C string: `null` for a null pointer (`None`), else the bytes
    /// before the first zero byte.
    fn write_cstr(&mut self, val: Option<&[u8]>) -> (n: usize)
        requires
            old(self).inv(),
        ensures
            final(self).inv(),
            final(self).emitted() == old(self).emitted() + cstr_text(
                match val {
                    Some(s) => Some(s@),
                    None => None,
                },
            ),
            n == cstr_text(
                match val {
                    Some(s) => Some(s@),
                    None => None,
                },
            ).len(),
    {
        match val {
            None => {
                let null = [110u8, 117u8, 108u8, 108u8];
                assert(null@ =~= seq![110u8, 117u8, 108u8, 108u8]);
                self.write_buf(&null[0..4])
            },
            Some(s) => {
                let mut k: usize = 0;
                while k < s.len() && s[k] != 0
                    invariant
                        k <= s.len(),
                        nul_index(s@, 0) == nul_index(s@, k as int),
                    decreases s.len() - k,
                {
                    k += 1;
                }
                self.write_buf(&s[0..k])
            },
        }
    }
}

/// A bounded sink: copies bytes into a fixed-capacity buffer while there is
/// room, and always reports the full length it was given. What it holds is the
/// start of the logical output, cut at its capacity.
pub struct BufFormatter {
    buf: Vec<u8>,
    pos: usize,
    logical: Ghost<Seq<u8>>,
}

impl BufFormatter {
    /// The number of bytes the buffer can hold.
    pub closed spec fn cap(&self) -> nat {
        self.buf@.len()
    }

    /// The bytes stored so far: the logical output cut at the capacity.
    pub open spec fn written(&self) -> Seq<u8> {
        let n = if self.emitted().len() < self.cap() {
            self.emitted().len()
        } else {
            self.cap()
        };
        self.emitted().subrange(0, n as int)
    }

    /// A sink that fills `buf`, whose length is the capacity.
    pub fn new(buf: Vec<u8>) -> (r: BufFormatter)
        ensures
            r.inv(),
            r.cap() == buf@.len(),
            r.emitted() == Seq::<u8>::empty(),
    {
        let r = BufFormatter { buf, pos: 0, logical: Ghost(Seq::empty()) };
        assert(r.buf@.subrange(0, 0) =~= r.logical@.subrange(0, 0));
        r
    }

    pub fn capacity(&self) -> (r: usize)
        ensures
            r == self.cap(),
    {
        self.buf.len()
    }

    /// The bytes stored so far.
    pub fn contents(&self) -> (r: &[u8])
        requires
            self.inv(),
        ensures
            r@ == self.written(),
    {
        &self.buf.as_slice()[0..self.pos]
    }

    /// Gives the buffer back; its first bytes are those stored.
    pub fn into_inner(self) -> (r: Vec<u8>)
        requires
            self.inv(),
        ensures
            r@.len() == self.cap(),
            r@.subrange(0, self.written().len() as int) == self.written(),
    {
        self.buf
    }

    /// Copies as much of `bytes` as there is room for and returns the full
    /// length of `bytes`; the capacity stays as it was.
    pub fn write(&mut self, bytes: &[u8]) -> (n: usize)
        requires
            old(self).inv(),
        ensures
            final(self).inv(),
            final(self).cap() == old(self).cap(),
            final(self).emitted() == old(self).emitted() + bytes@,
            n == bytes@.len(),
    {
        let room = self.buf.len() - self.pos;
        let len = if bytes.len() < room {
            bytes.len()
        } else {
            room
        };
        let ghost start = self.pos;
        let ghost stored = self.buf@.subrange(0, start as int);
        let mut k: usize = 0;
        while k < len
            invariant
                k <= len <= bytes.len(),
                len <= old(self).buf@.len() - start,
                old(self).inv(),
                len == bytes@.len() || start + len == old(self).buf@.len(),
                start == old(self).pos,
                start == self.pos,
                self.logical@ == old(self).logical@,
                self.pos + len <= self.buf.len(),
                self.buf@.len() == old(self).buf@.len(),
                self.buf@.subrange(0, start as int) == stored,
                self.buf@.subrange(start as int, start + k) == bytes@.subrange(0, k as int),
            decreases len - k,
        {
            let ghost before = self.buf@;
            self.buf.set(self.pos + k, bytes[k]);
            assert(self.buf@.subrange(0, start as int) =~= before.subrange(0, start as int));
            assert(self.buf@.subrange(start as int, start + k + 1) =~= before.subrange(
                start as int,
                start + k,
            ).push(bytes[k as int]));
            k += 1;
        }
        self.pos = self.pos + len;
        self.logical = Ghost(self.logical@ + bytes@);
        assert(self.buf@.subrange(0, self.pos as int) =~= self.logical@.subrange(0, self.pos as int))
            by {
            assert(self.buf@.subrange(0, self.pos as int) =~= stored + self.buf@.subrange(
                start as int,
                start + len,
            ));
        }
        bytes.len()
    }
}

impl Formatter for BufFormatter {
    closed spec fn inv(&self) -> bool {
        &&& self.pos <= self.buf@.len()
        &&& self.pos == if self.logical@.len() < self.buf@.len() {
            self.logical@.len()
        } else {
            self.buf@.len() as nat
        }
        &&& self.buf@.subrange(0, self.pos as int) == self.logical@.subrange(0, self.pos as int)
    }

    closed spec fn emitted(&self) -> Seq<u8> {
        self.logical@
    }

    /// A sink with no room: it stores nothing and still counts every byte.
    fn new(_fd: i32) -> (r: BufFormatter) {
        BufFormatter::new(Vec::new())
    }

    fn write_buf(&mut self, buf: &[u8]) -> (n: usize) {
        self.write(buf)
    }
}

} // verus!
