use vstd::prelude::*;
use crate::common::{align4, be_bytes, FDT_NOP, FDT_PROP};

verus! {

/// Where the structure block writer stands, and what it wrote so far; with
/// no buffer it only counts.
pub struct Pointer {
    offset: usize,
    data: Option<Vec<u8>>,
}

impl Pointer {
    pub closed spec fn offset(self) -> int {
        self.offset as int
    }

    /// The bytes written, for a pointer that keeps them.
    pub closed spec fn bytes(self) -> Option<Seq<u8>> {
        match self.data {
            Some(v) => Some(v@),
            None => None,
        }
    }

    pub open spec fn wf(self) -> bool {
        self.bytes() matches Some(b) ==> b.len() == self.offset()
    }

    /// Whether `n` more bytes can still be counted.
    pub open spec fn room(self, n: int) -> bool {
        self.offset() + n + 3 <= usize::MAX
    }

    /// A pointer that appends to `dst`, or that only counts when `dst` is `None`.
    pub fn new(dst: Option<Vec<u8>>) -> (r: Pointer)
        ensures
            r.wf(),
            r.offset() == match dst {
                Some(v) => v@.len() as int,
                None => 0,
            },
            r.bytes() == match dst {
                Some(v) => Some(v@),
                None => None::<Seq<u8>>,
            },
    {
        let offset = match &dst {
            Some(v) => v.len(),
            None => 0,
        };
        Pointer { offset, data: dst }
    }

    /// Replaces the buffer, keeping the offset where it matches.
    pub fn update_data(&mut self, data: Option<Vec<u8>>)
        requires
            data matches Some(v) ==> v@.len() == old(self).offset(),
        ensures
            final(self).wf(),
            final(self).offset() == old(self).offset(),
            final(self).bytes() == match data {
                Some(v) => Some(v@),
                None => None::<Seq<u8>>,
            },
    {
        self.data = data;
    }

    /// Hands back the buffer.
    pub fn into_data(self) -> (r: Option<Vec<u8>>)
        ensures
            r matches Some(v) ==> self.bytes() == Some(v@),
            r is None ==> self.bytes() is None,
    {
        self.data
    }

    pub fn get_offset(&self) -> (r: usize)
        ensures
            r == self.offset(),
    {
        self.offset
    }

    /// Overwrites the four bytes at `offset` with `value`, big-endian.
    pub fn write_to_offset_u32(&mut self, offset: usize, value: u32)
        requires
            old(self).wf(),
            offset + 4 <= old(self).offset(),
        ensures
            final(self).wf(),
            final(self).offset() == old(self).offset(),
            final(self).bytes() == match old(self).bytes() {
                Some(b) => Some(
                    b.subrange(0, offset as int) + be_bytes(value) + b.subrange(
                        offset + 4,
                        b.len() as int,
                    ),
                ),
                None => None::<Seq<u8>>,
            },
    {
        let bytes = u32_be(value);
        if let Some(mut v) = self.data.take() {
            let ghost b = v@;
            v.set(offset, bytes[0]);
            v.set(offset + 1, bytes[1]);
            v.set(offset + 2, bytes[2]);
            v.set(offset + 3, bytes[3]);
            assert(v@ =~= b.subrange(0, offset as int) + be_bytes(value) + b.subrange(
                offset + 4,
                b.len() as int,
            ));
            self.data = Some(v);
        }
    }

    /// Writes `value` big-endian.
    pub fn step_by_u32(&mut self, value: u32)
        requires
            old(self).wf(),
            old(self).room(4),
        ensures
            final(self).wf(),
            final(self).offset() == old(self).offset() + 4,
            final(self).bytes() == match old(self).bytes() {
                Some(b) => Some(b + be_bytes(value)),
                None => None::<Seq<u8>>,
            },
    {
        let bytes = u32_be(value);
        if let Some(mut v) = self.data.take() {
            let ghost b = v@;
            v.push(bytes[0]);
            v.push(bytes[1]);
            v.push(bytes[2]);
            v.push(bytes[3]);
            assert(v@ =~= b + be_bytes(value));
            self.data = Some(v);
        }
        self.offset = self.offset + 4;
    }

    /// Writes one byte.
    pub fn step_by_u8(&mut self, value: u8)
        requires
            old(self).wf(),
            old(self).room(1),
        ensures
            final(self).wf(),
            final(self).offset() == old(self).offset() + 1,
            final(self).bytes() == match old(self).bytes() {
                Some(b) => Some(b.push(value)),
                None => None::<Seq<u8>>,
            },
    {
        if let Some(mut v) = self.data.take() {
            v.push(value);
            self.data = Some(v);
        }
        self.offset = self.offset + 1;
    }

    /// Writes `len` zero bytes.
    pub fn step_by_len(&mut self, len: usize)
        requires
            old(self).wf(),
            old(self).room(len as int),
        ensures
            final(self).wf(),
            final(self).offset() == old(self).offset() + len,
            final(self).bytes() == match old(self).bytes() {
                Some(b) => Some(b + Seq::new(len as nat, |i: int| 0u8)),
                None => None::<Seq<u8>>,
            },
    {
        let ghost start = self.bytes();
        let mut i: usize = 0;
        while i < len
            invariant
                self.wf(),
                i <= len,
                self.offset() == old(self).offset() + i,
                old(self).room(len as int),
                start == old(self).bytes(),
                self.bytes() == match start {
                    Some(b) => Some(b + Seq::new(i as nat, |k: int| 0u8)),
                    None => None::<Seq<u8>>,
                },
            decreases len - i,
        {
            let ghost before = self.bytes();
            self.step_by_u8(0);
            proof {
                if let Some(b) = start {
                    assert(b + Seq::new((i + 1) as nat, |k: int| 0u8) =~= (b + Seq::new(
                        i as nat,
                        |k: int| 0u8,
                    )).push(0));
                }
            }
            i = i + 1;
        }
    }

    /// Pads with zero bytes up to a multiple of four.
    pub fn step_align(&mut self)
        requires
            old(self).wf(),
            old(self).room(0),
        ensures
            final(self).wf(),
            final(self).offset() == align4(old(self).offset()),
            final(self).bytes() == match old(self).bytes() {
                Some(b) => Some(
                    b + Seq::new((align4(old(self).offset()) - old(self).offset()) as nat, |i: int| 0u8),
                ),
                None => None::<Seq<u8>>,
            },
    {
        let pad = (4 - self.offset % 4) % 4;
        self.step_by_len(pad);
    }

    /// Writes a property header: the `PROP` token, then two `NOP` words that
    /// stand for the length and the name offset until they are known. Returns
    /// the offset of the first of those two words.
    pub fn step_by_prop(&mut self) -> (r: usize)
        requires
            old(self).wf(),
            old(self).room(12),
        ensures
            final(self).wf(),
            r == old(self).offset() + 4,
            final(self).offset() == old(self).offset() + 12,
            final(self).bytes() == match old(self).bytes() {
                Some(b) => Some(b + be_bytes(FDT_PROP) + be_bytes(FDT_NOP) + be_bytes(FDT_NOP)),
                None => None::<Seq<u8>>,
            },
    {
        self.step_by_u32(FDT_PROP);
        let offset = self.offset;
        self.step_by_u32(FDT_NOP);
        self.step_by_u32(FDT_NOP);
        offset
    }

    /// Writes a name, its zero terminator, and padding to a multiple of four.
    pub fn step_by_name(&mut self, name: &[u8])
        requires
            old(self).wf(),
            old(self).room(name@.len() as int + 1),
        ensures
            final(self).wf(),
            final(self).offset() == align4(old(self).offset() + name@.len() + 1),
            final(self).bytes() == match old(self).bytes() {
                Some(b) => Some(
                    b + name@ + seq![0u8] + Seq::new(
                        (align4(old(self).offset() + name@.len() + 1) - (old(self).offset()
                            + name@.len() + 1)) as nat,
                        |i: int| 0u8,
                    ),
                ),
                None => None::<Seq<u8>>,
            },
    {
        let ghost start = self.bytes();
        let mut i: usize = 0;
        while i < name.len()
            invariant
                self.wf(),
                i <= name@.len(),
                self.offset() == old(self).offset() + i,
                old(self).room(name@.len() as int + 1),
                start == old(self).bytes(),
                self.bytes() == match start {
                    Some(b) => Some(b + name@.subrange(0, i as int)),
                    None => None::<Seq<u8>>,
                },
            decreases name.len() - i,
        {
            self.step_by_u8(name[i]);
            proof {
                if let Some(b) = start {
                    assert(b + name@.subrange(0, i + 1) =~= (b + name@.subrange(0, i as int)).push(
                        name@[i as int],
                    ));
                }
            }
            i = i + 1;
        }
        self.step_by_u8(0);
        self.step_align();
        proof {
            if let Some(b) = start {
                assert(name@.subrange(0, name@.len() as int) =~= name@);
                assert((b + name@).push(0u8) =~= b + name@ + seq![0u8]);
            }
        }
    }

    /// Writes `b` as it is.
    pub fn step_by_bytes(&mut self, b: &[u8])
        requires
            old(self).wf(),
            old(self).room(b@.len() as int),
        ensures
            final(self).wf(),
            final(self).offset() == old(self).offset() + b@.len(),
            final(self).bytes() == match old(self).bytes() {
                Some(x) => Some(x + b@),
                None => None::<Seq<u8>>,
            },
    {
        let ghost start = self.bytes();
        let mut i: usize = 0;
        while i < b.len()
            invariant
                self.wf(),
                i <= b@.len(),
                self.offset() == old(self).offset() + i,
                old(self).room(b@.len() as int),
                start == old(self).bytes(),
                self.bytes() == match start {
                    Some(x) => Some(x + b@.subrange(0, i as int)),
                    None => None::<Seq<u8>>,
                },
            decreases b.len() - i,
        {
            self.step_by_u8(b[i]);
            proof {
                if let Some(x) = start {
                    assert(x + b@.subrange(0, i + 1) =~= (x + b@.subrange(0, i as int)).push(
                        b@[i as int],
                    ));
                }
            }
            i = i + 1;
        }
        proof {
            assert(b@.subrange(0, b@.len() as int) =~= b@);
        }
    }
}

/// The four big-endian bytes of `v`.
pub fn u32_be(v: u32) -> (r: [u8; 4])
    ensures
        r@ == be_bytes(v),
{
    let r = [(v / 0x100_0000) as u8, (v / 0x1_0000 % 0x100) as u8, (v / 0x100 % 0x100) as u8, (v % 0x100) as u8];
    assert(r@ =~= be_bytes(v));
    r
}

} // verus!
