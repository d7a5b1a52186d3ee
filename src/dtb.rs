use vstd::prelude::*;
use crate::common::{last_non_nop, be_u32, header_check, read_be_u32, struct_words, subslice, word, Header, DEVICE_TREE_MAGIC, FDT_BEGIN_NODE, FDT_END, FDT_END_NODE, HEADER_LEN};
use crate::error::{Error, ErrorType};

verus! {

/// The outcome of validating a whole blob, whatever its length.
pub open spec fn blob_check(blob: Seq<u8>) -> core::result::Result<(), Error> {
    if blob.len() < 4 {
        Err(
            Error::typed(
                ErrorType::HeaderTooShort { header_length: blob.len() as u32, at_least_length: HEADER_LEN },
                0,
            ),
        )
    } else if word(blob, 0) != DEVICE_TREE_MAGIC {
        Err(Error::typed(ErrorType::InvalidMagic { wrong_magic: word(blob, 0) }, 0))
    } else if blob.len() < HEADER_LEN {
        Err(
            Error::typed(
                ErrorType::HeaderTooShort { header_length: blob.len() as u32, at_least_length: HEADER_LEN },
                0,
            ),
        )
    } else {
        header_check(blob)
    }
}

proof fn lemma_last_range(blob: Seq<u8>, base: int, i: int)
    ensures
        0 <= last_non_nop(blob, base, i),
        i >= 0 ==> last_non_nop(blob, base, i) <= i,
    decreases i,
{
    if i > 0 {
        lemma_last_range(blob, base, i - 1);
    }
}

/// Scanning back for a non-`NOP` word gives the same index in the blob and
/// in the structure block cut out of it.
proof fn lemma_same_last(blob: Seq<u8>, base: int, s: Seq<u8>, i: int, n: int)
    requires
        0 <= base,
        i < n,
        s.len() == 4 * n,
        base + 4 * n <= blob.len(),
        s == blob.subrange(base, base + 4 * n),
    ensures
        last_non_nop(blob, base, i) == last_non_nop(s, 0, i),
    decreases i,
{
    if i > 0 {
        assert(s[4 * i] == blob[base + 4 * i]);
        assert(s[4 * i + 1] == blob[base + 4 * i + 1]);
        assert(s[4 * i + 2] == blob[base + 4 * i + 2]);
        assert(s[4 * i + 3] == blob[base + 4 * i + 3]);
        assert(be_u32(s, 0 + 4 * i) == be_u32(blob, base + 4 * i));
        lemma_same_last(blob, base, s, i - 1, n);
    }
}

/// Whether `x` is a power of two.
pub open spec fn is_pow2(x: int) -> bool
    decreases x,
{
    if x <= 0 {
        false
    } else if x == 1 {
        true
    } else {
        x % 2 == 0 && is_pow2(x / 2)
    }
}

/// A blob whose header has been checked.
pub struct DtbPtr<'a> {
    blob: &'a [u8],
}

impl<'a> DtbPtr<'a> {
    pub closed spec fn bytes(self) -> Seq<u8> {
        self.blob@
    }

    /// Validates the header of `blob`; on success the blob can be read.
    pub fn from_raw(blob: &'a [u8]) -> (r: Result<DtbPtr<'a>, Error>)
        ensures
            blob_check(blob@) is Ok <==> r is Ok,
            r is Err ==> r == Err::<DtbPtr, Error>(blob_check(blob@)->Err_0),
            r is Ok ==> r->Ok_0.bytes() == blob@,
            r is Ok ==> r->Ok_0.valid(),
    {
        if blob.len() < 4 {
            return Err(Error::header_too_short(blob.len() as u32, HEADER_LEN, 0));
        }
        let magic = read_be_u32(blob, 0);
        if magic != DEVICE_TREE_MAGIC {
            return Err(Error::invalid_magic(magic));
        }
        if blob.len() < HEADER_LEN as usize {
            return Err(Error::header_too_short(blob.len() as u32, HEADER_LEN, 0));
        }
        let header = Header::read(blob);
        match header.verify(blob) {
            Ok(()) => Ok(DtbPtr { blob }),
            Err(e) => Err(e),
        }
    }

    /// The total size the header declares.
    pub closed spec fn total_size(self) -> u32 {
        word(self.blob@, 1)
    }

    /// The smallest power of two, at least `ALIGN`, that holds the whole blob.
    pub fn align(&self) -> (r: u64)
        requires
            self.valid(),
        ensures
            is_pow2(r as int),
            r >= crate::error::ALIGN,
            r >= self.total_size(),
            r == crate::error::ALIGN || r / 2 < self.total_size(),
    {
        let len = read_be_u32(self.blob, 4) as u64;
        let mut res: u64 = crate::error::ALIGN as u64;
        proof {
            reveal_with_fuel(is_pow2, 4);
        }
        while res < len
            invariant
                is_pow2(res as int),
                res >= crate::error::ALIGN,
                res < 0x2_0000_0000,
                len <= u32::MAX,
                len == self.total_size(),
                res == crate::error::ALIGN || res / 2 < len,
            decreases 0x2_0000_0000 - res,
        {
            proof {
                assert((res * 2) as int / 2 == res as int);
                assert(is_pow2((res * 2) as int));
            }
            res = res * 2;
        }
        res
    }

    pub closed spec fn valid(self) -> bool {
        self.blob@.len() >= HEADER_LEN && header_check(self.blob@) is Ok
    }
}

/// The structure block and string block of a checked blob, borrowed.
#[derive(Clone, Copy, Debug)]
pub struct Dtb<'a> {
    pub structure: &'a [u8],
    pub strings: &'a [u8],
    pub off_struct: usize,
}

impl<'a> Dtb<'a> {
    /// Number of words in the structure block.
    pub open spec fn n(self) -> int {
        self.structure@.len() as int / 4
    }

    /// Word `k` of the structure block.
    pub open spec fn w(self, k: int) -> u32 {
        word(self.structure@, k)
    }

    /// Byte index in the blob of word `k` of the structure block.
    pub open spec fn fidx(self, k: int) -> usize {
        (self.off_struct + 4 * k) as usize
    }

    pub open spec fn wf(self) -> bool {
        &&& self.structure@.len() % 4 == 0
        &&& self.n() >= 4
        &&& self.off_struct + self.structure@.len() <= u32::MAX
        &&& self.strings@.len() <= u32::MAX
        &&& self.w(0) == FDT_BEGIN_NODE
        &&& self.w(1) == 0
        &&& self.w(self.last_tag()) == FDT_END
        &&& self.w(self.before_last_tag()) == FDT_END_NODE
    }

    /// The last word of the structure block that is not a `NOP`.
    pub open spec fn last_tag(self) -> int {
        last_non_nop(self.structure@, 0, self.n() - 1)
    }

    /// The non-`NOP` word before the last one.
    pub open spec fn before_last_tag(self) -> int {
        last_non_nop(self.structure@, 0, self.last_tag() - 1)
    }

    /// The blocks that the header of a checked blob declares.
    pub open spec fn spec_from(blob: Seq<u8>, s: Seq<u8>, t: Seq<u8>, off: usize) -> bool {
        let h = Header::spec_read(blob);
        &&& off == h.off_dt_struct
        &&& s == blob.subrange(off as int, off + 4 * struct_words(h))
        &&& t == blob.subrange(
            h.off_dt_strings as int,
            h.off_dt_strings + h.size_dt_strings,
        )
    }

    /// Splits a checked blob into its structure block and string block.
    #[verifier::rlimit(60)]
    pub fn from_ptr(ptr: DtbPtr<'a>) -> (r: Dtb<'a>)
        requires
            ptr.valid(),
        ensures
            r.wf(),
            Dtb::spec_from(ptr.bytes(), r.structure@, r.strings@, r.off_struct),
    {
        let blob = ptr.blob;
        let h = Header::read(blob);
        let off = h.off_dt_struct as usize;
        let n = (h.size_dt_struct / 4) as usize;
        let structure = subslice(blob, off, off + 4 * n);
        let strings = subslice(
            blob,
            h.off_dt_strings as usize,
            h.off_dt_strings as usize + h.size_dt_strings as usize,
        );
        let r = Dtb { structure, strings, off_struct: off };
        assert(r.n() == n) by {
            assert(structure@.len() == 4 * n);
        }
        assert forall|k: int| 0 <= k < n implies #[trigger] r.w(k) == be_u32(blob@, off + 4 * k) by {
            assert(structure@[4 * k] == blob@[off + 4 * k]);
            assert(structure@[4 * k + 1] == blob@[off + 4 * k + 1]);
            assert(structure@[4 * k + 2] == blob@[off + 4 * k + 2]);
            assert(structure@[4 * k + 3] == blob@[off + 4 * k + 3]);
        }
        assert(r.w(0) == be_u32(blob@, off + 0));
        assert(r.w(1) == be_u32(blob@, off + 4));
        proof {
            lemma_same_last(blob@, off as int, structure@, n as int - 1, n as int);
            let j1 = last_non_nop(blob@, off as int, n - 1);
            lemma_last_range(blob@, off as int, n - 1);
            lemma_same_last(blob@, off as int, structure@, j1 - 1, n as int);
            lemma_last_range(blob@, off as int, j1 - 1);
            assert(r.w(j1) == be_u32(blob@, off + 4 * j1));
            let j2 = last_non_nop(blob@, off as int, j1 - 1);
            assert(r.w(j2) == be_u32(blob@, off + 4 * j2));
        }
        r
    }

    /// Whether the blocks are well formed, for callers that did not get them
    /// from `from_ptr`.
    pub fn is_wf(&self) -> (r: bool)
        ensures
            r == self.wf(),
    {
        let ls = self.structure.len();
        if ls % 4 != 0 || ls / 4 < 4 || self.strings.len() > u32::MAX as usize {
            return false;
        }
        if self.off_struct > u32::MAX as usize || ls > u32::MAX as usize - self.off_struct {
            return false;
        }
        let n = ls / 4;
        if read_be_u32(self.structure, 0) != FDT_BEGIN_NODE || read_be_u32(self.structure, 4) != 0 {
            return false;
        }
        let j1 = crate::common::last_non_nop_at(self.structure, 0, n - 1);
        if read_be_u32(self.structure, 4 * j1) != FDT_END || j1 == 0 {
            proof {
                if j1 == 0 {
                    assert(self.w(0) == FDT_BEGIN_NODE);
                }
            }
            return false;
        }
        let j2 = crate::common::last_non_nop_at(self.structure, 0, j1 - 1);
        read_be_u32(self.structure, 4 * j2) == FDT_END_NODE
    }

    /// A walk over the tags of the structure block.
    pub fn tags(&self) -> (r: crate::tag::Tags<'a>)
        ensures
            r.structure@ == self.structure@,
            r.string_table@ == self.strings@,
            r.cur == 0,
            r.offset_from_file_begin == self.off_struct,
    {
        crate::tag::Tags::new(self.structure, self.strings, self.off_struct)
    }

    /// Byte offset of the structure block in the blob.
    pub fn off_dt_struct(&self) -> (r: usize)
        ensures
            r == self.off_struct,
    {
        self.off_struct
    }
}

} // verus!
