use vstd::prelude::*;
use crate::error::Error;

verus! {

/// Magic number of a devicetree blob.
pub const DEVICE_TREE_MAGIC: u32 = 0xD00D_FEED;
/// Length in bytes of one structure-block word.
pub const U32_LEN: usize = 4;
/// Length in bytes of the fixed header.
pub const HEADER_LEN: u32 = 40;
pub const FDT_BEGIN_NODE: u32 = 0x1;
pub const FDT_END_NODE: u32 = 0x2;
pub const FDT_PROP: u32 = 0x3;
pub const FDT_NOP: u32 = 0x4;
pub const FDT_END: u32 = 0x9;
/// Highest `last_comp_version` this library reads.
pub const SUPPORTED_VERSION: u32 = 17;

/// The big-endian 32-bit integer held by the four bytes of `s` from `i` on.
pub open spec fn be_u32(s: Seq<u8>, i: int) -> u32 {
    (s[i] as int * 0x100_0000 + s[i + 1] as int * 0x1_0000 + s[i + 2] as int * 0x100
        + s[i + 3] as int) as u32
}

/// Word `k` of a sequence of big-endian words.
pub open spec fn word(s: Seq<u8>, k: int) -> u32 {
    be_u32(s, 4 * k)
}

/// The four big-endian bytes of `v`.
pub open spec fn be_bytes(v: u32) -> Seq<u8> {
    seq![(v / 0x100_0000) as u8, (v / 0x1_0000 % 0x100) as u8, (v / 0x100 % 0x100) as u8, (v % 0x100) as u8]
}

/// `n` rounded up to a multiple of four.
pub open spec fn align4(n: int) -> int {
    n + (4 - n % 4) % 4
}

/// Reads the big-endian word at byte index `i`.
pub fn read_be_u32(s: &[u8], i: usize) -> (r: u32)
    requires
        i + 4 <= s@.len(),
    ensures
        r == be_u32(s@, i as int),
{
    let b0 = s[i] as u32;
    let b1 = s[i + 1] as u32;
    let b2 = s[i + 2] as u32;
    let b3 = s[i + 3] as u32;
    b0 * 0x100_0000 + b1 * 0x1_0000 + b2 * 0x100 + b3
}

/// The bytes of `s` from `a` up to `b`, borrowed.
pub fn subslice<'a>(s: &'a [u8], a: usize, b: usize) -> (r: &'a [u8])
    requires
        a <= b <= s@.len(),
    ensures
        r@ == s@.subrange(a as int, b as int),
{
    let (left, _) = s.split_at(b);
    let (_, r) = left.split_at(a);
    r
}

/// A copy of `s`.
pub fn bytes_to_vec(s: &[u8]) -> (r: Vec<u8>)
    ensures
        r@ == s@,
{
    let mut v: Vec<u8> = Vec::new();
    let mut i: usize = 0;
    while i < s.len()
        invariant
            i <= s@.len(),
            v@ == s@.subrange(0, i as int),
        decreases s.len() - i,
    {
        v.push(s[i]);
        proof {
            assert(s@.subrange(0, i + 1) =~= s@.subrange(0, i as int).push(s@[i as int]));
        }
        i = i + 1;
    }
    proof {
        assert(s@.subrange(0, s@.len() as int) =~= s@);
    }
    v
}

/// `a + b`, or `u32::MAX` where the sum does not fit.
pub open spec fn sat_add(a: u32, b: u32) -> u32 {
    if a as int + b as int > u32::MAX {
        u32::MAX
    } else {
        (a + b) as u32
    }
}

fn saturating_sum(a: u32, b: u32) -> (r: u32)
    ensures
        r == sat_add(a, b),
{
    if b > u32::MAX - a {
        u32::MAX
    } else {
        a + b
    }
}

/// The last word at or before index `i` of the words from byte `base` of
/// `blob` that is not a `NOP`; word 0 where all of them are.
pub open spec fn last_non_nop(blob: Seq<u8>, base: int, i: int) -> int
    decreases i,
{
    if i <= 0 {
        0
    } else if be_u32(blob, base + 4 * i) != FDT_NOP {
        i
    } else {
        last_non_nop(blob, base, i - 1)
    }
}

/// The ten header words of a blob, in host order.
#[derive(Debug, Clone, Copy, PartialEq, Eq)]
pub struct Header {
    pub magic: u32,
    pub total_size: u32,
    pub off_dt_struct: u32,
    pub off_dt_strings: u32,
    pub off_mem_rsvmap: u32,
    pub version: u32,
    pub last_comp_version: u32,
    pub boot_cpuid_phys: u32,
    pub size_dt_strings: u32,
    pub size_dt_struct: u32,
}

/// Number of words in the structure block that a header declares.
pub open spec fn struct_words(h: Header) -> int {
    h.size_dt_struct as int / 4
}

/// The outcome of the header checklist on a blob of at least `HEADER_LEN` bytes.
pub open spec fn header_check(blob: Seq<u8>) -> core::result::Result<(), Error> {
    let h = Header::spec_read(blob);
    let n = struct_words(h);
    let base = h.off_dt_struct as int;
    if h.magic != DEVICE_TREE_MAGIC {
        Err(Error::typed(crate::error::ErrorType::InvalidMagic { wrong_magic: h.magic }, 0))
    } else if h.last_comp_version > SUPPORTED_VERSION {
        Err(
            Error::typed(
                crate::error::ErrorType::IncompatibleVersion {
                    last_comp_version: h.last_comp_version,
                    library_supported_version: SUPPORTED_VERSION,
                },
                24,
            ),
        )
    } else if h.total_size < HEADER_LEN {
        Err(
            Error::typed(
                crate::error::ErrorType::HeaderTooShort {
                    header_length: h.total_size,
                    at_least_length: HEADER_LEN,
                },
                4,
            ),
        )
    } else if h.total_size as int > blob.len() {
        Err(
            Error::typed(
                crate::error::ErrorType::SliceEofUnexpected {
                    expected_length: h.total_size,
                    remaining_length: blob.len() as u32,
                },
                4,
            ),
        )
    } else if h.off_dt_struct < HEADER_LEN {
        Err(Error::index_error(h.off_dt_struct, HEADER_LEN, true, false, 8))
    } else if h.off_dt_struct as int + h.size_dt_struct as int > h.total_size as int {
        Err(
            Error::index_error(
                sat_add(h.off_dt_struct, h.size_dt_struct),
                h.total_size,
                true,
                true,
                36,
            ),
        )
    } else if n < 4 {
        Err(
            Error::typed(
                crate::error::ErrorType::TagEofUnexpected {
                    current_index: n as u32,
                    bound_index: 4,
                },
                base as usize,
            ),
        )
    } else if be_u32(blob, base) != FDT_BEGIN_NODE {
        Err(
            Error::typed(
                crate::error::ErrorType::InvalidTagId { wrong_id: be_u32(blob, base) },
                base as usize,
            ),
        )
    } else if be_u32(blob, base + 4) != 0 {
        Err(
            Error::typed(
                crate::error::ErrorType::InvalidTagId { wrong_id: be_u32(blob, base + 4) },
                (base + 4) as usize,
            ),
        )
    } else if be_u32(
        blob,
        base + 4 * last_non_nop(blob, base, last_non_nop(blob, base, n - 1) - 1),
    ) != FDT_END_NODE {
        Err(
            Error::typed(
                crate::error::ErrorType::InvalidTagId {
                    wrong_id: be_u32(
                        blob,
                        base + 4 * last_non_nop(blob, base, last_non_nop(blob, base, n - 1) - 1),
                    ),
                },
                (base + 4 * last_non_nop(blob, base, last_non_nop(blob, base, n - 1) - 1)) as usize,
            ),
        )
    } else if be_u32(blob, base + 4 * last_non_nop(blob, base, n - 1)) != FDT_END {
        Err(
            Error::typed(
                crate::error::ErrorType::InvalidTagId {
                    wrong_id: be_u32(blob, base + 4 * last_non_nop(blob, base, n - 1)),
                },
                (base + 4 * last_non_nop(blob, base, n - 1)) as usize,
            ),
        )
    } else if h.off_dt_strings < HEADER_LEN {
        Err(Error::index_error(h.off_dt_strings, HEADER_LEN, false, false, 12))
    } else if h.off_dt_strings as int + h.size_dt_strings as int > h.total_size as int {
        Err(
            Error::index_error(
                sat_add(h.off_dt_strings, h.size_dt_strings),
                h.total_size,
                false,
                true,
                32,
            ),
        )
    } else if h.off_mem_rsvmap < HEADER_LEN {
        Err(Error::index_error(h.off_mem_rsvmap, HEADER_LEN, false, false, 16))
    } else {
        Ok(())
    }
}

/// The last non-`NOP` word at or before index `i` of the words from `base`.
pub fn last_non_nop_at(blob: &[u8], base: usize, i: usize) -> (r: usize)
    requires
        base + 4 * i + 4 <= blob@.len(),
    ensures
        r == last_non_nop(blob@, base as int, i as int),
        r <= i,
{
    let len = blob.len();
    let mut j = i;
    while j > 0
        invariant
            j <= i,
            len == blob@.len(),
            base + 4 * i + 4 <= len,
            last_non_nop(blob@, base as int, j as int) == last_non_nop(blob@, base as int, i as int),
        decreases j,
    {
        if read_be_u32(blob, base + 4 * j) != FDT_NOP {
            return j;
        }
        j = j - 1;
    }
    j
}

impl Header {
    /// The header held by the first `HEADER_LEN` bytes of `blob`.
    pub open spec fn spec_read(blob: Seq<u8>) -> Header {
        Header {
            magic: word(blob, 0),
            total_size: word(blob, 1),
            off_dt_struct: word(blob, 2),
            off_dt_strings: word(blob, 3),
            off_mem_rsvmap: word(blob, 4),
            version: word(blob, 5),
            last_comp_version: word(blob, 6),
            boot_cpuid_phys: word(blob, 7),
            size_dt_strings: word(blob, 8),
            size_dt_struct: word(blob, 9),
        }
    }

    /// Reads the header at the start of `blob`.
    pub fn read(blob: &[u8]) -> (r: Header)
        requires
            blob@.len() >= HEADER_LEN,
        ensures
            r == Header::spec_read(blob@),
    {
        Header {
            magic: read_be_u32(blob, 0),
            total_size: read_be_u32(blob, 4),
            off_dt_struct: read_be_u32(blob, 8),
            off_dt_strings: read_be_u32(blob, 12),
            off_mem_rsvmap: read_be_u32(blob, 16),
            version: read_be_u32(blob, 20),
            last_comp_version: read_be_u32(blob, 24),
            boot_cpuid_phys: read_be_u32(blob, 28),
            size_dt_strings: read_be_u32(blob, 32),
            size_dt_struct: read_be_u32(blob, 36),
        }
    }

    /// Runs the header checklist against the blob the header was read from.
    #[verifier::rlimit(60)]
    pub fn verify(&self, blob: &[u8]) -> (r: core::result::Result<(), Error>)
        requires
            blob@.len() >= HEADER_LEN,
            *self == Header::spec_read(blob@),
        ensures
            r == header_check(blob@),
    {
        if self.magic != DEVICE_TREE_MAGIC {
            return Err(Error::invalid_magic(self.magic));
        }
        if self.last_comp_version > SUPPORTED_VERSION {
            return Err(Error::incompatible_version(self.last_comp_version, SUPPORTED_VERSION, 24));
        }
        if self.total_size < HEADER_LEN {
            return Err(Error::header_too_short(self.total_size, HEADER_LEN, 4));
        }
        if self.total_size as usize > blob.len() {
            return Err(Error::slice_eof_unpexpected(self.total_size, blob.len() as u32, 4));
        }
        if self.off_dt_struct < HEADER_LEN {
            return Err(Error::structure_index_underflow(self.off_dt_struct, HEADER_LEN, 8));
        }
        if self.off_dt_struct as u64 + self.size_dt_struct as u64 > self.total_size as u64 {
            return Err(
                Error::structure_index_overflow(
                    saturating_sum(self.off_dt_struct, self.size_dt_struct),
                    self.total_size,
                    36,
                ),
            );
        }
        let n = (self.size_dt_struct / 4) as usize;
        let base = self.off_dt_struct as usize;
        if n < 4 {
            return Err(Error::tag_eof_unexpected(n as u32, 4, base));
        }
        let w = read_be_u32(blob, base);
        if w != FDT_BEGIN_NODE {
            return Err(Error::invalid_tag_id(w, base));
        }
        let w = read_be_u32(blob, base + 4);
        if w != 0 {
            return Err(Error::invalid_tag_id(w, base + 4));
        }
        let j1 = last_non_nop_at(blob, base, n - 1);
        let j2 = if j1 == 0 { 0 } else { last_non_nop_at(blob, base, j1 - 1) };
        let w = read_be_u32(blob, base + 4 * j2);
        if w != FDT_END_NODE {
            return Err(Error::invalid_tag_id(w, base + 4 * j2));
        }
        let w = read_be_u32(blob, base + 4 * j1);
        if w != FDT_END {
            return Err(Error::invalid_tag_id(w, base + 4 * j1));
        }
        if self.off_dt_strings < HEADER_LEN {
            return Err(Error::string_index_underflow(self.off_dt_strings, HEADER_LEN, 12));
        }
        if self.off_dt_strings as u64 + self.size_dt_strings as u64 > self.total_size as u64 {
            return Err(
                Error::string_index_overflow(
                    saturating_sum(self.off_dt_strings, self.size_dt_strings),
                    self.total_size,
                    32,
                ),
            );
        }
        if self.off_mem_rsvmap < HEADER_LEN {
            return Err(Error::mem_rsvmap_index_underflow(self.off_mem_rsvmap, HEADER_LEN, 16));
        }
        Ok(())
    }
}

} // verus!
