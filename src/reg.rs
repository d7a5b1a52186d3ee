use vstd::prelude::*;
use crate::common::{read_be_u32, subslice, word};

verus! {

/// How many cells the base and the length of a register region take.
#[derive(Clone, Copy, Debug, PartialEq, Eq)]
pub struct RegConfig {
    pub address_cells: usize,
    pub size_cells: usize,
}

impl RegConfig {
    /// The devicetree defaults: two address cells, one size cell.
    pub fn default_config() -> (r: RegConfig)
        ensures
            r.address_cells == 2 && r.size_cells == 1,
    {
        RegConfig { address_cells: 2, size_cells: 1 }
    }

    pub open spec fn default_config_spec() -> RegConfig {
        RegConfig { address_cells: 2, size_cells: 1 }
    }

    pub open spec fn wf(self) -> bool {
        &&& self.address_cells >= 1
        &&& self.address_cells + self.size_cells <= 0x1000_0000
    }

    /// Bytes in one region entry.
    pub open spec fn stride(self) -> int {
        4 * (self.address_cells + self.size_cells)
    }
}

/// A register region: `start..end`.
#[derive(Clone, Copy, Debug, PartialEq, Eq)]
pub struct RegRegion {
    pub start: u64,
    pub end: u64,
}

/// `count` cells from byte `i` of `s`, most significant first, kept to 64
/// bits: with three cells or more only the last two count, the earlier
/// ones being shifted out.
pub open spec fn cells(s: Seq<u8>, i: int, count: int) -> u64
    decreases count,
{
    if count <= 0 {
        0
    } else {
        ((cells(s, i, count - 1) % 0x1_0000_0000) * 0x1_0000_0000 + word(s, i / 4 + count - 1)) as u64
    }
}

/// The regions that a `reg` value holds, up to the first whose end does not fit in 64 bits.
pub open spec fn regions(data: Seq<u8>, c: RegConfig) -> Seq<RegRegion>
    decreases data.len(),
{
    if !c.wf() || data.len() < c.stride() {
        seq![]
    } else {
        let base = cells(data, 0, c.address_cells as int);
        let len = cells(data, 4 * c.address_cells, c.size_cells as int);
        if base + len > u64::MAX {
            seq![]
        } else {
            seq![RegRegion { start: base, end: (base + len) as u64 }] + regions(
                data.subrange(c.stride(), data.len() as int),
                c,
            )
        }
    }
}

/// Whether every entry of a `reg` value has an end that fits in 64 bits.
pub open spec fn all_fit(data: Seq<u8>, c: RegConfig) -> bool
    decreases data.len(),
{
    if !c.wf() || data.len() < c.stride() {
        true
    } else {
        let base = cells(data, 0, c.address_cells as int);
        let len = cells(data, 4 * c.address_cells, c.size_cells as int);
        base + len <= u64::MAX && all_fit(data.subrange(c.stride(), data.len() as int), c)
    }
}

/// Shifts one 32-bit cell into a 64-bit accumulator.
fn shift_in(acc: u64, w: u32) -> (r: u64)
    ensures
        r == ((acc % 0x1_0000_0000) * 0x1_0000_0000 + w) as u64,
{
    let hi = acc % 0x1_0000_0000;
    assert(hi * 0x1_0000_0000 + w <= u64::MAX) by (nonlinear_arith)
        requires
            hi < 0x1_0000_0000,
            w < 0x1_0000_0000,
    ;
    hi * 0x1_0000_0000 + w as u64
}

/// Reads `count` cells from byte `i` of `s`.
fn read_cells(s: &[u8], i: usize, count: usize) -> (r: u64)
    requires
        i % 4 == 0,
        i + 4 * count <= s@.len(),
    ensures
        r == cells(s@, i as int, count as int),
{
    let mut acc: u64 = 0;
    let mut k: usize = 0;
    let mut pos: usize = i;
    while k < count
        invariant
            i % 4 == 0,
            i + 4 * count <= s@.len(),
            k <= count,
            pos == i + 4 * k,
            acc == cells(s@, i as int, k as int),
        decreases count - k,
    {
        let w = read_be_u32(s, pos);
        assert(word(s@, i / 4 + k) == w) by {
            assert(4 * (i / 4 + k) == i + 4 * k);
        }
        acc = shift_in(acc, w);
        assert(pos + 4 <= s.len());
        k = k + 1;
        pos = pos + 4;
    }
    acc
}

/// A `reg` property: a list of (base, length) entries.
#[derive(Clone, Copy, Debug)]
pub struct Reg<'a> {
    pub data: &'a [u8],
    pub reg: RegConfig,
}

/// Walks the entries of a `reg` property.
#[derive(Clone, Copy, Debug)]
pub struct RegIter<'a> {
    pub data: &'a [u8],
    pub config: RegConfig,
}

impl<'a> Reg<'a> {
    pub fn new(data: &'a [u8], reg: RegConfig) -> (r: Reg<'a>)
        ensures
            r.data@ == data@,
            r.reg == reg,
    {
        Reg { data, reg }
    }

    pub fn iter(&self) -> (r: RegIter<'a>)
        ensures
            r.data@ == self.data@,
            r.config == self.reg,
    {
        RegIter { data: self.data, config: self.reg }
    }
}

impl<'a> RegIter<'a> {
    /// The next region, or `None` at the end of the value or at an entry
    /// whose end would not fit.
    pub fn next(&mut self) -> (r: Option<RegRegion>)
        ensures
            final(self).config == old(self).config,
            regions(old(self).data@, old(self).config) == match r {
                Some(x) => seq![x] + regions(final(self).data@, final(self).config),
                None => Seq::<RegRegion>::empty(),
            },
            r is None ==> final(self).data@ == old(self).data@,
            r is Some ==> final(self).data@.len() < old(self).data@.len(),
    {
        let c = self.config;
        if c.address_cells < 1 || c.address_cells > 0x1000_0000 || c.size_cells > 0x1000_0000 - c.address_cells {
            return None;
        }
        let stride = 4 * (c.address_cells + c.size_cells);
        if self.data.len() < stride {
            return None;
        }
        let base = read_cells(self.data, 0, c.address_cells);
        let len = read_cells(self.data, 4 * c.address_cells, c.size_cells);
        if len > u64::MAX - base {
            return None;
        }
        self.data = subslice(self.data, stride, self.data.len());
        Some(RegRegion { start: base, end: base + len })
    }
}

/// The number of regions of a `reg` value whose entries all fit is the value's
/// length divided by the entry size.
pub proof fn lemma_reg_count(data: Seq<u8>, c: RegConfig)
    requires
        c.wf(),
        all_fit(data, c),
    ensures
        regions(data, c).len() == data.len() as int / c.stride(),
    decreases data.len(),
{
    if data.len() >= c.stride() {
        let rest = data.subrange(c.stride(), data.len() as int);
        lemma_reg_count(rest, c);
        assert(rest.len() as int / c.stride() + 1 == data.len() as int / c.stride()) by (nonlinear_arith)
            requires
                rest.len() == data.len() - c.stride(),
                c.stride() > 0,
                data.len() >= c.stride(),
        ;
    } else {
        assert(data.len() as int / c.stride() == 0) by (nonlinear_arith)
            requires
                0 <= data.len() < c.stride(),
        ;
    }
}

/// Every region yielded ends no earlier than it starts, so `start + length` fits.
pub proof fn lemma_reg_fits(data: Seq<u8>, c: RegConfig, i: int)
    requires
        0 <= i < regions(data, c).len(),
    ensures
        regions(data, c)[i].start <= regions(data, c)[i].end,
    decreases data.len(),
{
    if c.wf() && data.len() >= c.stride() {
        let base = cells(data, 0, c.address_cells as int);
        let len = cells(data, 4 * c.address_cells, c.size_cells as int);
        if base + len <= u64::MAX && i > 0 {
            lemma_reg_fits(data.subrange(c.stride(), data.len() as int), c, i - 1);
        }
    }
}

} // verus!
