use vstd::prelude::*;
use crate::matrix::Matrix;

verus! {

/// `riscv,event-to-mhpmevent`: rows of (event id, selector high, selector low).
pub struct EventToMhpmevent<'a>(pub Matrix<'a, 3>);

/// `riscv,event-to-mhpmcounters`: rows of (first event, last event, counter bitmap).
pub struct EventToMhpmcounters<'a>(pub Matrix<'a, 3>);

/// `riscv,raw-event-to-mhpmcounters`: rows of (base high, base low, mask high,
/// mask low, counter bitmap).
pub struct RawEventToMhpcounters<'a>(pub Matrix<'a, 5>);

/// Two cells joined into one 64-bit value, the first one high.
pub open spec fn join64(hi: u32, lo: u32) -> u64 {
    (hi as int * 0x1_0000_0000 + lo as int) as u64
}

fn join_cells(hi: u32, lo: u32) -> (r: u64)
    ensures
        r == join64(hi, lo),
{
    assert(hi as int * 0x1_0000_0000 + lo as int <= u64::MAX) by (nonlinear_arith)
        requires
            hi < 0x1_0000_0000,
            lo < 0x1_0000_0000,
    ;
    hi as u64 * 0x1_0000_0000 + lo as u64
}

impl<'a> EventToMhpmevent<'a> {
    pub fn len(&self) -> (r: usize)
        requires
            self.0.wf(),
        ensures
            r == self.0.spec_len(),
    {
        self.0.len()
    }

    pub fn is_empty(&self) -> (r: bool)
        requires
            self.0.wf(),
        ensures
            r == (self.0.spec_len() == 0),
    {
        self.0.is_empty()
    }

    pub fn get_event_id(&self, i: usize) -> (r: u32)
        requires
            self.0.wf(),
            i < self.0.spec_len(),
        ensures
            r == self.0.spec_cell(i as int, 0),
    {
        self.0.cell(i, 0)
    }

    pub fn get_selector_value(&self, i: usize) -> (r: u64)
        requires
            self.0.wf(),
            i < self.0.spec_len(),
        ensures
            r == join64(self.0.spec_cell(i as int, 1), self.0.spec_cell(i as int, 2)),
    {
        join_cells(self.0.cell(i, 1), self.0.cell(i, 2))
    }
}

impl<'a> EventToMhpmcounters<'a> {
    pub fn len(&self) -> (r: usize)
        requires
            self.0.wf(),
        ensures
            r == self.0.spec_len(),
    {
        self.0.len()
    }

    pub fn is_empty(&self) -> (r: bool)
        requires
            self.0.wf(),
        ensures
            r == (self.0.spec_len() == 0),
    {
        self.0.is_empty()
    }

    /// The inclusive range of event indices of row `i`, as (first, last).
    pub fn get_event_idx_range(&self, i: usize) -> (r: (u32, u32))
        requires
            self.0.wf(),
            i < self.0.spec_len(),
        ensures
            r == (self.0.spec_cell(i as int, 0), self.0.spec_cell(i as int, 1)),
    {
        (self.0.cell(i, 0), self.0.cell(i, 1))
    }

    pub fn get_counter_bitmap(&self, i: usize) -> (r: u32)
        requires
            self.0.wf(),
            i < self.0.spec_len(),
        ensures
            r == self.0.spec_cell(i as int, 2),
    {
        self.0.cell(i, 2)
    }
}

impl<'a> RawEventToMhpcounters<'a> {
    pub fn len(&self) -> (r: usize)
        requires
            self.0.wf(),
        ensures
            r == self.0.spec_len(),
    {
        self.0.len()
    }

    pub fn is_empty(&self) -> (r: bool)
        requires
            self.0.wf(),
        ensures
            r == (self.0.spec_len() == 0),
    {
        self.0.is_empty()
    }

    pub fn get_event_idx_base(&self, i: usize) -> (r: u64)
        requires
            self.0.wf(),
            i < self.0.spec_len(),
        ensures
            r == join64(self.0.spec_cell(i as int, 0), self.0.spec_cell(i as int, 1)),
    {
        join_cells(self.0.cell(i, 0), self.0.cell(i, 1))
    }

    pub fn get_event_idx_mask(&self, i: usize) -> (r: u64)
        requires
            self.0.wf(),
            i < self.0.spec_len(),
        ensures
            r == join64(self.0.spec_cell(i as int, 2), self.0.spec_cell(i as int, 3)),
    {
        join_cells(self.0.cell(i, 2), self.0.cell(i, 3))
    }

    pub fn get_counter_bitmap(&self, i: usize) -> (r: u32)
        requires
            self.0.wf(),
            i < self.0.spec_len(),
        ensures
            r == self.0.spec_cell(i as int, 4),
    {
        self.0.cell(i, 4)
    }
}

} // verus!
