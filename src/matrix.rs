use vstd::prelude::*;
use crate::common::{read_be_u32, subslice, word};
use crate::error::Error;

verus! {

/// A property read as rows of `T` big-endian 32-bit cells.
#[derive(Clone, Copy, Debug)]
pub struct Matrix<'a, const T: usize> {
    data: &'a [u8],
}

/// Walks the rows of a `Matrix`.
#[derive(Clone, Copy, Debug)]
pub struct MatrixItem<'a, const T: usize> {
    offset: usize,
    data: &'a [u8],
}

impl<'a, const T: usize> Matrix<'a, T> {
    pub closed spec fn bytes(self) -> Seq<u8> {
        self.data@
    }

    pub open spec fn wf(self) -> bool {
        &&& 1 <= T <= 0x1000_0000
        &&& self.bytes().len() as int % (4 * (T as int)) == 0
    }

    /// Cell `j` of row `i`.
    pub open spec fn spec_cell(self, i: int, j: int) -> u32 {
        word(self.bytes(), i * T + j)
    }

    /// Number of rows.
    pub open spec fn spec_len(self) -> int {
        self.bytes().len() as int / (4 * (T as int))
    }

    /// Reads a property value as a matrix; a value whose length is not a
    /// whole number of rows is refused.
    pub fn new(data: &'a [u8], file_index: usize) -> (r: Result<Matrix<'a, T>, Error>)
        requires
            1 <= T <= 0x1000_0000,
        ensures
            (data@.len() as int % (4 * (T as int)) == 0) <==> r is Ok,
            r matches Ok(m) ==> m.bytes() == data@ && m.wf(),
            r is Err ==> r == Err::<Matrix<'a, T>, Error>(
                Error::typed(crate::error::ErrorType::InvalidSerdeTypeLength { expected_length: 4 }, file_index),
            ),
    {
        if data.len() % (4 * T) != 0 {
            return Err(Error::invalid_serde_type_length(4, file_index));
        }
        Ok(Matrix { data })
    }

    /// Bytes in one row.
    pub fn get_block_size() -> (r: usize)
        requires
            T <= 0x1000_0000,
        ensures
            r == 4 * T,
    {
        T * 4
    }

    pub fn iter(&self) -> (r: MatrixItem<'a, T>)
        ensures
            r.offset() == 0,
            r.bytes() == self.bytes(),
    {
        MatrixItem { offset: 0, data: self.data }
    }

    /// Number of rows.
    pub fn len(&self) -> (r: usize)
        requires
            self.wf(),
        ensures
            r == self.spec_len(),
    {
        self.data.len() / (4 * T)
    }

    pub fn is_empty(&self) -> (r: bool)
        requires
            self.wf(),
        ensures
            r == (self.spec_len() == 0),
    {
        self.len() == 0
    }

    /// The bytes of row `i`.
    pub fn get(&self, i: usize) -> (r: &'a [u8])
        requires
            self.wf(),
            i < self.spec_len(),
        ensures
            r@ == self.bytes().subrange(4 * T * i, 4 * T * (i + 1)),
    {
        let rb = 4 * T;
        proof {
            lemma_row_in(self.bytes().len() as int, T as int, i as int);
            assert(rb * i + rb == 4 * T * (i + 1)) by (nonlinear_arith)
                requires
                    rb == 4 * T,
            ;
            assert(rb * i <= rb * i + rb);
            assert(rb * i + rb <= self.data@.len());
            assert(self.data@.len() == self.data.len());
            assert(rb * i <= usize::MAX);
        }
        let start = rb * i;
        subslice(self.data, start, start + rb)
    }

    /// Cell `j` of row `i`.
    pub fn cell(&self, i: usize, j: usize) -> (r: u32)
        requires
            self.wf(),
            i < self.spec_len(),
            j < T,
        ensures
            r == self.spec_cell(i as int, j as int),
    {
        proof {
            lemma_row_in(self.bytes().len() as int, T as int, i as int);
            assert(4 * T * i + 4 * j + 4 <= 4 * T * (i + 1)) by (nonlinear_arith)
                requires
                    j < T,
            ;
            assert(4 * (i * T + j) == 4 * T * i + 4 * j) by (nonlinear_arith);
            assert(4 * T * i + 4 * T == 4 * T * (i + 1)) by (nonlinear_arith);
        }
        let rb = 4 * T;
        assert(rb * i + rb <= self.data@.len()) by (nonlinear_arith)
            requires
                rb == 4 * T,
                4 * T * i + 4 * T <= self.data@.len(),
        ;
        assert(rb * i + 4 * j + 4 <= self.data@.len()) by (nonlinear_arith)
            requires
                rb == 4 * T,
                4 * T * i + 4 * j + 4 <= 4 * T * (i + 1),
                4 * T * (i + 1) <= self.data@.len(),
        ;
        assert(self.data@.len() == self.data.len());
        assert(rb * i <= usize::MAX);
        let start = rb * i;
        read_be_u32(self.data, start + 4 * j)
    }
}

proof fn lemma_row_in(len: int, t: int, i: int)
    requires
        1 <= t,
        len >= 0,
        len % (4 * t) == 0,
        0 <= i < len / (4 * t),
    ensures
        4 * t * (i + 1) <= len,
{
    assert(4 * t * (i + 1) <= len) by (nonlinear_arith)
        requires
            1 <= t,
            len >= 0,
            len % (4 * t) == 0,
            0 <= i < len / (4 * t),
    ;
}

impl<'a, const T: usize> MatrixItem<'a, T> {
    pub closed spec fn bytes(self) -> Seq<u8> {
        self.data@
    }

    pub closed spec fn offset(self) -> int {
        self.offset as int
    }

    /// The next row, as the cells' bytes.
    pub fn next(&mut self) -> (r: Option<&'a [u8]>)
        requires
            1 <= T <= 0x1000_0000,
            old(self).bytes().len() as int % (4 * (T as int)) == 0,
            old(self).offset() % (4 * (T as int)) == 0,
            old(self).offset() <= old(self).bytes().len(),
        ensures
            final(self).bytes() == old(self).bytes(),
            final(self).offset() % (4 * (T as int)) == 0,
            final(self).offset() <= final(self).bytes().len(),
            old(self).offset() == old(self).bytes().len() <==> r is None,
            r matches Some(row) ==> row@ == old(self).bytes().subrange(
                old(self).offset(),
                old(self).offset() + 4 * T,
            ) && final(self).offset() == old(self).offset() + 4 * T,
    {
        if self.data.len() <= self.offset {
            return None;
        }
        proof {
            assert(self.offset + 4 * T <= self.data@.len()) by (nonlinear_arith)
                requires
                    self.offset < self.data@.len(),
                    self.offset as int % (4 * (T as int)) == 0,
                    self.data@.len() as int % (4 * (T as int)) == 0,
                    1 <= T,
            ;
        }
        let row = subslice(self.data, self.offset, self.offset + 4 * T);
        self.offset = self.offset + 4 * T;
        proof {
            assert((self.offset - 4 * T) as int % (4 * (T as int)) == 0);
            assert(self.offset as int % (4 * (T as int)) == 0) by (nonlinear_arith)
                requires
                    (self.offset - 4 * T) as int % (4 * (T as int)) == 0,
                    T >= 1,
            ;
        }
        Some(row)
    }
}

} // verus!
