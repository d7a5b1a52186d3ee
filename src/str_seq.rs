use vstd::prelude::*;
use crate::common::subslice;
use crate::cursor::{find_zero, find_zero_from, lemma_find_zero};

verus! {

/// Where the first string of `data` ends: its first zero byte, or the end.
pub open spec fn first_str_end(data: Seq<u8>) -> int {
    match find_zero(data, 0) {
        Some(z) => z,
        None => data.len() as int,
    }
}

/// The strings of a list of zero-terminated strings, in order; a last string
/// without a terminator counts too.
pub open spec fn str_list(data: Seq<u8>) -> Seq<Seq<u8>>
    decreases data.len(),
{
    if data.len() == 0 {
        seq![]
    } else {
        let z = first_str_end(data);
        let rest = if z < data.len() {
            data.subrange(z + 1, data.len() as int)
        } else {
            seq![]
        };
        if rest.len() < data.len() {
            seq![data.subrange(0, z)] + str_list(rest)
        } else {
            seq![data.subrange(0, z)]
        }
    }
}

/// Splits the first string off a list of zero-terminated strings.
pub fn split_first_str<'a>(data: &'a [u8]) -> (r: Option<(&'a [u8], &'a [u8])>)
    ensures
        data@.len() == 0 <==> r is None,
        r matches Some((s, rest)) ==> s@.len() == first_str_end(data@),
        r matches Some((s, rest)) ==> str_list(data@) == seq![s@] + str_list(rest@)
            && rest@.len() < data@.len() && s@.len() <= data@.len() && s@ == data@.subrange(0, s@.len() as int) && (forall|
                i: int,
            | 0 <= i < s@.len() ==> s@[i] != 0) && (s@.len() < data@.len() ==> data@[s@.len() as int]
                == 0 && rest@ == data@.subrange(s@.len() as int + 1, data@.len() as int)) && (s@.len()
                == data@.len() ==> rest@.len() == 0),
{
    if data.len() == 0 {
        return None;
    }
    proof {
        lemma_find_zero(data@, 0);
    }
    let z = match find_zero_from(data, 0) {
        Some(z) => z,
        None => data.len(),
    };
    let s = subslice(data, 0, z);
    let rest = if z < data.len() {
        subslice(data, z + 1, data.len())
    } else {
        subslice(data, 0, 0)
    };
    assert(rest@ =~= if z < data@.len() {
        data@.subrange(z + 1, data@.len() as int)
    } else {
        seq![]
    });
    Some((s, rest))
}

/// A property holding a list of zero-terminated strings.
#[derive(Clone, Copy, Debug)]
pub struct StrSeq<'a> {
    pub data: &'a [u8],
}

/// Walks the strings of a `StrSeq`.
#[derive(Clone, Copy, Debug)]
pub struct StrSeqIter<'a> {
    pub data: &'a [u8],
}

impl<'a> StrSeq<'a> {
    pub fn new(data: &'a [u8]) -> (r: StrSeq<'a>)
        ensures
            r.data@ == data@,
    {
        StrSeq { data }
    }

    pub fn iter(&self) -> (r: StrSeqIter<'a>)
        ensures
            r.data@ == self.data@,
    {
        StrSeqIter { data: self.data }
    }
}

impl<'a> StrSeqIter<'a> {
    /// The next string, without its terminator.
    pub fn next(&mut self) -> (r: Option<&'a [u8]>)
        ensures
            match r {
                Some(s) => str_list(old(self).data@) == seq![s@] + str_list(final(self).data@),
                None => str_list(old(self).data@) == Seq::<Seq<u8>>::empty(),
            },
    {
        match split_first_str(self.data) {
            Some((s, rest)) => {
                self.data = rest;
                Some(s)
            },
            None => None,
        }
    }
}

} // verus!
