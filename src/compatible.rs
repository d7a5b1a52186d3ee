use vstd::prelude::*;
use crate::str_seq::{split_first_str, str_list};

verus! {

/// A `compatible` property: a list of zero-terminated strings, not checked as UTF-8.
#[derive(Clone, Copy, Debug)]
pub struct Compatible<'a> {
    pub data: &'a [u8],
}

/// Walks the entries of a `Compatible`.
#[derive(Clone, Copy, Debug)]
pub struct Iter<'a> {
    pub remaining: &'a [u8],
}

impl<'a> Compatible<'a> {
    pub fn iter(&self) -> (r: Iter<'a>)
        ensures
            r.remaining@ == self.data@,
    {
        Iter { remaining: self.data }
    }
}

impl<'a> Iter<'a> {
    /// The next entry, without its terminator.
    pub fn next(&mut self) -> (r: Option<&'a [u8]>)
        ensures
            match r {
                Some(s) => str_list(old(self).remaining@) == seq![s@] + str_list(
                    final(self).remaining@,
                ),
                None => str_list(old(self).remaining@) == Seq::<Seq<u8>>::empty(),
            },
    {
        match split_first_str(self.remaining) {
            Some((s, rest)) => {
                self.remaining = rest;
                Some(s)
            },
            None => None,
        }
    }
}

} // verus!
