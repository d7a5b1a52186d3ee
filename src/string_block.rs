use vstd::prelude::*;
use crate::common::subslice;
use crate::cursor::{find_zero, find_zero_from, lemma_find_zero};
use crate::node::bytes_eq;
use crate::str_seq::{first_str_end, split_first_str, str_list};

verus! {

/// Offset of the first string of block `t` equal to `name`.
pub open spec fn str_offset(t: Seq<u8>, name: Seq<u8>) -> Option<int>
    decreases t.len(),
{
    if t.len() == 0 {
        None
    } else {
        let z = first_str_end(t);
        if z < 0 || z > t.len() {
            None
        } else if t.subrange(0, z) == name {
            Some(0)
        } else if z < t.len() {
            match str_offset(t.subrange(z + 1, t.len() as int), name) {
                Some(o) => Some(o + z + 1),
                None => None,
            }
        } else {
            None
        }
    }
}

/// Where `name` stands once looked up in block `t`: its first occurrence,
/// or the end of `t`, where it is appended.
pub open spec fn name_offset(t: Seq<u8>, name: Seq<u8>) -> int {
    match str_offset(t, name) {
        Some(o) => o,
        None => t.len() as int,
    }
}

/// Block `t` once `name` has been looked up.
pub open spec fn block_after(t: Seq<u8>, name: Seq<u8>) -> Seq<u8> {
    if str_offset(t, name) is Some {
        t
    } else {
        t + name + seq![0u8]
    }
}

/// The string block being built: zero-terminated property names, each once.
pub struct StringBlock {
    data: Vec<u8>,
}

impl StringBlock {
    pub closed spec fn bytes(self) -> Seq<u8> {
        self.data@
    }

    pub open spec fn wf(self) -> bool {
        self.bytes().len() > 0 ==> self.bytes().last() == 0
    }

    /// An empty string block.
    pub fn new() -> (r: StringBlock)
        ensures
            r.wf(),
            r.bytes() == Seq::<u8>::empty(),
    {
        StringBlock { data: Vec::new() }
    }

    pub fn len(&self) -> (r: usize)
        ensures
            r == self.bytes().len(),
    {
        self.data.len()
    }

    /// Hands back the bytes.
    pub fn into_bytes(self) -> (r: Vec<u8>)
        ensures
            r@ == self.bytes(),
    {
        self.data
    }

    /// The string that starts at `offset`, and the offset after its terminator.
    pub fn get_str_by_offset(&self, offset: usize) -> (r: (&[u8], usize))
        requires
            self.wf(),
            offset < self.bytes().len(),
        ensures
            find_zero(self.bytes(), offset as int) == Some(r.1 - 1),
            r.0@ == self.bytes().subrange(offset as int, r.1 - 1),
    {
        proof {
            lemma_find_zero(self.data@, offset as int);
        }
        match find_zero_from(self.data.as_slice(), offset) {
            Some(z) => {
                let l = self.data.len();
                assert(z < l);
                (subslice(self.data.as_slice(), offset, z), z + 1)
            },
            None => {
                proof {
                    assert(self.data@[self.data@.len() - 1] == 0);
                }
                (subslice(self.data.as_slice(), offset, offset), offset + 1)
            },
        }
    }

    /// Appends `name` and its terminator; returns where it starts.
    pub fn insert_str(&mut self, name: &[u8]) -> (r: usize)
        requires
            old(self).bytes().len() + name@.len() + 1 <= usize::MAX,
        ensures
            r == old(self).bytes().len(),
            final(self).bytes() == old(self).bytes() + name@ + seq![0u8],
            final(self).wf(),
    {
        let r = self.data.len();
        let mut i: usize = 0;
        while i < name.len()
            invariant
                r == old(self).bytes().len(),
                i <= name@.len(),
                self.data@ == old(self).bytes() + name@.subrange(0, i as int),
            decreases name.len() - i,
        {
            self.data.push(name[i]);
            proof {
                assert(old(self).bytes() + name@.subrange(0, i + 1) =~= (old(self).bytes()
                    + name@.subrange(0, i as int)).push(name@[i as int]));
            }
            i = i + 1;
        }
        self.data.push(0);
        proof {
            assert(name@.subrange(0, name@.len() as int) =~= name@);
            assert((old(self).bytes() + name@).push(0u8) =~= old(self).bytes() + name@ + seq![0u8]);
        }
        r
    }

    /// The offset of `name` in the block, appending it first if it is not
    /// there yet.
    #[verifier::rlimit(60)]
    pub fn find_or_insert(&mut self, name: &[u8]) -> (r: usize)
        requires
            old(self).wf(),
            old(self).bytes().len() + name@.len() + 1 <= usize::MAX,
            forall|i: int| 0 <= i < name@.len() ==> name@[i] != 0,
        ensures
            final(self).wf(),
            str_list(old(self).bytes()).contains(name@) ==> final(self).bytes() == old(self).bytes(),
            !str_list(old(self).bytes()).contains(name@) ==> final(self).bytes() == old(self).bytes()
                + name@ + seq![0u8],
            r + name@.len() < final(self).bytes().len(),
            final(self).bytes().subrange(r as int, r + name@.len()) == name@,
            final(self).bytes()[r + name@.len()] == 0,
            r == 0 || final(self).bytes()[r - 1] == 0,
            final(self).bytes() == block_after(old(self).bytes(), name@),
            r == name_offset(old(self).bytes(), name@),
    {
        let mut rest = self.data.as_slice();
        let mut pos: usize = 0;
        let ghost mut seen: Seq<Seq<u8>> = seq![];
        while rest.len() > 0
            invariant
                self.data@ == old(self).bytes(),
                old(self).wf(),
                pos <= self.data@.len(),
                rest@ == self.data@.subrange(pos as int, self.data@.len() as int),
                str_list(old(self).bytes()) == seen + str_list(rest@),
                !seen.contains(name@),
                pos == 0 || self.data@[pos - 1] == 0,
                str_offset(old(self).bytes(), name@) == match str_offset(rest@, name@) {
                    Some(o) => Some(o + pos),
                    None => None::<int>,
                },
            decreases rest.len(),
        {
            let (s, rest2) = split_first_str(rest).unwrap();
            proof {
                assert(rest@.last() == 0) by {
                    assert(rest@.last() == self.data@.last());
                }
                if s@.len() == rest@.len() {
                    assert(s@[s@.len() - 1] == rest@.subrange(0, s@.len() as int)[s@.len() - 1]);
                    assert(s@[s@.len() - 1] == rest@[rest@.len() - 1]);
                    assert(s@[s@.len() - 1] != 0);
                }
                assert(s@.len() < rest@.len());
                assert(self.data@.subrange(pos as int, pos + s@.len()) =~= rest@.subrange(
                    0,
                    s@.len() as int,
                ));
                assert(rest2@ =~= self.data@.subrange(pos + s@.len() + 1, self.data@.len() as int));
                assert(self.data@[pos + s@.len()] == rest@[s@.len() as int]);
            }
            if bytes_eq(s, name) {
                proof {
                    assert(rest@.subrange(0, first_str_end(rest@)) == s@);
                    assert(str_list(old(self).bytes())[seen.len() as int] == name@);
                }
                return pos;
            }
            proof {
                assert(rest@.subrange(0, first_str_end(rest@)) == s@);
                assert(rest2@ == rest@.subrange(first_str_end(rest@) + 1, rest@.len() as int));
                seen = seen + seq![s@];
                assert(seen.last() == s@);
                assert forall|t: int| 0 <= t < seen.len() implies seen[t] != name@ by {
                    if t < seen.len() - 1 {
                        assert(seen[t] == seen.drop_last()[t]);
                    }
                }
            }
            assert(pos + s@.len() + 1 <= self.data@.len());
            let l = self.data.len();
            pos = pos + s.len() + 1;
            rest = rest2;
        }
        proof {
            assert(str_offset(rest@, name@) is None);
            assert(str_list(rest@) == Seq::<Seq<u8>>::empty());
            assert(seen + Seq::<Seq<u8>>::empty() =~= seen);
        }
        proof {
            assert(str_offset(self.data@, name@) is None);
        }
        let r = self.insert_str(name);
        proof {
            let b = self.data@;
            assert(b.subrange(r as int, r + name@.len()) =~= name@);
        }
        r
    }
}

/// Looking a name up leaves it in the block: the block is at least as long
/// as the name, and never shorter than before.
pub proof fn lemma_block_after_len(t: Seq<u8>, name: Seq<u8>)
    ensures
        block_after(t, name).len() >= name.len(),
        block_after(t, name).len() >= t.len(),
{
    lemma_str_offset_len(t, name);
}

proof fn lemma_str_offset_len(t: Seq<u8>, name: Seq<u8>)
    ensures
        str_offset(t, name) is Some ==> name.len() <= t.len(),
    decreases t.len(),
{
    if t.len() > 0 {
        let z = first_str_end(t);
        if 0 <= z <= t.len() && t.subrange(0, z) != name && z < t.len() {
            lemma_str_offset_len(t.subrange(z + 1, t.len() as int), name);
        }
    }
}

} // verus!
