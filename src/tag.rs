use vstd::prelude::*;
use crate::common::{align4, be_u32, read_be_u32, subslice, FDT_BEGIN_NODE, FDT_END, FDT_END_NODE, FDT_NOP, FDT_PROP};
use crate::cursor::{find_zero, find_zero_from, lemma_find_zero};
use crate::error::{Error, ErrorType};

verus! {

/// One item of the tag stream: a node's start with its name, a property with
/// its value and name, or a node's end.
#[derive(Clone, Copy, Debug)]
pub enum Tag<'a> {
    Begin(&'a [u8]),
    Prop(&'a [u8], &'a [u8]),
    End,
}

/// A tag, as byte sequences.
pub enum TagView {
    Begin(Seq<u8>),
    Prop(Seq<u8>, Seq<u8>),
    End,
}

impl<'a> Tag<'a> {
    pub open spec fn view(self) -> TagView {
        match self {
            Tag::Begin(n) => TagView::Begin(n@),
            Tag::Prop(v, n) => TagView::Prop(v@, n@),
            Tag::End => TagView::End,
        }
    }
}

/// What the tag stream yields next from byte `cur` of structure block `s`,
/// with string block `t`, the structure block standing at byte `off` of the
/// blob; each tag comes with the byte index in the blob just after it.
pub open spec fn next_tag_spec(s: Seq<u8>, t: Seq<u8>, cur: int, off: int) -> Option<
    Result<(TagView, usize), Error>,
>
    decreases s.len() - cur,
{
    if cur < 0 || cur + 4 > s.len() {
        Some(
            Err(
                Error::typed(
                    ErrorType::TagEofUnexpected {
                        current_index: cur as u32,
                        bound_index: s.len() as u32,
                    },
                    (cur + off) as usize,
                ),
            ),
        )
    } else if cur >= u32::MAX - 4 {
        Some(
            Err(
                Error::typed(
                    ErrorType::U32IndexSpace { current_index: cur as u32 },
                    (cur + off) as usize,
                ),
            ),
        )
    } else {
        let v = be_u32(s, cur);
        let c = cur + 4;
        if v == FDT_BEGIN_NODE {
            match find_zero(s, c) {
                Some(z) => Some(Ok((TagView::Begin(s.subrange(c, z)), (align4(z + 1) + off) as usize))),
                None => Some(Err(Error::typed(ErrorType::StringEofUnexpected, (c + off) as usize))),
            }
        } else if v == FDT_PROP {
            if c + 8 > s.len() {
                Some(
                    Err(
                        Error::typed(
                            ErrorType::TagEofUnexpected {
                                current_index: c as u32,
                                bound_index: s.len() as u32,
                            },
                            (c + off) as usize,
                        ),
                    ),
                )
            } else {
                let len = be_u32(s, c);
                let name_off = be_u32(s, c + 4) as int;
                let b = c + 8;
                if b + len > s.len() {
                    Some(
                        Err(
                            Error::typed(
                                ErrorType::SliceEofUnexpected {
                                    expected_length: len,
                                    remaining_length: (s.len() - b) as u32,
                                },
                                (b + off) as usize,
                            ),
                        ),
                    )
                } else {
                    let nc = align4(b + len);
                    let bad = Error::typed(
                        ErrorType::TableStringOffset {
                            given_offset: name_off as u32,
                            bound_offset: t.len() as u32,
                        },
                        (nc + off) as usize,
                    );
                    match find_zero(t, name_off) {
                        Some(z) => Some(
                            Ok(
                                (
                                    TagView::Prop(s.subrange(b, b + len), t.subrange(name_off, z)),
                                    (nc + off) as usize,
                                ),
                            ),
                        ),
                        None => Some(Err(bad)),
                    }
                }
            }
        } else if v == FDT_END_NODE {
            Some(Ok((TagView::End, (c + off) as usize)))
        } else if v == FDT_NOP {
            next_tag_spec(s, t, c, off)
        } else if v == FDT_END {
            None
        } else {
            Some(Err(Error::typed(ErrorType::InvalidTagId { wrong_id: v }, (c + off) as usize)))
        }
    }
}

/// A forward walk over the tags of a structure block.
#[derive(Clone, Copy, Debug)]
pub struct Tags<'a> {
    pub structure: &'a [u8],
    pub string_table: &'a [u8],
    pub cur: usize,
    pub offset_from_file_begin: usize,
}

impl<'a> Tags<'a> {
    pub open spec fn wf(self) -> bool {
        &&& self.structure@.len() + 8 <= u32::MAX
        &&& self.string_table@.len() <= u32::MAX
        &&& self.offset_from_file_begin + self.structure@.len() + 8 <= u32::MAX
    }

    /// What `next` yields from this state.
    pub open spec fn spec_next(self) -> Option<Result<(TagView, usize), Error>> {
        next_tag_spec(
            self.structure@,
            self.string_table@,
            self.cur as int,
            self.offset_from_file_begin as int,
        )
    }

    /// A walk from the start of `structure`, which stands at byte `offset` of the blob.
    pub fn new(structure: &'a [u8], string_table: &'a [u8], offset: usize) -> (r: Tags<'a>)
        ensures
            r.structure@ == structure@,
            r.string_table@ == string_table@,
            r.cur == 0,
            r.offset_from_file_begin == offset,
    {
        Tags { structure, string_table, cur: 0, offset_from_file_begin: offset }
    }

    /// The next tag with the byte index in the blob just after it; `None`
    /// after the `END` token.
    #[verifier::rlimit(60)]
    pub fn next(&mut self) -> (r: Option<Result<(Tag<'a>, usize), Error>>)
        requires
            old(self).wf(),
            old(self).cur <= old(self).structure@.len() + 4,
        ensures
            final(self).structure == old(self).structure,
            final(self).string_table == old(self).string_table,
            final(self).offset_from_file_begin == old(self).offset_from_file_begin,
            final(self).cur <= final(self).structure@.len() + 4,
            match old(self).spec_next() {
                None => r is None,
                Some(Err(e)) => r == Some(Err::<(Tag<'a>, usize), Error>(e)),
                Some(Ok((tv, i))) => r matches Some(Ok((tag, j))) && tag@ == tv && j == i
                    && final(self).cur + final(self).offset_from_file_begin == i,
            },
    {
        let s = self.structure;
        let t = self.string_table;
        let off = self.offset_from_file_begin;
        let ghost start = self.cur as int;
        loop
            invariant
                s@ == self.structure@,
                self.structure == old(self).structure,
                self.string_table == old(self).string_table,
                self.offset_from_file_begin == old(self).offset_from_file_begin,
                t == self.string_table,
                off == self.offset_from_file_begin,
                old(self).wf(),
                self.cur <= s@.len() + 4,
                next_tag_spec(s@, t@, self.cur as int, off as int) == next_tag_spec(
                    s@,
                    t@,
                    start,
                    off as int,
                ),
                start == old(self).cur,
            decreases s@.len() - self.cur,
        {
            let cur = self.cur;
            if cur > s.len() || 4 > s.len() - cur {
                return Some(Err(Error::tag_eof_unexpected(cur as u32, s.len() as u32, cur + off)));
            }
            if cur >= (u32::MAX - 4) as usize {
                return Some(Err(Error::u32_index_space_overflow(cur as u32, cur + off)));
            }
            let v = read_be_u32(s, cur);
            let c = cur + 4;
            if v == FDT_BEGIN_NODE {
                proof {
                    lemma_find_zero(s@, c as int);
                }
                match find_zero_from(s, c) {
                    Some(z) => {
                        let name = subslice(s, c, z);
                        let nc = z + 1 + (4 - (z + 1) % 4) % 4;
                        self.cur = nc;
                        return Some(Ok((Tag::Begin(name), nc + off)));
                    },
                    None => {
                        return Some(Err(Error::string_eof_unpexpected(c + off)));
                    },
                }
            } else if v == FDT_PROP {
                if 8 > s.len() - c {
                    return Some(Err(Error::tag_eof_unexpected(c as u32, s.len() as u32, c + off)));
                }
                let len = read_be_u32(s, c);
                let name_off = read_be_u32(s, c + 4);
                let b = c + 8;
                if len as usize > s.len() - b {
                    return Some(
                        Err(Error::slice_eof_unpexpected(len, (s.len() - b) as u32, b + off)),
                    );
                }
                let e = b + len as usize;
                let value = subslice(s, b, e);
                let nc = e + (4 - e % 4) % 4;
                proof {
                    lemma_find_zero(t@, name_off as int);
                }
                match find_zero_from(t, name_off as usize) {
                    Some(z) => {
                        let name = subslice(t, name_off as usize, z);
                        self.cur = nc;
                        return Some(Ok((Tag::Prop(value, name), nc + off)));
                    },
                    None => {
                        return Some(
                            Err(Error::table_string_offset(name_off, t.len() as u32, nc + off)),
                        );
                    },
                }
            } else if v == FDT_END_NODE {
                self.cur = c;
                return Some(Ok((Tag::End, c + off)));
            } else if v == FDT_NOP {
                self.cur = c;
            } else if v == FDT_END {
                self.cur = c;
                return None;
            } else {
                return Some(Err(Error::invalid_tag_id(v, c + off)));
            }
        }
    }
}

} // verus!
