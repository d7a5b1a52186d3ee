use vstd::prelude::*;
use crate::common::{read_be_u32, subslice, FDT_BEGIN_NODE, FDT_END_NODE, FDT_NOP, FDT_PROP};
use crate::dtb::Dtb;
use crate::error::{Error, ErrorType};

verus! {

/// Marks a cursor at any token of a node body.
#[derive(Clone, Copy, Debug)]
pub struct Body {}

/// Marks a cursor at a `BEGIN_NODE` token whose name is not yet read.
#[derive(Clone, Copy, Debug)]
pub struct Title {}

/// Marks a cursor at a `PROP` token.
#[derive(Clone, Copy, Debug)]
pub struct Prop {}

/// An index, in words, into the structure block; the marker `T` says what
/// it points at.
#[derive(Clone, Copy, Debug)]
pub struct AnyCursor<T>(pub usize, pub T);

pub type BodyCursor = AnyCursor<Body>;
pub type TitleCursor = AnyCursor<Title>;
pub type PropCursor = AnyCursor<Prop>;

/// How the depth changed on one step through the structure block.
#[derive(Clone, Copy, Debug, PartialEq, Eq)]
pub enum MoveResult {
    In,
    Out,
    Others,
}

/// What the next non-`NOP` token of a body is.
#[derive(Clone, Copy, Debug)]
pub enum Cursor {
    Title(TitleCursor),
    Prop(PropCursor),
    End,
}

/// A run of sibling nodes: where it starts, where it ends, where the first
/// node's body starts and how many nodes it holds.
#[derive(Clone, Copy, Debug)]
pub struct MultiNodeCursor {
    pub start_cursor: BodyCursor,
    pub skip_cursor: BodyCursor,
    pub data_cursor: BodyCursor,
    pub node_count: u32,
}

/// The word after the one holding the terminating zero of the string that
/// starts at word `k`.
pub open spec fn skip_str(d: Dtb, k: int) -> Option<int> {
    if k < 0 || k >= d.n() {
        None
    } else {
        match find_zero(d.structure@, 4 * k) {
            Some(z) => Some(z / 4 + 1),
            None => None,
        }
    }
}

/// The first word from `k` on that is not a `NOP`.
pub open spec fn skip_nop(d: Dtb, k: int) -> Option<int>
    decreases d.n() - k,
{
    if k < 0 || k >= d.n() {
        None
    } else if d.w(k) != FDT_NOP {
        Some(k)
    } else {
        skip_nop(d, k + 1)
    }
}

/// Number of words that a value of `len` bytes takes.
pub open spec fn value_words(len: u32) -> int {
    (len as int + 3) / 4
}

/// One step from the token at word `k`: the next word and the change of depth.
pub open spec fn move_next_spec(d: Dtb, k: int) -> Result<(int, MoveResult), Error> {
    if k < 0 || k >= d.n() {
        Err(
            Error::typed(
                ErrorType::TagEofUnexpected { current_index: k as u32, bound_index: d.n() as u32 },
                d.fidx(k),
            ),
        )
    } else if d.w(k) == FDT_BEGIN_NODE {
        match skip_str(d, k + 1) {
            Some(j) => Ok((j, MoveResult::In)),
            None => Err(Error::typed(ErrorType::StringEofUnexpected, d.fidx(k + 1))),
        }
    } else if d.w(k) == FDT_END_NODE {
        Ok((k + 1, MoveResult::Out))
    } else if d.w(k) == FDT_PROP {
        if k + 3 > d.n() {
            Err(
                Error::typed(
                    ErrorType::SliceEofUnexpected {
                        expected_length: 12,
                        remaining_length: (4 * (d.n() - k)) as u32,
                    },
                    d.fidx(k),
                ),
            )
        } else if k + 3 + value_words(d.w(k + 1)) > d.n() {
            Err(
                Error::typed(
                    ErrorType::SliceEofUnexpected {
                        expected_length: d.w(k + 1),
                        remaining_length: (4 * (d.n() - k - 3)) as u32,
                    },
                    d.fidx(k),
                ),
            )
        } else {
            Ok((k + 3 + value_words(d.w(k + 1)), MoveResult::Others))
        }
    } else if d.w(k) == FDT_NOP {
        Ok((k + 1, MoveResult::Others))
    } else {
        Err(Error::typed(ErrorType::InvalidTagId { wrong_id: d.w(k) }, d.fidx(k)))
    }
}

/// The word just after the `END_NODE` that closes `level` open nodes, walking from `k`.
pub open spec fn escape_spec(d: Dtb, k: int, level: int) -> Result<int, Error>
    decreases d.n() - k,
{
    match move_next_spec(d, k) {
        Err(e) => Err(e),
        Ok((j, m)) => if j <= k || j > d.n() {
            Err(Error::typed(ErrorType::NoRemainingTags, d.fidx(k)))
        } else {
            match m {
                MoveResult::In => escape_spec(d, j, level + 1),
                MoveResult::Out => if level <= 1 {
                    Ok(j)
                } else {
                    escape_spec(d, j, level - 1)
                },
                MoveResult::Others => escape_spec(d, j, level),
            }
        },
    }
}

/// What the first non-`NOP` token from `k` is, with its word index.
pub open spec fn move_on_spec(d: Dtb, k: int) -> Result<(int, u32), Error> {
    match skip_nop(d, k) {
        None => Err(
            Error::typed(
                ErrorType::TagEofUnexpected { current_index: k as u32, bound_index: d.n() as u32 },
                d.fidx(k),
            ),
        ),
        Some(j) => if d.w(j) == FDT_BEGIN_NODE || d.w(j) == FDT_END_NODE || d.w(j) == FDT_PROP {
            Ok((j, d.w(j)))
        } else {
            Err(Error::typed(ErrorType::InvalidTagId { wrong_id: d.w(j) }, d.fidx(j)))
        },
    }
}

pub proof fn lemma_move_next_advances(d: Dtb, k: int)
    requires
        d.wf(),
    ensures
        move_next_spec(d, k) matches Ok((j, _)) ==> k < j <= d.n(),
{
    if 0 <= k < d.n() && d.w(k) == FDT_BEGIN_NODE {
        lemma_skip_str_range(d, k + 1);
    }
}

pub proof fn lemma_skip_str_range(d: Dtb, k: int)
    requires
        d.wf(),
    ensures
        skip_str(d, k) matches Some(j) ==> k < j <= d.n(),
{
    if 0 <= k < d.n() {
        lemma_find_zero(d.structure@, 4 * k);
        if let Some(z) = find_zero(d.structure@, 4 * k) {
            assert(z < 4 * d.n());
            assert(z / 4 < d.n());
            assert(z / 4 >= k);
        }
    }
}

pub proof fn lemma_skip_nop_range(d: Dtb, k: int)
    ensures
        skip_nop(d, k) matches Some(j) ==> k <= j < d.n() && d.w(j) != FDT_NOP,
    decreases d.n() - k,
{
    if 0 <= k < d.n() && d.w(k) == FDT_NOP {
        lemma_skip_nop_range(d, k + 1);
    }
}

/// The word of the structure block at index `k`.
pub fn word_at(d: &Dtb, k: usize) -> (r: u32)
    requires
        d.wf(),
        k < d.n(),
    ensures
        r == d.w(k as int),
{
    read_be_u32(d.structure, 4 * k)
}

impl<T> AnyCursor<T> {
    /// Moves the cursor `len` words on.
    pub fn step_n(&mut self, len: usize)
        requires
            old(self).0 + len <= usize::MAX,
        ensures
            final(self).0 == old(self).0 + len,
    {
        self.0 = self.0 + len;
    }

    /// Byte index of the cursor in the blob.
    pub fn file_index_on(&self, dtb: &Dtb) -> (r: usize)
        requires
            dtb.wf(),
            self.0 <= dtb.n(),
        ensures
            r == dtb.fidx(self.0 as int),
    {
        self.0 * 4 + dtb.off_dt_struct()
    }
}

impl AnyCursor<Body> {
    /// Skips `NOP`s and says what the next token is, without moving past it.
    pub fn move_on(&mut self, dtb: &Dtb) -> (r: Result<Cursor, Error>)
        requires
            dtb.wf(),
            old(self).0 <= dtb.n(),
        ensures
            match move_on_spec(*dtb, old(self).0 as int) {
                Err(e) => r == Err::<Cursor, Error>(e) && final(self).0 == old(self).0,
                Ok((j, t)) => r is Ok && final(self).0 == j && match r->Ok_0 {
                    Cursor::Title(c) => t == FDT_BEGIN_NODE && c.0 == j,
                    Cursor::Prop(c) => t == FDT_PROP && c.0 == j,
                    Cursor::End => t == FDT_END_NODE,
                },
            },
    {
        let n = dtb.structure.len() / 4;
        let mut k = self.0;
        while k < n && word_at(dtb, k) == FDT_NOP
            invariant
                dtb.wf(),
                n == dtb.n(),
                old(self).0 <= k,
                skip_nop(*dtb, k as int) == skip_nop(*dtb, old(self).0 as int),
            decreases n - k,
        {
            k = k + 1;
        }
        if k >= n {
            let e = Error::tag_eof_unexpected(self.0 as u32, n as u32, self.0 * 4 + dtb.off_struct);
            return Err(e);
        }
        let w = word_at(dtb, k);
        if w == FDT_BEGIN_NODE {
            self.0 = k;
            Ok(Cursor::Title(AnyCursor(k, Title {})))
        } else if w == FDT_END_NODE {
            self.0 = k;
            Ok(Cursor::End)
        } else if w == FDT_PROP {
            self.0 = k;
            Ok(Cursor::Prop(AnyCursor(k, Prop {})))
        } else {
            Err(Error::invalid_tag_id(w, k * 4 + dtb.off_struct))
        }
    }

    /// Whether the cursor stands at the final `END` token.
    pub fn is_complete_on(&self, dtb: &Dtb) -> (r: bool)
        requires
            dtb.wf(),
            self.0 <= dtb.n(),
        ensures
            r == (self.0 + 1 == dtb.n()),
    {
        self.0 + 1 == dtb.structure.len() / 4
    }

    /// Moves past the string that runs from the cursor.
    pub fn skip_str_on(&mut self, dtb: &Dtb) -> (r: Result<(), Error>)
        requires
            dtb.wf(),
            old(self).0 <= dtb.n(),
        ensures
            match skip_str(*dtb, old(self).0 as int) {
                Some(j) => r is Ok && final(self).0 == j,
                None => r == Err::<(), Error>(
                    Error::typed(ErrorType::StringEofUnexpected, dtb.fidx(old(self).0 as int)),
                ) && final(self).0 == old(self).0,
            },
    {
        let n = dtb.structure.len() / 4;
        let k = self.0;
        if k >= n {
            return Err(Error::string_eof_unpexpected(k * 4 + dtb.off_struct));
        }
        proof {
            lemma_find_zero(dtb.structure@, 4 * k);
        }
        match find_zero_from(dtb.structure, 4 * k) {
            Some(z) => {
                self.0 = z / 4 + 1;
                Ok(())
            },
            None => Err(Error::string_eof_unpexpected(k * 4 + dtb.off_struct)),
        }
    }

    /// Takes one step: past a node's title (`In`), past an `END_NODE`
    /// (`Out`), or past a property or a `NOP` (`Others`).
    pub fn move_next(&mut self, dtb: &Dtb) -> (r: Result<MoveResult, Error>)
        requires
            dtb.wf(),
            old(self).0 <= dtb.n(),
        ensures
            match move_next_spec(*dtb, old(self).0 as int) {
                Ok((j, m)) => r == Ok::<MoveResult, Error>(m) && final(self).0 == j,
                Err(e) => r == Err::<MoveResult, Error>(e) && final(self).0 == old(self).0,
            },
            final(self).0 <= dtb.n(),
    {
        proof {
            lemma_move_next_advances(*dtb, self.0 as int);
        }
        let n = dtb.structure.len() / 4;
        let k = self.0;
        if k >= n {
            return Err(Error::tag_eof_unexpected(k as u32, n as u32, k * 4 + dtb.off_struct));
        }
        let w = word_at(dtb, k);
        if w == FDT_BEGIN_NODE {
            let mut c = AnyCursor(k + 1, Body {});
            match c.skip_str_on(dtb) {
                Ok(()) => {
                    self.0 = c.0;
                    Ok(MoveResult::In)
                },
                Err(e) => Err(e),
            }
        } else if w == FDT_END_NODE {
            self.0 = k + 1;
            Ok(MoveResult::Out)
        } else if w == FDT_PROP {
            if k + 3 > n {
                return Err(Error::slice_eof_unpexpected(12, (4 * (n - k)) as u32, k * 4 + dtb.off_struct));
            }
            let len = word_at(dtb, k + 1);
            let words = (len / 4) as usize + if len % 4 == 0 { 0 } else { 1 };
            assert(words == value_words(len));
            if words > n - k - 3 {
                return Err(
                    Error::slice_eof_unpexpected(len, (4 * (n - k - 3)) as u32, k * 4 + dtb.off_struct),
                );
            }
            self.0 = k + 3 + words;
            Ok(MoveResult::Others)
        } else if w == FDT_NOP {
            self.0 = k + 1;
            Ok(MoveResult::Others)
        } else {
            Err(Error::invalid_tag_id(w, k * 4 + dtb.off_struct))
        }
    }

    /// Leaves the node the cursor is in: stops just after its `END_NODE`.
    #[verifier::rlimit(60)]
    pub fn escape_from(&mut self, dtb: &Dtb) -> (r: Result<(), Error>)
        requires
            dtb.wf(),
            old(self).0 <= dtb.n(),
        ensures
            match escape_spec(*dtb, old(self).0 as int, 1) {
                Ok(j) => r is Ok && final(self).0 == j,
                Err(e) => r == Err::<(), Error>(e),
            },
            final(self).0 <= dtb.n(),
    {
        let ghost start = self.0 as int;
        let n = dtb.structure.len() / 4;
        let mut c = AnyCursor(self.0, Body {});
        let mut level: usize = 1;
        loop
            invariant
                dtb.wf(),
                n == dtb.n(),
                start <= c.0 <= n,
                self.0 == start,
                start == old(self).0,
                1 <= level <= c.0 - start + 1,
                escape_spec(*dtb, c.0 as int, level as int) == escape_spec(*dtb, start, 1),
            decreases n - c.0,
        {
            let ghost k = c.0 as int;
            proof {
                lemma_move_next_advances(*dtb, k);
            }
            match c.move_next(dtb) {
                Err(e) => {
                    assert(move_next_spec(*dtb, k) == Err::<(int, MoveResult), Error>(e));
                    assert(escape_spec(*dtb, k, level as int) == Err::<int, Error>(e));
                    return Err(e);
                },
                Ok(MoveResult::In) => {
                    level = level + 1;
                },
                Ok(MoveResult::Out) => {
                    if level == 1 {
                        self.0 = c.0;
                        return Ok(());
                    }
                    level = level - 1;
                },
                Ok(MoveResult::Others) => {},
            }
        }
    }
}

/// Index of the first zero byte of `s` at or after `i`.
pub open spec fn find_zero(s: Seq<u8>, i: int) -> Option<int>
    decreases s.len() - i,
{
    if i < 0 || i >= s.len() {
        None
    } else if s[i] == 0 {
        Some(i)
    } else {
        find_zero(s, i + 1)
    }
}

pub proof fn lemma_find_zero(s: Seq<u8>, i: int)
    ensures
        find_zero(s, i) matches Some(j) ==> i <= j < s.len() && s[j] == 0
            && forall|t: int| i <= t < j ==> s[t] != 0,
        find_zero(s, i) is None && 0 <= i ==> forall|t: int| i <= t < s.len() ==> s[t] != 0,
    decreases s.len() - i,
{
    if 0 <= i < s.len() && s[i] != 0 {
        lemma_find_zero(s, i + 1);
    }
}

/// Finds the first zero byte of `s` from `i` on.
pub fn find_zero_from(s: &[u8], i: usize) -> (r: Option<usize>)
    ensures
        r matches Some(j) ==> find_zero(s@, i as int) == Some(j as int),
        r is None ==> find_zero(s@, i as int) is None,
{
    let mut k = i;
    while k < s.len()
        invariant
            i <= k,
            find_zero(s@, k as int) == find_zero(s@, i as int),
        decreases s.len() - k,
    {
        if s[k] == 0 {
            return Some(k);
        }
        k = k + 1;
    }
    None
}

/// The name bytes of the node whose title is at word `k`, and the word after them.
pub open spec fn title_name(d: Dtb, k: int) -> Option<(Seq<u8>, int)> {
    match skip_str(d, k + 1) {
        Some(j) => Some(
            (d.structure@.subrange(4 * (k + 1), find_zero(d.structure@, 4 * (k + 1))->Some_0), j),
        ),
        None => None,
    }
}

/// Whether the node titled at word `m` has `base` as the part of its name
/// before the first `@`.
pub open spec fn is_member(d: Dtb, m: int, base: Seq<u8>) -> bool {
    &&& title_name(d, m) is Some
    &&& crate::node::base_of(title_name(d, m)->Some_0.0) == base
}

/// The end of the run of sibling nodes whose names have the base `base` that starts with the
/// node titled at word `k`, and the number of nodes in it.
pub open spec fn group_spec(d: Dtb, k: int, base: Seq<u8>) -> Result<(int, int), Error>
    decreases d.n() - k,
{
    match skip_str(d, k + 1) {
        None => Err(Error::typed(ErrorType::StringEofUnexpected, d.fidx(k + 1))),
        Some(j) => match escape_spec(d, j, 1) {
            Err(e) => Err(e),
            Ok(e) => if e <= k || e > d.n() {
                Err(Error::typed(ErrorType::NoRemainingTags, d.fidx(k)))
            } else {
                match skip_nop(d, e) {
                    Some(m) => if k < m < d.n() && d.w(m) == FDT_BEGIN_NODE && is_member(d, m, base) {
                        match group_spec(d, m, base) {
                            Ok((end, c)) => Ok((end, c + 1)),
                            Err(x) => Err(x),
                        }
                    } else {
                        Ok((e, 1))
                    },
                    None => Ok((e, 1)),
                }
            },
        },
    }
}

pub proof fn lemma_escape_range(d: Dtb, k: int, level: int)
    requires
        d.wf(),
    ensures
        escape_spec(d, k, level) matches Ok(e) ==> k < e <= d.n(),
    decreases d.n() - k,
{
    lemma_move_next_advances(d, k);
    match move_next_spec(d, k) {
        Err(_) => {},
        Ok((j, m)) => {
            if k < j <= d.n() {
                match m {
                    MoveResult::In => lemma_escape_range(d, j, level + 1),
                    MoveResult::Out => if level > 1 {
                        lemma_escape_range(d, j, level - 1)
                    },
                    MoveResult::Others => lemma_escape_range(d, j, level),
                }
            }
        },
    }
}

/// A run of siblings ends after the title it starts at, within the block.
pub proof fn lemma_group_range(d: Dtb, k: int, base: Seq<u8>)
    requires
        d.wf(),
        0 <= k,
    ensures
        group_spec(d, k, base) matches Ok((e, c)) ==> k < e <= d.n() && c >= 1,
    decreases d.n() - k,
{
    lemma_skip_str_range(d, k + 1);
    if let Some(j) = skip_str(d, k + 1) {
        lemma_escape_range(d, j, 1);
        if let Ok(e) = escape_spec(d, j, 1) {
            if k < e <= d.n() {
                lemma_skip_nop_range(d, e);
                if let Some(m) = skip_nop(d, e) {
                    if k < m < d.n() && d.w(m) == FDT_BEGIN_NODE && is_member(d, m, base) {
                        lemma_group_range(d, m, base);
                    }
                }
            }
        }
    }
}

/// The first word at or after `k` that is not a `NOP`.
fn skip_nop_from(dtb: &Dtb, k: usize) -> (r: Option<usize>)
    requires
        dtb.wf(),
        k <= dtb.n(),
    ensures
        r matches Some(j) ==> skip_nop(*dtb, k as int) == Some(j as int),
        r is None ==> skip_nop(*dtb, k as int) is None,
{
    let n = dtb.structure.len() / 4;
    let mut i = k;
    while i < n
        invariant
            dtb.wf(),
            n == dtb.n(),
            k <= i <= n,
            skip_nop(*dtb, i as int) == skip_nop(*dtb, k as int),
        decreases n - i,
    {
        if word_at(dtb, i) != FDT_NOP {
            return Some(i);
        }
        i = i + 1;
    }
    None
}

/// Whether the node titled at word `m` has `base` as the part of its name
/// before the first `@`.
fn check_member(dtb: &Dtb, m: usize, base: &[u8]) -> (r: bool)
    requires
        dtb.wf(),
        m < dtb.n(),
    ensures
        r == is_member(*dtb, m as int, base@),
{
    match AnyCursor(m, Title {}).split_on(dtb) {
        Ok((name, _)) => {
            let (pre, _, _) = crate::node::split_name(name);
            crate::node::bytes_eq(pre, base)
        },
        Err(_) => false,
    }
}

impl AnyCursor<Title> {
    /// Reads the node's name; the body cursor returned stands after it.
    pub fn split_on<'a>(&self, dtb: &Dtb<'a>) -> (r: Result<(&'a [u8], BodyCursor), Error>)
        requires
            dtb.wf(),
            self.0 < dtb.n(),
        ensures
            match title_name(*dtb, self.0 as int) {
                Some((name, j)) => r is Ok && r->Ok_0.0@ == name && r->Ok_0.1.0 == j,
                None => r == Err::<(&[u8], BodyCursor), Error>(
                    Error::typed(ErrorType::StringEofUnexpected, dtb.fidx(self.0 + 1)),
                ),
            },
            r matches Ok((_, b)) ==> self.0 < b.0 <= dtb.n(),
    {
        proof {
            lemma_skip_str_range(*dtb, self.0 + 1);
        }
        let mut body = AnyCursor(self.0 + 1, Body {});
        match body.skip_str_on(dtb) {
            Err(e) => Err(e),
            Ok(()) => {
                proof {
                    lemma_find_zero(dtb.structure@, 4 * (self.0 + 1));
                }
                match find_zero_from(dtb.structure, 4 * (self.0 + 1)) {
                    Some(z) => Ok((subslice(dtb.structure, 4 * (self.0 + 1), z), body)),
                    None => Err(Error::string_eof_unpexpected((self.0 + 1) * 4 + dtb.off_struct)),
                }
            },
        }
    }

    /// Describes the single node titled here: its body and where it ends.
    pub fn take_node_on(&self, dtb: &Dtb) -> (r: Result<MultiNodeCursor, Error>)
        requires
            dtb.wf(),
            self.0 < dtb.n(),
        ensures
            match skip_str(*dtb, self.0 + 1) {
                None => r == Err::<MultiNodeCursor, Error>(
                    Error::typed(ErrorType::StringEofUnexpected, dtb.fidx(self.0 + 1)),
                ),
                Some(j) => match escape_spec(*dtb, j, 1) {
                    Ok(e) => r is Ok && r->Ok_0.start_cursor.0 == self.0
                        && r->Ok_0.data_cursor.0 == j && r->Ok_0.skip_cursor.0 == e
                        && r->Ok_0.node_count == 1,
                    Err(x) => r == Err::<MultiNodeCursor, Error>(x),
                },
            },
            r matches Ok(g) ==> g.skip_cursor.0 <= dtb.n(),
    {
        proof {
            lemma_skip_str_range(*dtb, self.0 + 1);
        }
        let mut data = AnyCursor(self.0 + 1, Body {});
        match data.skip_str_on(dtb) {
            Err(e) => Err(e),
            Ok(()) => {
                let mut skip = data;
                match skip.escape_from(dtb) {
                    Err(e) => Err(e),
                    Ok(()) => Ok(
                        MultiNodeCursor {
                            start_cursor: AnyCursor(self.0, Body {}),
                            skip_cursor: skip,
                            data_cursor: data,
                            node_count: 1,
                        },
                    ),
                }
            },
        }
    }

    /// Takes the run of sibling nodes whose base name is `base`, starting here.
    #[verifier::rlimit(60)]
    pub fn take_group_on(&self, dtb: &Dtb, base: &[u8]) -> (r: Result<MultiNodeCursor, Error>)
        requires
            dtb.wf(),
            self.0 < dtb.n(),
        ensures
            match group_spec(*dtb, self.0 as int, base@) {
                Ok((end, c)) => r is Ok && r->Ok_0.start_cursor.0 == self.0
                    && r->Ok_0.skip_cursor.0 == end && r->Ok_0.node_count == c
                    && skip_str(*dtb, self.0 + 1) == Some(r->Ok_0.data_cursor.0 as int),
                Err(x) => r == Err::<MultiNodeCursor, Error>(x),
            },
    {
        let ghost k = self.0 as int;
        let n = dtb.structure.len() / 4;
        let mut cur = self.0;
        let mut count: u32 = 1;
        let mut first: usize = 0;
        loop
            invariant
                dtb.wf(),
                n == dtb.n(),
                k <= cur < n,
                1 <= count <= cur - k + 1,
                k == self.0,
                cur == k ==> count == 1,
                cur > k ==> skip_str(*dtb, k + 1) == Some(first as int),
                match group_spec(*dtb, cur as int, base@) {
                    Ok((end, c)) => group_spec(*dtb, k, base@) == Ok::<(int, int), Error>(
                        (end, c + count - 1),
                    ),
                    Err(x) => group_spec(*dtb, k, base@) == Err::<(int, int), Error>(x),
                },
            decreases n - cur,
        {
            proof {
                lemma_skip_str_range(*dtb, cur + 1);
            }
            let mut data = AnyCursor(cur + 1, Body {});
            if let Err(e) = data.skip_str_on(dtb) {
                return Err(e);
            }
            if cur == self.0 {
                first = data.0;
            }
            let mut end = data;
            proof {
                lemma_escape_range(*dtb, data.0 as int, 1);
            }
            if let Err(e) = end.escape_from(dtb) {
                return Err(e);
            }
            let next = skip_nop_from(dtb, end.0);
            proof {
                lemma_skip_nop_range(*dtb, end.0 as int);
            }
            let more = match next {
                Some(m) => word_at(dtb, m) == FDT_BEGIN_NODE && check_member(dtb, m, base),
                None => false,
            };
            if more {
                cur = next.unwrap();
                count = count + 1;
            } else {
                return Ok(
                    MultiNodeCursor {
                        start_cursor: AnyCursor(self.0, Body {}),
                        skip_cursor: end,
                        data_cursor: AnyCursor(if cur == self.0 { data.0 } else { first }, Body {}),
                        node_count: count,
                    },
                );
            }
        }
    }
}

/// The value bytes of the property at word `k`, where it fits in the block.
pub open spec fn prop_data(d: Dtb, k: int) -> Seq<u8> {
    d.structure@.subrange(4 * (k + 3), 4 * (k + 3) + d.w(k + 1))
}

/// The name of the property at word `k`, looked up in the string block.
pub open spec fn prop_name(d: Dtb, k: int) -> Result<Seq<u8>, Error> {
    let off = d.w(k + 2) as int;
    match find_zero(d.strings@, off) {
        Some(z) => Ok(d.strings@.subrange(off, z)),
        None => Err(
            Error::typed(
                ErrorType::TableStringOffset {
                    given_offset: off as u32,
                    bound_offset: d.strings@.len() as u32,
                },
                d.fidx(k),
            ),
        ),
    }
}

impl AnyCursor<Prop> {
    /// The property's value bytes, borrowed from the blob.
    pub fn data_on<'a>(&self, dtb: &Dtb<'a>) -> (r: Result<&'a [u8], Error>)
        requires
            dtb.wf(),
            self.0 < dtb.n(),
            dtb.w(self.0 as int) == FDT_PROP,
        ensures
            match move_next_spec(*dtb, self.0 as int) {
                Ok(_) => r is Ok && r->Ok_0@ == prop_data(*dtb, self.0 as int),
                Err(e) => r == Err::<&[u8], Error>(e),
            },
    {
        let mut c = AnyCursor(self.0, Body {});
        match c.move_next(dtb) {
            Err(e) => Err(e),
            Ok(_) => {
                let len = word_at(dtb, self.0 + 1) as usize;
                let start = 4 * (self.0 + 3);
                Ok(subslice(dtb.structure, start, start + len))
            },
        }
    }

    /// The property's name, and a body cursor after the property.
    pub fn name_on<'a>(&self, dtb: &Dtb<'a>) -> (r: Result<(&'a [u8], BodyCursor), Error>)
        requires
            dtb.wf(),
            self.0 < dtb.n(),
            dtb.w(self.0 as int) == FDT_PROP,
        ensures
            match move_next_spec(*dtb, self.0 as int) {
                Ok((j, _)) => match prop_name(*dtb, self.0 as int) {
                    Ok(name) => r is Ok && r->Ok_0.0@ == name && r->Ok_0.1.0 == j,
                    Err(e) => r == Err::<(&[u8], BodyCursor), Error>(e),
                },
                Err(e) => r == Err::<(&[u8], BodyCursor), Error>(e),
            },
            r matches Ok((_, b)) ==> self.0 < b.0 <= dtb.n(),
    {
        proof {
            lemma_move_next_advances(*dtb, self.0 as int);
        }
        let mut c = AnyCursor(self.0, Body {});
        if let Err(e) = c.move_next(dtb) {
            return Err(e);
        }
        let off = word_at(dtb, self.0 + 2);
        proof {
            lemma_find_zero(dtb.strings@, off as int);
        }
        match find_zero_from(dtb.strings, off as usize) {
            Some(z) => Ok((subslice(dtb.strings, off as usize, z), c)),
            None => Err(
                Error::table_string_offset(
                    off,
                    dtb.strings.len() as u32,
                    self.0 * 4 + dtb.off_struct,
                ),
            ),
        }
    }

    /// The property's value read as one big-endian `u32`; any other length is
    /// an error.
    #[verifier::rlimit(60)]
    pub fn map_u32_on(&self, dtb: &Dtb) -> (r: Result<u32, Error>)
        requires
            dtb.wf(),
            self.0 < dtb.n(),
            dtb.w(self.0 as int) == FDT_PROP,
        ensures
            match move_next_spec(*dtb, self.0 as int) {
                Ok(_) => if dtb.w(self.0 + 1) == 4 {
                    r == Ok::<u32, Error>(dtb.w(self.0 + 3))
                } else {
                    r == Err::<u32, Error>(
                        Error::typed(
                            ErrorType::InvalidSerdeTypeLength { expected_length: 4 },
                            dtb.fidx(self.0 as int),
                        ),
                    )
                },
                Err(e) => r == Err::<u32, Error>(e),
            },
    {
        match self.data_on(dtb) {
            Err(e) => Err(e),
            Ok(data) => {
                if data.len() == 4 {
                    let v = read_be_u32(data, 0);
                    proof {
                        let s = dtb.structure@;
                        let k = self.0 as int;
                        assert(data@[0] == s[4 * (k + 3)]);
                        assert(data@[1] == s[4 * (k + 3) + 1]);
                        assert(data@[2] == s[4 * (k + 3) + 2]);
                        assert(data@[3] == s[4 * (k + 3) + 3]);
                    }
                    Ok(v)
                } else {
                    Err(Error::invalid_serde_type_length(4, self.0 * 4 + dtb.off_struct))
                }
            },
        }
    }
}

} // verus!
