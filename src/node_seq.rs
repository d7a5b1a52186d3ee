use vstd::prelude::*;
use crate::common::FDT_BEGIN_NODE;
use crate::cursor::{escape_spec, group_spec, move_on_spec, skip_str, title_name, AnyCursor, Body, BodyCursor, Cursor, Title, TitleCursor};
use crate::dtb::Dtb;
use crate::error::Error;
use crate::node::{base_of, bytes_eq, split_name, unit_of, Node};
use crate::reg::RegConfig;

verus! {

/// A run of sibling nodes sharing the base name before `@`.
#[derive(Clone, Copy, Debug)]
pub struct NodeSeq<'a> {
    pub dtb: Dtb<'a>,
    pub reg: RegConfig,
    pub name: &'a [u8],
    pub count: usize,
    pub start: TitleCursor,
}

/// Walks the nodes of a `NodeSeq`.
#[derive(Clone, Copy, Debug)]
pub struct NodeSeqIter<'a> {
    pub dtb: Dtb<'a>,
    pub reg: RegConfig,
    pub name: &'a [u8],
    pub count: usize,
    pub i: usize,
    pub cursor: BodyCursor,
}

/// One node of a `NodeSeq`: its unit address and where its body starts.
#[derive(Clone, Copy, Debug)]
pub struct NodeSeqItem<'a> {
    pub dtb: Dtb<'a>,
    pub reg: RegConfig,
    pub title: TitleCursor,
    pub body: BodyCursor,
    pub at: &'a [u8],
}

impl<'a> NodeSeq<'a> {
    /// Takes the run of siblings that starts with the node titled at `title`
    /// and shares its base name.
    pub fn take(dtb: Dtb<'a>, reg: RegConfig, title: TitleCursor) -> (r: Result<NodeSeq<'a>, Error>)
        requires
            dtb.wf(),
            title.0 < dtb.n(),
            dtb.w(title.0 as int) == FDT_BEGIN_NODE,
        ensures
            r matches Ok(s) ==> title_name(dtb, title.0 as int) is Some && s.name@ == base_of(
                title_name(dtb, title.0 as int)->Some_0.0,
            ) && group_spec(dtb, title.0 as int, s.name@) is Ok && s.count == group_spec(
                dtb,
                title.0 as int,
                s.name@,
            )->Ok_0.1 && s.start == title && s.dtb == dtb && s.reg == reg,
            title_name(dtb, title.0 as int) is None ==> r is Err,
            title_name(dtb, title.0 as int) is Some && group_spec(
                dtb,
                title.0 as int,
                base_of(title_name(dtb, title.0 as int)->Some_0.0),
            ) is Ok ==> r is Ok,
    {
        let full = match title.split_on(&dtb) {
            Ok((full, _)) => full,
            Err(e) => {
                return Err(e);
            },
        };
        let (base, _, _) = split_name(full);
        match title.take_group_on(&dtb, base) {
            Ok(g) => Ok(NodeSeq { dtb, reg, name: base, count: g.node_count as usize, start: title }),
            Err(e) => Err(e),
        }
    }

    /// Number of nodes in the run.
    pub fn len(&self) -> (r: usize)
        ensures
            r == self.count,
    {
        self.count
    }

    pub fn is_empty(&self) -> (r: bool)
        ensures
            r == (self.count == 0),
    {
        self.count == 0
    }

    pub fn iter(&self) -> (r: NodeSeqIter<'a>)
        ensures
            r.dtb == self.dtb,
            r.reg == self.reg,
            r.name == self.name,
            r.count == self.count,
            r.i == 0,
            r.cursor.0 == self.start.0,
    {
        NodeSeqIter {
            dtb: self.dtb,
            reg: self.reg,
            name: self.name,
            count: self.count,
            i: 0,
            cursor: AnyCursor(self.start.0, Body {}),
        }
    }
}

impl<'a> NodeSeqIter<'a> {
    pub open spec fn wf(self) -> bool {
        self.dtb.wf() && self.cursor.0 <= self.dtb.n()
    }

    /// The word of the next non-`NOP` token.
    pub open spec fn next_title(self) -> int {
        move_on_spec(self.dtb, self.cursor.0 as int)->Ok_0.0
    }

    /// Whether the next sibling belongs to the run and can be read: its name
    /// has the run's base and its subtree closes.
    pub open spec fn continues(self) -> bool {
        let m = move_on_spec(self.dtb, self.cursor.0 as int);
        let j = m->Ok_0.0;
        &&& self.i < self.count
        &&& m is Ok
        &&& m->Ok_0.1 == FDT_BEGIN_NODE
        &&& title_name(self.dtb, j) is Some
        &&& base_of(title_name(self.dtb, j)->Some_0.0) == self.name@
        &&& skip_str(self.dtb, j + 1) is Some
        &&& escape_spec(self.dtb, skip_str(self.dtb, j + 1)->Some_0, 1) is Ok
    }

    /// Whether the next sibling has a different base name.
    pub open spec fn stops_here(self) -> bool {
        let m = move_on_spec(self.dtb, self.cursor.0 as int);
        let j = m->Ok_0.0;
        &&& m is Ok
        &&& m->Ok_0.1 == FDT_BEGIN_NODE
        &&& title_name(self.dtb, j) is Some
        &&& base_of(title_name(self.dtb, j)->Some_0.0) != self.name@
    }

    /// The next node of the run. Each one yielded has the run's base name;
    /// the walk stops at the first sibling that has another.
    pub fn next(&mut self) -> (r: Option<NodeSeqItem<'a>>)
        requires
            old(self).wf(),
        ensures
            final(self).wf(),
            final(self).dtb == old(self).dtb,
            final(self).name == old(self).name,
            final(self).count == old(self).count,
            old(self).i >= old(self).count ==> r is None,
            r matches Some(item) ==> old(self).i < old(self).count && move_on_spec(
                old(self).dtb,
                old(self).cursor.0 as int,
            ) == Ok::<(int, u32), Error>((item.title.0 as int, FDT_BEGIN_NODE))
                && title_name(old(self).dtb, item.title.0 as int) is Some && base_of(
                title_name(old(self).dtb, item.title.0 as int)->Some_0.0,
            ) == old(self).name@ && item.at@ == unit_of(
                title_name(old(self).dtb, item.title.0 as int)->Some_0.0,
            ) && final(self).i == old(self).i + 1 && item.dtb == old(self).dtb,
            old(self).stops_here() ==> r is None,
            old(self).continues() ==> r is Some && final(self).cursor.0 == escape_spec(
                old(self).dtb,
                skip_str(old(self).dtb, old(self).next_title() + 1)->Some_0,
                1,
            )->Ok_0,
    {
        if self.i >= self.count {
            return None;
        }
        let mut c = self.cursor;
        proof {
            crate::cursor::lemma_skip_nop_range(self.dtb, c.0 as int);
        }
        let t = match c.move_on(&self.dtb) {
            Ok(Cursor::Title(t)) => t,
            _ => {
                return None;
            },
        };
        let full = match t.split_on(&self.dtb) {
            Ok((full, _)) => full,
            Err(_) => {
                return None;
            },
        };
        let (pre, at, _) = split_name(full);
        if !bytes_eq(pre, self.name) {
            return None;
        }
        let g = match t.take_node_on(&self.dtb) {
            Ok(g) => g,
            Err(_) => {
                return None;
            },
        };
        self.cursor = g.skip_cursor;
        self.i = self.i + 1;
        Some(NodeSeqItem { dtb: self.dtb, reg: self.reg, title: t, body: g.data_cursor, at })
    }
}

impl<'a> NodeSeqItem<'a> {
    /// The unit address: the part of the name after `@`, empty where there is none.
    pub fn at(&self) -> (r: &'a [u8])
        ensures
            r@ == self.at@,
    {
        self.at
    }

    /// This node as a generic node.
    pub fn to_node(&self) -> (r: Node<'a>)
        requires
            self.dtb.wf(),
            self.title.0 < self.dtb.n(),
            self.dtb.w(self.title.0 as int) == FDT_BEGIN_NODE,
        ensures
            r.wf(),
            r.cursor.0 == self.title.0,
            r.dtb == self.dtb,
            r.reg == self.reg,
    {
        Node { dtb: self.dtb, reg: self.reg, cursor: AnyCursor(self.title.0, Title {}) }
    }
}

/// A run of `c` siblings is walked one node at a time: the node at `t` can
/// be read (so `NodeSeqIter::next` yields it), and after it either the
/// run's next node follows, heading a run of `c - 1`, or the run is over
/// at its end. So a run counted `c` by `take` yields exactly `c` nodes.
pub proof fn lemma_run_steps(d: Dtb, t: int, base: Seq<u8>, end: int, c: int)
    requires
        d.wf(),
        0 <= t < d.n(),
        d.w(t) == FDT_BEGIN_NODE,
        group_spec(d, t, base) == Ok::<(int, int), Error>((end, c)),
    ensures
        move_on_spec(d, t) == Ok::<(int, u32), Error>((t, FDT_BEGIN_NODE)),
        skip_str(d, t + 1) is Some,
        escape_spec(d, skip_str(d, t + 1)->Some_0, 1) is Ok,
        c >= 1,
        c == 1 ==> escape_spec(d, skip_str(d, t + 1)->Some_0, 1) == Ok::<int, Error>(end),
        c > 1 ==> ({
            let e = escape_spec(d, skip_str(d, t + 1)->Some_0, 1)->Ok_0;
            &&& move_on_spec(d, e) is Ok
            &&& move_on_spec(d, e)->Ok_0.1 == FDT_BEGIN_NODE
            &&& title_name(d, move_on_spec(d, e)->Ok_0.0) is Some
            &&& base_of(title_name(d, move_on_spec(d, e)->Ok_0.0)->Some_0.0) == base
            &&& group_spec(d, move_on_spec(d, e)->Ok_0.0, base) == Ok::<(int, int), Error>(
                (end, c - 1),
            )
        }),
{
    crate::cursor::lemma_group_range(d, t, base);
    assert(crate::cursor::skip_nop(d, t) == Some(t));
    let j = skip_str(d, t + 1)->Some_0;
    let e = escape_spec(d, j, 1)->Ok_0;
    if let Some(m) = crate::cursor::skip_nop(d, e) {
        if t < m < d.n() && d.w(m) == FDT_BEGIN_NODE && crate::cursor::is_member(d, m, base) {
            crate::cursor::lemma_group_range(d, m, base);
        }
    }
}

} // verus!
