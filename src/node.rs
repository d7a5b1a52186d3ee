use vstd::prelude::*;
use vstd::string::StringSliceAdditionalSpecFns;
use crate::common::{subslice, FDT_BEGIN_NODE, FDT_END_NODE, FDT_PROP};
use crate::cursor::{
    escape_spec, lemma_escape_range, move_next_spec, move_on_spec, prop_data, prop_name, skip_nop, skip_str,
    title_name, AnyCursor, Body, BodyCursor, Cursor, MultiNodeCursor, Prop, PropCursor, Title,
    TitleCursor,
};
use crate::dtb::Dtb;
use crate::error::{Error, ErrorType};
use crate::reg::{Reg, RegConfig};
use crate::str_seq::StrSeq;

verus! {

/// Index of the first `@` of `s` at or after `i`, or the length of `s`.
pub open spec fn find_at(s: Seq<u8>, i: int) -> int
    decreases s.len() - i,
{
    if i < 0 || i >= s.len() {
        s.len() as int
    } else if s[i] == 0x40 {
        i
    } else {
        find_at(s, i + 1)
    }
}

/// The part of a node name before its first `@`.
pub open spec fn base_of(name: Seq<u8>) -> Seq<u8> {
    name.subrange(0, find_at(name, 0))
}

/// The part of a node name after its first `@`, empty where it has none.
pub open spec fn unit_of(name: Seq<u8>) -> Seq<u8> {
    let a = find_at(name, 0);
    if a < name.len() {
        name.subrange(a + 1, name.len() as int)
    } else {
        seq![]
    }
}

pub proof fn lemma_find_at(s: Seq<u8>, i: int)
    requires
        0 <= i <= s.len(),
    ensures
        i <= find_at(s, i) <= s.len(),
        find_at(s, i) < s.len() ==> s[find_at(s, i)] == 0x40,
    decreases s.len() - i,
{
    if i < s.len() && s[i] != 0x40 {
        lemma_find_at(s, i + 1);
    }
}

/// Splits a node name at its first `@`: the base, the unit address, and
/// whether there was an `@`.
pub fn split_name<'a>(name: &'a [u8]) -> (r: (&'a [u8], &'a [u8], bool))
    ensures
        r.0@ == base_of(name@),
        r.1@ == unit_of(name@),
        r.2 == (find_at(name@, 0) < name@.len()),
{
    let mut i: usize = 0;
    while i < name.len() && name[i] != 0x40
        invariant
            i <= name@.len(),
            find_at(name@, i as int) == find_at(name@, 0),
        decreases name.len() - i,
    {
        i = i + 1;
    }
    let base = subslice(name, 0, i);
    if i < name.len() {
        (base, subslice(name, i + 1, name.len()), true)
    } else {
        (base, subslice(name, 0, 0), false)
    }
}

/// Whether two byte strings are equal.
pub fn bytes_eq(a: &[u8], b: &[u8]) -> (r: bool)
    ensures
        r == (a@ == b@),
{
    if a.len() != b.len() {
        return false;
    }
    let mut i: usize = 0;
    while i < a.len()
        invariant
            a@.len() == b@.len(),
            i <= a@.len(),
            forall|t: int| 0 <= t < i ==> a@[t] == b@[t],
        decreases a.len() - i,
    {
        if a[i] != b[i] {
            return false;
        }
        i = i + 1;
    }
    assert(a@ =~= b@);
    true
}

/// The word after the entry at word `j` of a body, whose token is `t`.
pub open spec fn entry_end(d: Dtb, j: int, t: u32) -> Result<int, Error> {
    if t == FDT_PROP {
        match move_next_spec(d, j) {
            Ok((e, _)) => Ok(e),
            Err(x) => Err(x),
        }
    } else {
        match skip_str(d, j + 1) {
            Some(a) => escape_spec(d, a, 1),
            None => Err(Error::typed(ErrorType::StringEofUnexpected, d.fidx(j + 1))),
        }
    }
}

/// The word indices of the properties (`props`) or of the child nodes
/// (`!props`) of the node body that starts at word `k`, in file order, up to
/// the `END_NODE` that closes it.
pub open spec fn body_items(d: Dtb, k: int, props: bool) -> Result<Seq<int>, Error>
    decreases d.n() - k,
{
    match move_on_spec(d, k) {
        Err(e) => Err(e),
        Ok((j, t)) => if t == FDT_END_NODE {
            Ok(seq![])
        } else {
            match entry_end(d, j, t) {
                Err(e) => Err(e),
                Ok(e) => if e <= k || e > d.n() {
                    Err(Error::typed(ErrorType::NoRemainingTags, d.fidx(k)))
                } else {
                    match body_items(d, e, props) {
                        Err(x) => Err(x),
                        Ok(rest) => Ok(
                            if (t == FDT_PROP) == props {
                                seq![j] + rest
                            } else {
                                rest
                            },
                        ),
                    }
                },
            }
        },
    }
}

/// A node of the tree, seen through its title.
#[derive(Clone, Copy, Debug)]
pub struct Node<'a> {
    pub dtb: Dtb<'a>,
    pub reg: RegConfig,
    pub cursor: TitleCursor,
}

/// A child of a node.
#[derive(Clone, Copy, Debug)]
pub struct NodeItem<'a> {
    pub dtb: Dtb<'a>,
    pub reg: RegConfig,
    pub node: MultiNodeCursor,
    pub name: &'a [u8],
}

/// A property of a node.
#[derive(Clone, Copy, Debug)]
pub struct PropItem<'a> {
    pub dtb: Dtb<'a>,
    pub reg: RegConfig,
    pub prop: PropCursor,
    pub name: &'a [u8],
}

impl<'a> PropItem<'a> {
    pub open spec fn wf(self) -> bool {
        &&& self.dtb.wf()
        &&& self.prop.0 < self.dtb.n()
        &&& self.dtb.w(self.prop.0 as int) == FDT_PROP
    }
}

impl<'a> NodeItem<'a> {
    pub open spec fn wf(self) -> bool {
        &&& self.dtb.wf()
        &&& self.node.start_cursor.0 < self.dtb.n()
        &&& self.dtb.w(self.node.start_cursor.0 as int) == FDT_BEGIN_NODE
    }
}

/// Whether the body of the node titled at word `k` reads and every property
/// name of it is found in the string block.
pub open spec fn props_read(d: Dtb, k: int) -> bool {
    match body_start(d, k) {
        None => false,
        Some(b) => match body_items(d, b, true) {
            Err(_) => false,
            Ok(ps) => forall|i: int| 0 <= i < ps.len() ==> prop_name(d, ps[i]) is Ok,
        },
    }
}

/// The first word of the body of the node titled at word `k`.
pub open spec fn body_start(d: Dtb, k: int) -> Option<int> {
    skip_str(d, k + 1)
}

impl<'a> Node<'a> {
    pub open spec fn wf(self) -> bool {
        &&& self.dtb.wf()
        &&& self.cursor.0 < self.dtb.n()
        &&& self.dtb.w(self.cursor.0 as int) == FDT_BEGIN_NODE
    }

    /// The root node of a blob.
    pub fn root(dtb: Dtb<'a>) -> (r: Node<'a>)
        requires
            dtb.wf(),
        ensures
            r.wf(),
            r.cursor.0 == 0,
            r.dtb == dtb,
            r.reg == RegConfig::default_config_spec(),
    {
        Node { dtb, reg: RegConfig::default_config(), cursor: AnyCursor(0, Title {}) }
    }

    /// The word indices of the node's properties, where its body reads.
    pub open spec fn prop_list(self) -> Option<Seq<int>> {
        match body_start(self.dtb, self.cursor.0 as int) {
            Some(b) => match body_items(self.dtb, b, true) {
                Ok(s) => Some(s),
                Err(_) => None,
            },
            None => None,
        }
    }

    /// Whether the body reads and every property name is found in the
    /// string block.
    pub open spec fn names_ok(self) -> bool {
        props_read(self.dtb, self.cursor.0 as int)
    }

    /// The word indices of the node's children, where its body reads.
    pub open spec fn child_list(self) -> Option<Seq<int>> {
        match body_start(self.dtb, self.cursor.0 as int) {
            Some(b) => match body_items(self.dtb, b, false) {
                Ok(s) => Some(s),
                Err(_) => None,
            },
            None => None,
        }
    }

    /// The node's full name; the root's is empty.
    pub fn name(&self) -> (r: Result<&'a [u8], Error>)
        requires
            self.wf(),
        ensures
            match title_name(self.dtb, self.cursor.0 as int) {
                Some((name, _)) => r is Ok && r->Ok_0@ == name,
                None => r is Err,
            },
    {
        match self.cursor.split_on(&self.dtb) {
            Ok((name, _)) => Ok(name),
            Err(e) => Err(e),
        }
    }

    /// Walks the node body and collects the word indices of its properties
    /// (`props`) or of its children (`!props`).
    #[verifier::rlimit(60)]
    fn items(&self, props: bool) -> (r: Result<Vec<usize>, Error>)
        requires
            self.wf(),
        ensures
            match body_start(self.dtb, self.cursor.0 as int) {
                None => r is Err,
                Some(b) => match body_items(self.dtb, b, props) {
                    Ok(s) => r is Ok && r->Ok_0@.len() == s.len() && forall|i: int|
                        0 <= i < s.len() ==> r->Ok_0@[i] as int == s[i],
                    Err(e) => r == Err::<Vec<usize>, Error>(e),
                },
            },
            r matches Ok(v) ==> forall|i: int|
                0 <= i < v@.len() ==> v@[i] < self.dtb.n() && self.dtb.w(v@[i] as int) == (
                if props {
                    FDT_PROP
                } else {
                    FDT_BEGIN_NODE
                }),
    {
        let d = &self.dtb;
        let n = d.structure.len() / 4;
        proof {
            crate::cursor::lemma_skip_str_range(*d, self.cursor.0 + 1);
        }
        let mut c = AnyCursor(self.cursor.0 + 1, Body {});
        if let Err(e) = c.skip_str_on(d) {
            return Err(e);
        }
        let ghost b = c.0 as int;
        let mut out: Vec<usize> = Vec::new();
        loop
            invariant
                d.wf(),
                *d == self.dtb,
                n == d.n(),
                c.0 <= n,
                b == body_start(*d, self.cursor.0 as int)->Some_0,
                body_start(*d, self.cursor.0 as int) is Some,
                match body_items(*d, c.0 as int, props) {
                    Ok(rest) => body_items(*d, b, props) matches Ok(all) && all =~= out@.map_values(
                        |x: usize| x as int,
                    ) + rest,
                    Err(e) => body_items(*d, b, props) == Err::<Seq<int>, Error>(e),
                },
                forall|i: int|
                    0 <= i < out@.len() ==> out@[i] < d.n() && d.w(out@[i] as int) == (if props {
                        FDT_PROP
                    } else {
                        FDT_BEGIN_NODE
                    }),
            decreases n - c.0,
        {
            let ghost k = c.0 as int;
            proof {
                crate::cursor::lemma_skip_nop_range(*d, k);
            }
            let cur = match c.move_on(d) {
                Err(e) => {
                    assert(body_items(*d, k, props) == Err::<Seq<int>, Error>(e));
                    assert(body_items(*d, b, props) == Err::<Seq<int>, Error>(e));
                    return Err(e);
                },
                Ok(x) => x,
            };
            let j = c.0;
            match cur {
                Cursor::End => {
                    proof {
                        assert(out@.map_values(|x: usize| x as int) + seq![] =~= out@.map_values(
                            |x: usize| x as int,
                        ));
                    }
                    return Ok(out);
                },
                Cursor::Prop(p) => {
                    proof {
                        crate::cursor::lemma_move_next_advances(*d, j as int);
                    }
                    if let Err(e) = c.move_next(d) {
                        return Err(e);
                    }
                    if props {
                        proof {
                            let ghost old_out = out@;
                            assert(old_out.push(j).map_values(|x: usize| x as int) =~= old_out.map_values(
                                |x: usize| x as int,
                            ) + seq![j as int]);
                        }
                        out.push(j);
                    }
                },
                Cursor::Title(t) => {
                    let g = match t.take_node_on(d) {
                        Err(e) => {
                            assert(entry_end(*d, j as int, FDT_BEGIN_NODE) == Err::<int, Error>(e));
                            assert(body_items(*d, k, props) == Err::<Seq<int>, Error>(e));
                            return Err(e);
                        },
                        Ok(g) => g,
                    };
                    proof {
                        crate::cursor::lemma_skip_str_range(*d, j + 1);
                        lemma_escape_range(*d, g.data_cursor.0 as int, 1);
                    }
                    c = g.skip_cursor;
                    if !props {
                        proof {
                            let ghost old_out = out@;
                            assert(old_out.push(j).map_values(|x: usize| x as int) =~= old_out.map_values(
                                |x: usize| x as int,
                            ) + seq![j as int]);
                        }
                        out.push(j);
                    }
                },
            }
            proof {
                assert(c.0 > k);
            }
        }
    }

    /// The node's properties, in file order.
    #[verifier::rlimit(60)]
    pub fn props(&self) -> (r: Result<Vec<PropItem<'a>>, Error>)
        requires
            self.wf(),
        ensures
            match body_start(self.dtb, self.cursor.0 as int) {
                None => r is Err,
                Some(b) => match body_items(self.dtb, b, true) {
                    Ok(s) => r matches Ok(v) ==> v@.len() == s.len() && forall|i: int|
                        0 <= i < s.len() ==> v@[i].prop.0 == s[i] && prop_name(self.dtb, s[i])
                            == Ok::<Seq<u8>, Error>(v@[i].name@) && v@[i].dtb == self.dtb
                            && v@[i].reg == self.reg && v@[i].wf(),
                    Err(e) => r == Err::<Vec<PropItem>, Error>(e),
                },
            },
            self.names_ok() ==> r is Ok,
            r is Ok ==> self.names_ok(),
    {
        proof {
            if let Some(b) = body_start(self.dtb, self.cursor.0 as int) {
                lemma_items_parse(self.dtb, b, true);
            }
        }
        let idx = match self.items(true) {
            Ok(v) => v,
            Err(e) => {
                return Err(e);
            },
        };
        let ghost s = self.prop_list()->Some_0;
        let mut out: Vec<PropItem<'a>> = Vec::new();
        let mut i: usize = 0;
        while i < idx.len()
            invariant
                self.wf(),
                self.prop_list() == Some(s),
                idx@.len() == s.len(),
                forall|t: int| 0 <= t < s.len() ==> idx@[t] as int == s[t],
                forall|t: int| 0 <= t < s.len() ==> move_next_spec(self.dtb, s[t]) is Ok,
                i <= idx@.len(),
                out@.len() == i,
                forall|t: int|
                    0 <= t < idx@.len() ==> idx@[t] < self.dtb.n() && self.dtb.w(idx@[t] as int)
                        == FDT_PROP,
                forall|t: int|
                    0 <= t < i ==> out@[t].prop.0 == idx@[t] && prop_name(
                        self.dtb,
                        idx@[t] as int,
                    ) == Ok::<Seq<u8>, Error>(out@[t].name@) && out@[t].dtb == self.dtb
                        && out@[t].reg == self.reg && out@[t].wf(),
            decreases idx.len() - i,
        {
            let p = AnyCursor(idx[i], Prop {});
            match p.name_on(&self.dtb) {
                Ok((name, _)) => {
                    out.push(PropItem { dtb: self.dtb, reg: self.reg, prop: p, name });
                },
                Err(e) => {
                    assert(move_next_spec(self.dtb, s[i as int]) is Ok);
                    assert(prop_name(self.dtb, s[i as int]) is Err);
                    return Err(e);
                },
            }
            i = i + 1;
        }
        Ok(out)
    }

    /// The node's children, in file order; those sharing a base name are
    /// not grouped.
    #[verifier::rlimit(60)]
    pub fn nodes(&self) -> (r: Result<Vec<NodeItem<'a>>, Error>)
        requires
            self.wf(),
        ensures
            match body_start(self.dtb, self.cursor.0 as int) {
                None => r is Err,
                Some(b) => match body_items(self.dtb, b, false) {
                    Ok(s) => r matches Ok(v) ==> v@.len() == s.len() && forall|i: int|
                        0 <= i < s.len() ==> v@[i].node.start_cursor.0 == s[i]
                            && title_name(self.dtb, s[i]) is Some && title_name(self.dtb, s[i])->Some_0.0
                            == v@[i].name@ && v@[i].dtb == self.dtb && v@[i].wf(),
                    Err(e) => r == Err::<Vec<NodeItem>, Error>(e),
                },
            },
            r matches Ok(v) ==> forall|i: int|
                0 <= i < v@.len() ==> (#[trigger] v@[i]).wf() && v@[i].dtb == self.dtb
                    && v@[i].node.start_cursor.0 > self.cursor.0,
            self.names_ok() && self.child_list() is Some ==> r is Ok,
            r is Ok ==> self.names_ok(),
    {
        proof {
            crate::cursor::lemma_skip_str_range(self.dtb, self.cursor.0 + 1);
            if let Some(b) = body_start(self.dtb, self.cursor.0 as int) {
                lemma_items_from(self.dtb, b, false);
                lemma_items_parse(self.dtb, b, false);
            }
        }
        let idx = match self.items(false) {
            Ok(v) => v,
            Err(e) => {
                return Err(e);
            },
        };
        let child_reg = match self.child_config() {
            Ok(c) => c,
            Err(e) => {
                return Err(e);
            },
        };
        let ghost s = self.child_list()->Some_0;
        let mut out: Vec<NodeItem<'a>> = Vec::new();
        let mut i: usize = 0;
        while i < idx.len()
            invariant
                self.wf(),
                self.child_list() == Some(s),
                forall|t: int| 0 <= t < s.len() ==> s[t] > self.cursor.0,
                forall|t: int|
                    0 <= t < s.len() ==> skip_str(self.dtb, s[t] + 1) is Some && escape_spec(
                        self.dtb,
                        skip_str(self.dtb, s[t] + 1)->Some_0,
                        1,
                    ) is Ok,
                forall|t: int|
                    0 <= t < i ==> (#[trigger] out@[t]).wf() && out@[t].dtb == self.dtb
                        && out@[t].node.start_cursor.0 > self.cursor.0,
                idx@.len() == s.len(),
                forall|t: int| 0 <= t < s.len() ==> idx@[t] as int == s[t],
                i <= idx@.len(),
                out@.len() == i,
                forall|t: int|
                    0 <= t < idx@.len() ==> idx@[t] < self.dtb.n() && self.dtb.w(idx@[t] as int)
                        == FDT_BEGIN_NODE,
                forall|t: int|
                    0 <= t < i ==> out@[t].node.start_cursor.0 == idx@[t] && title_name(
                        self.dtb,
                        idx@[t] as int,
                    ) is Some && title_name(self.dtb, idx@[t] as int)->Some_0.0 == out@[t].name@
                        && out@[t].dtb == self.dtb && out@[t].wf(),
            decreases idx.len() - i,
        {
            let t = AnyCursor(idx[i], Title {});
            proof {
                assert(idx@[i as int] as int == s[i as int]);
                assert(skip_str(self.dtb, s[i as int] + 1) is Some);
                assert(escape_spec(self.dtb, skip_str(self.dtb, s[i as int] + 1)->Some_0, 1) is Ok);
            }
            let name = match t.split_on(&self.dtb) {
                Ok((name, _)) => name,
                Err(e) => {
                    return Err(e);
                },
            };
            match t.take_node_on(&self.dtb) {
                Ok(g) => {
                    out.push(NodeItem { dtb: self.dtb, reg: child_reg, node: g, name });
                    assert(idx@[i as int] as int == s[i as int]);
                    assert(s[i as int] > self.cursor.0);
                    assert(out@[i as int].node.start_cursor.0 == idx@[i as int]);
                },
                Err(e) => {
                    return Err(e);
                },
            }
            i = i + 1;
        }
        Ok(out)
    }

    /// The first property named `name`.
    #[verifier::rlimit(60)]
    pub fn get_prop(&self, name: &[u8]) -> (r: Result<Option<PropItem<'a>>, Error>)
        requires
            self.wf(),
        ensures
            r is Ok ==> self.prop_list() is Some,
            r matches Ok(Some(p)) ==> prop_name(self.dtb, p.prop.0 as int) == Ok::<Seq<u8>, Error>(
                name@,
            ),
            r matches Ok(Some(p)) ==> p.name@ == name@ && p.dtb == self.dtb && p.reg == self.reg
                && p.wf() && exists|i: int|
                0 <= i < self.prop_list()->Some_0.len() && self.prop_list()->Some_0[i] == p.prop.0
                    && forall|t: int|
                    0 <= t < i ==> prop_name(self.dtb, self.prop_list()->Some_0[t]) != Ok::<
                        Seq<u8>,
                        Error,
                    >(name@),
            self.names_ok() ==> r is Ok,
            r matches Ok(None) ==> forall|t: int|
                0 <= t < self.prop_list()->Some_0.len() ==> prop_name(
                    self.dtb,
                    self.prop_list()->Some_0[t],
                ) != Ok::<Seq<u8>, Error>(name@),
    {
        let props = match self.props() {
            Ok(v) => v,
            Err(e) => {
                return Err(e);
            },
        };
        let ghost b = body_start(self.dtb, self.cursor.0 as int)->Some_0;
        let ghost s = body_items(self.dtb, b, true)->Ok_0;
        let mut i: usize = 0;
        while i < props.len()
            invariant
                self.wf(),
                i <= props@.len(),
                self.prop_list() == Some(s),
                body_start(self.dtb, self.cursor.0 as int) == Some(b),
                body_items(self.dtb, b, true) == Ok::<Seq<int>, Error>(s),
                props@.len() == s.len(),
                forall|t: int|
                    0 <= t < s.len() ==> props@[t].prop.0 == s[t] && prop_name(self.dtb, s[t])
                        == Ok::<Seq<u8>, Error>(props@[t].name@) && props@[t].dtb == self.dtb
                        && props@[t].reg == self.reg && props@[t].wf(),
                forall|t: int|
                    0 <= t < i ==> prop_name(self.dtb, s[t]) != Ok::<Seq<u8>, Error>(name@),
            decreases props.len() - i,
        {
            if bytes_eq(props[i].name, name) {
                assert(s[i as int] == props@[i as int].prop.0);
                return Ok(Some(props[i]));
            }
            i = i + 1;
        }
        Ok(None)
    }

    /// The register configuration this node sets for its children: its
    /// `#address-cells` and `#size-cells` where they hold one cell each,
    /// else the defaults (two and one).
    #[verifier::rlimit(60)]
    pub fn child_config(&self) -> (r: Result<RegConfig, Error>)
        requires
            self.wf(),
        ensures
            r matches Ok(c) ==> self.prop_list() is Some && c == cells_config(
                self.dtb,
                self.prop_list()->Some_0,
            ),
            self.names_ok() ==> r is Ok,
            r is Ok ==> self.names_ok(),
    {
        let props = match self.props() {
            Ok(v) => v,
            Err(e) => {
                return Err(e);
            },
        };
        let ghost b = body_start(self.dtb, self.cursor.0 as int)->Some_0;
        let ghost s = body_items(self.dtb, b, true)->Ok_0;
        let mut c = RegConfig::default_config();
        let mut i: usize = 0;
        while i < props.len()
            invariant
                self.wf(),
                i <= props@.len(),
                self.prop_list() == Some(s),
                body_start(self.dtb, self.cursor.0 as int) == Some(b),
                body_items(self.dtb, b, true) == Ok::<Seq<int>, Error>(s),
                props@.len() == s.len(),
                forall|t: int|
                    0 <= t < s.len() ==> props@[t].prop.0 == s[t] && prop_name(self.dtb, s[t])
                        == Ok::<Seq<u8>, Error>(props@[t].name@) && props@[t].dtb == self.dtb
                        && s[t] < self.dtb.n() && self.dtb.w(s[t]) == FDT_PROP,
                c == cells_config(self.dtb, s.take(i as int)),
            decreases props.len() - i,
        {
            let p = props[i];
            let is_addr = bytes_eq(p.name, "#address-cells".as_bytes());
            let is_size = bytes_eq(p.name, "#size-cells".as_bytes());
            if is_addr || is_size {
                if let Ok(v) = p.prop.map_u32_on(&self.dtb) {
                    if is_addr {
                        c = RegConfig { address_cells: v as usize, size_cells: c.size_cells };
                    } else {
                        c = RegConfig { address_cells: c.address_cells, size_cells: v as usize };
                    }
                }
            }
            proof {
                assert(s.take(i + 1).drop_last() =~= s.take(i as int));
            }
            i = i + 1;
        }
        proof {
            assert(s.take(s.len() as int) =~= s);
        }
        Ok(c)
    }
}

/// The configuration set by the properties at word indices `ps`, applied in
/// order over the defaults.
pub open spec fn cells_config(d: Dtb, ps: Seq<int>) -> RegConfig
    decreases ps.len(),
{
    if ps.len() == 0 {
        RegConfig::default_config_spec()
    } else {
        let c = cells_config(d, ps.drop_last());
        let p = ps.last();
        let one = move_next_spec(d, p) is Ok && d.w(p + 1) == 4;
        if one && prop_name(d, p) == Ok::<Seq<u8>, Error>("#address-cells".spec_bytes()) {
            RegConfig { address_cells: d.w(p + 3) as usize, size_cells: c.size_cells }
        } else if one && prop_name(d, p) == Ok::<Seq<u8>, Error>("#size-cells".spec_bytes()) {
            RegConfig { address_cells: c.address_cells, size_cells: d.w(p + 3) as usize }
        } else {
            c
        }
    }
}

impl<'a> PropItem<'a> {
    pub fn get_name(&self) -> (r: &'a [u8])
        ensures
            r@ == self.name@,
    {
        self.name
    }

    /// The raw value bytes.
    pub fn data(&self) -> (r: Result<&'a [u8], Error>)
        requires
            self.wf(),
        ensures
            match move_next_spec(self.dtb, self.prop.0 as int) {
                Ok(_) => r is Ok && r->Ok_0@ == prop_data(self.dtb, self.prop.0 as int),
                Err(e) => r == Err::<&[u8], Error>(e),
            },
    {
        self.prop.data_on(&self.dtb)
    }

    /// The value as one big-endian `u32`.
    pub fn as_u32(&self) -> (r: Result<u32, Error>)
        requires
            self.wf(),
        ensures
            match move_next_spec(self.dtb, self.prop.0 as int) {
                Ok(_) => if self.dtb.w(self.prop.0 + 1) == 4 {
                    r == Ok::<u32, Error>(self.dtb.w(self.prop.0 + 3))
                } else {
                    r == Err::<u32, Error>(
                        Error::typed(
                            ErrorType::InvalidSerdeTypeLength { expected_length: 4 },
                            self.dtb.fidx(self.prop.0 as int),
                        ),
                    )
                },
                Err(e) => r == Err::<u32, Error>(e),
            },
    {
        self.prop.map_u32_on(&self.dtb)
    }

    /// The value as a flag: an empty value is `true`; any other is an error.
    pub fn as_bool(&self) -> (r: Result<bool, Error>)
        requires
            self.wf(),
        ensures
            match move_next_spec(self.dtb, self.prop.0 as int) {
                Ok(_) => if self.dtb.w(self.prop.0 + 1) == 0 {
                    r == Ok::<bool, Error>(true)
                } else {
                    r == Err::<bool, Error>(
                        Error::typed(
                            ErrorType::InvalidSerdeTypeLength { expected_length: 0 },
                            self.dtb.fidx(self.prop.0 as int),
                        ),
                    )
                },
                Err(e) => r == Err::<bool, Error>(e),
            },
    {
        match self.prop.data_on(&self.dtb) {
            Err(e) => Err(e),
            Ok(data) => if data.len() == 0 {
                Ok(true)
            } else {
                Err(Error::invalid_serde_type_length(0, self.prop.0 * 4 + self.dtb.off_struct))
            },
        }
    }

    /// The value as a list of strings.
    pub fn as_str_seq(&self) -> (r: Result<StrSeq<'a>, Error>)
        requires
            self.wf(),
        ensures
            match move_next_spec(self.dtb, self.prop.0 as int) {
                Ok(_) => r is Ok && r->Ok_0.data@ == prop_data(self.dtb, self.prop.0 as int),
                Err(e) => r == Err::<StrSeq, Error>(e),
            },
    {
        match self.prop.data_on(&self.dtb) {
            Err(e) => Err(e),
            Ok(data) => Ok(StrSeq::new(data)),
        }
    }

    /// The value as a register list, read with the configuration the
    /// property's node was given by its parent.
    pub fn as_reg(&self) -> (r: Result<Reg<'a>, Error>)
        requires
            self.wf(),
        ensures
            match move_next_spec(self.dtb, self.prop.0 as int) {
                Ok(_) => r is Ok && r->Ok_0.data@ == prop_data(self.dtb, self.prop.0 as int)
                    && r->Ok_0.reg == self.reg,
                Err(e) => r == Err::<Reg, Error>(e),
            },
    {
        match self.prop.data_on(&self.dtb) {
            Err(e) => Err(e),
            Ok(data) => Ok(Reg::new(data, self.reg)),
        }
    }
}

impl<'a> NodeItem<'a> {
    pub fn get_full_name(&self) -> (r: &'a [u8])
        ensures
            r@ == self.name@,
    {
        self.name
    }

    /// The name split at its first `@`: the base, and the unit address if any.
    pub fn get_parsed_name(&self) -> (r: (&'a [u8], Option<&'a [u8]>))
        ensures
            r.0@ == base_of(self.name@),
            find_at(self.name@, 0) < self.name@.len() <==> r.1 is Some,
            r.1 matches Some(u) ==> u@ == unit_of(self.name@),
    {
        let (base, unit, has_at) = split_name(self.name);
        if has_at {
            (base, Some(unit))
        } else {
            (base, None)
        }
    }

    /// The child as a node of its own.
    pub fn to_node(&self) -> (r: Node<'a>)
        requires
            self.wf(),
        ensures
            r.wf(),
            r.dtb == self.dtb,
            r.cursor.0 == self.node.start_cursor.0,
            r.reg == self.reg,
    {
        Node { dtb: self.dtb, reg: self.reg, cursor: AnyCursor(self.node.start_cursor.0, Title {}) }
    }
}

/// Every item of a body stands at or after the word the body starts at.
pub proof fn lemma_items_from(d: Dtb, k: int, props: bool)
    requires
        d.wf(),
    ensures
        body_items(d, k, props) matches Ok(s) ==> forall|t: int| 0 <= t < s.len() ==> s[t] >= k,
    decreases d.n() - k,
{
    crate::cursor::lemma_skip_nop_range(d, k);
    match move_on_spec(d, k) {
        Err(_) => {},
        Ok((j, t)) => {
            if t != FDT_END_NODE {
                match entry_end(d, j, t) {
                    Err(_) => {},
                    Ok(e) => {
                        if k < e <= d.n() {
                            lemma_items_from(d, e, props);
                        }
                    },
                }
            }
        },
    }
}

/// A structure block holding only the root's `BEGIN_NODE`, its empty name,
/// `END_NODE` and `END` gives a root with no properties and no children.
pub proof fn lemma_empty_root(d: Dtb)
    requires
        d.wf(),
        d.n() == 4,
        d.w(2) == FDT_END_NODE,
        d.w(3) == crate::common::FDT_END,
    ensures
        body_start(d, 0) == Some(2int),
        body_items(d, 2, true) == Ok::<Seq<int>, Error>(Seq::empty()),
        body_items(d, 2, false) == Ok::<Seq<int>, Error>(Seq::empty()),
{
    let s = d.structure@;
    assert(d.w(1) == 0);
    assert(s[4] == 0);
    assert(skip_str(d, 1) == Some(2int));
    assert(skip_nop(d, 2) == Some(2int));
    assert(move_on_spec(d, 2) == Ok::<(int, u32), Error>((2, FDT_END_NODE)));
}

/// The entries that a body lists can be stepped over: a property's header
/// and value fit, a child's name ends and its subtree closes.
pub proof fn lemma_items_parse(d: Dtb, k: int, props: bool)
    requires
        d.wf(),
    ensures
        body_items(d, k, props) matches Ok(s) ==> forall|t: int|
            0 <= t < s.len() ==> if props {
                move_next_spec(d, s[t]) is Ok
            } else {
                skip_str(d, s[t] + 1) is Some && escape_spec(d, skip_str(d, s[t] + 1)->Some_0, 1)
                    is Ok
            },
    decreases d.n() - k,
{
    crate::cursor::lemma_skip_nop_range(d, k);
    match move_on_spec(d, k) {
        Err(_) => {},
        Ok((j, t)) => {
            if t != FDT_END_NODE {
                match entry_end(d, j, t) {
                    Err(_) => {},
                    Ok(e) => {
                        if k < e <= d.n() {
                            lemma_items_parse(d, e, props);
                        }
                    },
                }
            }
        },
    }
}

/// Whether two readers see the same bytes at the same place in the blob.
pub open spec fn same_view(a: Dtb, b: Dtb) -> bool {
    &&& a.structure@ == b.structure@
    &&& a.strings@ == b.strings@
    &&& a.off_struct == b.off_struct
}

proof fn lemma_same_skip_str(a: Dtb, b: Dtb, k: int)
    requires
        same_view(a, b),
    ensures
        skip_str(a, k) == skip_str(b, k),
{
}

proof fn lemma_same_skip_nop(a: Dtb, b: Dtb, k: int)
    requires
        same_view(a, b),
    ensures
        skip_nop(a, k) == skip_nop(b, k),
    decreases a.n() - k,
{
    if 0 <= k < a.n() && a.w(k) == crate::common::FDT_NOP {
        lemma_same_skip_nop(a, b, k + 1);
    }
}

pub proof fn lemma_same_escape(a: Dtb, b: Dtb, k: int, level: int)
    requires
        same_view(a, b),
    ensures
        move_next_spec(a, k) == move_next_spec(b, k),
        escape_spec(a, k, level) == escape_spec(b, k, level),
    decreases a.n() - k,
{
    lemma_same_skip_str(a, b, k + 1);
    match move_next_spec(a, k) {
        Err(_) => {},
        Ok((j, m)) => {
            if k < j <= a.n() {
                match m {
                    crate::cursor::MoveResult::In => lemma_same_escape(a, b, j, level + 1),
                    crate::cursor::MoveResult::Out => if level > 1 {
                        lemma_same_escape(a, b, j, level - 1)
                    },
                    crate::cursor::MoveResult::Others => lemma_same_escape(a, b, j, level),
                }
            }
        },
    }
}

proof fn lemma_same_items(a: Dtb, b: Dtb, k: int, props: bool)
    requires
        same_view(a, b),
    ensures
        body_items(a, k, props) == body_items(b, k, props),
    decreases a.n() - k,
{
    lemma_same_skip_nop(a, b, k);
    match move_on_spec(a, k) {
        Err(_) => {},
        Ok((j, t)) => {
            lemma_same_escape(a, b, j, 1);
            lemma_same_skip_str(a, b, j + 1);
            if let Some(x) = skip_str(a, j + 1) {
                lemma_same_escape(a, b, x, 1);
            }
            if t != FDT_END_NODE {
                match entry_end(a, j, t) {
                    Err(_) => {},
                    Ok(e) => {
                        if k < e <= a.n() {
                            lemma_same_items(a, b, e, props);
                        }
                    },
                }
            }
        },
    }
}

/// Reading the same blob twice gives the same views: the blocks, every
/// node's property and child lists, every name and every value are equal.
/// The reader only borrows the blob, so its bytes stay as they were.
pub proof fn lemma_decode_deterministic(blob: Seq<u8>, a: Dtb, b: Dtb)
    requires
        Dtb::spec_from(blob, a.structure@, a.strings@, a.off_struct),
        Dtb::spec_from(blob, b.structure@, b.strings@, b.off_struct),
    ensures
        same_view(a, b),
        forall|k: int, props: bool| #[trigger] body_items(a, k, props) == body_items(b, k, props),
        forall|k: int| #[trigger] title_name(a, k) == title_name(b, k),
        forall|k: int| #[trigger] prop_name(a, k) == prop_name(b, k),
        forall|k: int| #[trigger] prop_data(a, k) == prop_data(b, k),
        forall|k: int| #[trigger] body_start(a, k) == body_start(b, k),
        forall|k: int, l: int| #[trigger] escape_spec(a, k, l) == escape_spec(b, k, l),
{
    assert forall|k: int, l: int| #[trigger] escape_spec(a, k, l) == escape_spec(b, k, l) by {
        lemma_same_escape(a, b, k, l);
    }
    assert forall|k: int, props: bool| #[trigger] body_items(a, k, props) == body_items(b, k, props) by {
        lemma_same_items(a, b, k, props);
    }
    assert forall|k: int| #[trigger] title_name(a, k) == title_name(b, k) by {
        lemma_same_skip_str(a, b, k + 1);
    }
    assert forall|k: int| #[trigger] body_start(a, k) == body_start(b, k) by {
        lemma_same_skip_str(a, b, k + 1);
    }
}

/// The next listed entry of a body from word `k`: the word of the next
/// property (`props`) or child (`!props`), and the word after that entry.
#[verifier::rlimit(100)]
pub fn next_item(d: &Dtb, k: usize, props: bool) -> (r: Result<Option<(usize, usize)>, Error>)
    requires
        d.wf(),
        k <= d.n(),
    ensures
        match next_item_spec(*d, k as int, props) {
            Err(e) => r == Err::<Option<(usize, usize)>, Error>(e),
            Ok(None) => r matches Ok(None),
            Ok(Some((j, e))) => r matches Ok(Some((j2, e2))) && j2 == j && e2 == e && k < e <= d.n(),
        },
        body_items(*d, k as int, props) matches Ok(s) ==> r is Ok && (s.len() == 0 <==> r->Ok_0 is None)
            && (r->Ok_0 matches Some((j, e)) ==> j == s[0] && body_items(*d, e as int, props)
            == Ok::<Seq<int>, Error>(s.drop_first())),
{
    let n = d.structure.len() / 4;
    let mut c = AnyCursor(k, Body {});
    loop
        invariant
            d.wf(),
            n == d.n(),
            k <= c.0 <= n,
            body_items(*d, c.0 as int, props) == body_items(*d, k as int, props),
            next_item_spec(*d, c.0 as int, props) == next_item_spec(*d, k as int, props),
        decreases n - c.0,
    {
        let ghost c0 = c.0 as int;
        proof {
            crate::cursor::lemma_skip_nop_range(*d, c0);
        }
        let cur = match c.move_on(d) {
            Err(e) => {
                return Err(e);
            },
            Ok(x) => x,
        };
        let j = c.0;
        match cur {
            Cursor::End => {
                return Ok(None);
            },
            Cursor::Prop(_) => {
                proof {
                    crate::cursor::lemma_move_next_advances(*d, j as int);
                }
                if let Err(e) = c.move_next(d) {
                    return Err(e);
                }
                proof {
                    assert(entry_end(*d, j as int, FDT_PROP) == Ok::<int, Error>(c.0 as int));
                }
                if props {
                    proof {
                        if let Ok(rest) = body_items(*d, c.0 as int, props) {
                            assert((seq![j as int] + rest).drop_first() =~= rest);
                        }
                    }
                    return Ok(Some((j, c.0)));
                }
            },
            Cursor::Title(t) => {
                proof {
                    crate::cursor::lemma_skip_str_range(*d, j + 1);
                    if let Some(b) = skip_str(*d, j + 1) {
                        lemma_escape_range(*d, b, 1);
                    }
                }
                let g = match t.take_node_on(d) {
                    Err(e) => {
                        assert(entry_end(*d, j as int, FDT_BEGIN_NODE) == Err::<int, Error>(e));
                        return Err(e);
                    },
                    Ok(g) => g,
                };
                c = g.skip_cursor;
                if !props {
                    proof {
                        if let Ok(rest) = body_items(*d, c.0 as int, props) {
                            assert((seq![j as int] + rest).drop_first() =~= rest);
                        }
                    }
                    return Ok(Some((j, c.0)));
                }
            },
        }
    }
}

/// The next listed entry of a body from word `k` and the word after it,
/// stepping over entries of the other kind.
pub open spec fn next_item_spec(d: Dtb, k: int, props: bool) -> Result<Option<(int, int)>, Error>
    decreases d.n() - k,
{
    match move_on_spec(d, k) {
        Err(e) => Err(e),
        Ok((j, t)) => if t == FDT_END_NODE {
            Ok(None)
        } else {
            match entry_end(d, j, t) {
                Err(e) => Err(e),
                Ok(e) => if e <= k || e > d.n() {
                    Err(Error::typed(ErrorType::NoRemainingTags, d.fidx(k)))
                } else if (t == FDT_PROP) == props {
                    Ok(Some((j, e)))
                } else {
                    next_item_spec(d, e, props)
                },
            }
        },
    }
}

/// Walks the properties of a node without collecting them.
#[derive(Clone, Copy, Debug)]
pub struct PropIter<'a> {
    pub dtb: Dtb<'a>,
    pub reg: RegConfig,
    pub cursor: BodyCursor,
}

/// Walks the children of a node without collecting them.
#[derive(Clone, Copy, Debug)]
pub struct NodeIter<'a> {
    pub dtb: Dtb<'a>,
    pub reg: RegConfig,
    pub cursor: BodyCursor,
}

impl<'a> Node<'a> {
    /// A lazy walk over the node's properties, in file order.
    pub fn prop_iter(&self) -> (r: Result<PropIter<'a>, Error>)
        requires
            self.wf(),
        ensures
            r matches Ok(it) ==> it.dtb == self.dtb && it.reg == self.reg && body_start(
                self.dtb,
                self.cursor.0 as int,
            ) == Some(it.cursor.0 as int),
            body_start(self.dtb, self.cursor.0 as int) is Some ==> r is Ok,
    {
        proof {
            crate::cursor::lemma_skip_str_range(self.dtb, self.cursor.0 + 1);
        }
        let mut c = AnyCursor(self.cursor.0 + 1, Body {});
        match c.skip_str_on(&self.dtb) {
            Ok(()) => Ok(PropIter { dtb: self.dtb, reg: self.reg, cursor: c }),
            Err(e) => Err(e),
        }
    }

    /// A lazy walk over the node's children, in file order; they are read
    /// with the configuration `reg` (see `child_config`).
    pub fn node_iter(&self, reg: RegConfig) -> (r: Result<NodeIter<'a>, Error>)
        requires
            self.wf(),
        ensures
            r matches Ok(it) ==> it.dtb == self.dtb && it.reg == reg && body_start(
                self.dtb,
                self.cursor.0 as int,
            ) == Some(it.cursor.0 as int),
            body_start(self.dtb, self.cursor.0 as int) is Some ==> r is Ok,
    {
        proof {
            crate::cursor::lemma_skip_str_range(self.dtb, self.cursor.0 + 1);
        }
        let mut c = AnyCursor(self.cursor.0 + 1, Body {});
        match c.skip_str_on(&self.dtb) {
            Ok(()) => Ok(NodeIter { dtb: self.dtb, reg, cursor: c }),
            Err(e) => Err(e),
        }
    }
}

impl<'a> PropIter<'a> {
    pub open spec fn wf(self) -> bool {
        self.dtb.wf() && self.cursor.0 <= self.dtb.n()
    }

    /// The next property; `None` at the node's end.
    pub fn next(&mut self) -> (r: Result<Option<PropItem<'a>>, Error>)
        requires
            old(self).wf(),
        ensures
            final(self).wf(),
            final(self).dtb == old(self).dtb,
            match next_item_spec(old(self).dtb, old(self).cursor.0 as int, true) {
                Err(e) => r == Err::<Option<PropItem>, Error>(e),
                Ok(None) => r matches Ok(None),
                Ok(Some((j, e))) => match prop_name(old(self).dtb, j) {
                    Err(x) => r == Err::<Option<PropItem>, Error>(x),
                    Ok(name) => r is Ok && r->Ok_0 is Some && r->Ok_0->Some_0.prop.0 == j
                        && r->Ok_0->Some_0.name@ == name && r->Ok_0->Some_0.wf()
                        && final(self).cursor.0 == e,
                },
            },
            body_items(old(self).dtb, old(self).cursor.0 as int, true) matches Ok(s) ==> (s.len() == 0
                <==> r matches Ok(None)) && (r matches Ok(Some(p)) ==> p.prop.0 == s[0] && body_items(
                final(self).dtb,
                final(self).cursor.0 as int,
                true,
            ) == Ok::<Seq<int>, Error>(s.drop_first())),
    {
        let k = self.cursor.0;
        match next_item(&self.dtb, k, true) {
            Err(e) => Err(e),
            Ok(None) => Ok(None),
            Ok(Some((j, e))) => {
                let p = AnyCursor(j, Prop {});
                proof {
                    lemma_next_item(self.dtb, k as int, true);
                }
                match p.name_on(&self.dtb) {
                    Ok((name, _)) => {
                        self.cursor = AnyCursor(e, Body {});
                        Ok(Some(PropItem { dtb: self.dtb, reg: self.reg, prop: p, name }))
                    },
                    Err(x) => Err(x),
                }
            },
        }
    }
}

impl<'a> NodeIter<'a> {
    pub open spec fn wf(self) -> bool {
        self.dtb.wf() && self.cursor.0 <= self.dtb.n()
    }

    /// The next child; `None` at the node's end.
    pub fn next(&mut self) -> (r: Result<Option<NodeItem<'a>>, Error>)
        requires
            old(self).wf(),
        ensures
            final(self).wf(),
            final(self).dtb == old(self).dtb,
            match next_item_spec(old(self).dtb, old(self).cursor.0 as int, false) {
                Err(e) => r == Err::<Option<NodeItem>, Error>(e),
                Ok(None) => r matches Ok(None),
                Ok(Some((j, e))) => r is Ok && r->Ok_0 is Some && r->Ok_0->Some_0.node.start_cursor.0
                    == j && title_name(old(self).dtb, j) is Some && r->Ok_0->Some_0.name@ == title_name(
                    old(self).dtb,
                    j,
                )->Some_0.0 && r->Ok_0->Some_0.wf() && final(self).cursor.0 == e,
            },
            body_items(old(self).dtb, old(self).cursor.0 as int, false) matches Ok(s) ==> (s.len() == 0
                <==> r matches Ok(None)) && (r matches Ok(Some(x)) ==> x.node.start_cursor.0 == s[0]
                && body_items(final(self).dtb, final(self).cursor.0 as int, false) == Ok::<
                Seq<int>,
                Error,
            >(s.drop_first())),
    {
        let k = self.cursor.0;
        match next_item(&self.dtb, k, false) {
            Err(e) => Err(e),
            Ok(None) => Ok(None),
            Ok(Some((j, e))) => {
                let t = AnyCursor(j, Title {});
                proof {
                    lemma_next_item(self.dtb, k as int, false);
                }
                let name = match t.split_on(&self.dtb) {
                    Ok((name, _)) => name,
                    Err(x) => {
                        return Err(x);
                    },
                };
                match t.take_node_on(&self.dtb) {
                    Ok(g) => {
                        self.cursor = AnyCursor(e, Body {});
                        Ok(Some(NodeItem { dtb: self.dtb, reg: self.reg, node: g, name }))
                    },
                    Err(x) => Err(x),
                }
            },
        }
    }
}

/// The entry `next_item_spec` finds is a token of the kind listed, and it
/// can be stepped over.
pub proof fn lemma_next_item(d: Dtb, k: int, props: bool)
    requires
        d.wf(),
    ensures
        next_item_spec(d, k, props) matches Ok(Some((j, e))) ==> 0 <= j < d.n() && d.w(j) == (if props {
            FDT_PROP
        } else {
            FDT_BEGIN_NODE
        }) && (props ==> move_next_spec(d, j) == Ok::<(int, crate::cursor::MoveResult), Error>(
            (e, crate::cursor::MoveResult::Others),
        )) && (!props ==> skip_str(d, j + 1) is Some && escape_spec(d, skip_str(d, j + 1)->Some_0, 1)
            == Ok::<int, Error>(e)),
    decreases d.n() - k,
{
    crate::cursor::lemma_skip_nop_range(d, k);
    match move_on_spec(d, k) {
        Err(_) => {},
        Ok((j, t)) => {
            if t != FDT_END_NODE {
                match entry_end(d, j, t) {
                    Err(_) => {},
                    Ok(e) => {
                        if k < e <= d.n() && (t == FDT_PROP) != props {
                            lemma_next_item(d, e, props);
                        }
                    },
                }
            }
        },
    }
}

} // verus!
