use vstd::prelude::*;
use vstd::string::StringSliceAdditionalSpecFns;
use crate::common::{bytes_to_vec, subslice};
use crate::patch::{Field, Value};
use crate::cursor::{prop_data, prop_name, title_name};
use crate::dtb::Dtb;
use crate::error::Error;
use crate::node::{body_items, body_start, bytes_eq, props_read, Node};
use crate::patch::{component, component_at, count_slash, slash_count};
use crate::str_seq::{first_str_end, split_first_str};

verus! {

/// The word indices of the children of the node titled at word `k`.
pub open spec fn children(d: Dtb, k: int) -> Option<Seq<int>> {
    match body_start(d, k) {
        Some(b) => match body_items(d, b, false) {
            Ok(s) => Some(s),
            Err(_) => None,
        },
        None => None,
    }
}

/// The first node of `cs` whose full name is `name`.
pub open spec fn first_named(d: Dtb, cs: Seq<int>, name: Seq<u8>) -> Option<int>
    decreases cs.len(),
{
    if cs.len() == 0 {
        None
    } else if title_name(d, cs[0]) is Some && title_name(d, cs[0])->Some_0.0 == name {
        Some(cs[0])
    } else {
        first_named(d, cs.drop_first(), name)
    }
}

/// The node reached from the node titled at word `k` by following the
/// components `x` to `count` of `path`.
pub open spec fn walk(d: Dtb, k: int, path: Seq<u8>, x: int, count: int) -> Option<int>
    decreases count + 1 - x,
{
    if x > count {
        Some(k)
    } else {
        match children(d, k) {
            None => None,
            Some(cs) => match first_named(d, cs, component(path, x)) {
                None => None,
                Some(c) => walk(d, c, path, x + 1, count),
            },
        }
    }
}

/// The node at a full path `/a/b/...` from the node titled at word `k`.
pub open spec fn find_full(d: Dtb, k: int, path: Seq<u8>) -> Option<int> {
    if path == seq![0x2fu8] {
        Some(k)
    } else if path.len() == 0 || path[0] != 0x2f {
        None
    } else {
        walk(d, k, path, 1, slash_count(path, 0))
    }
}

/// The titles of the subtree of the node titled at word `k`, depth first,
/// `k` first.
pub open spec fn subtree(d: Dtb, k: int) -> Option<Seq<int>>
    decreases d.n() - k, 1int, 0int,
{
    if !props_read(d, k) {
        None
    } else {
        match children(d, k) {
        None => None,
        Some(cs) => match subtrees(d, k, cs, 0) {
            None => None,
            Some(rest) => Some(seq![k] + rest),
        },
        }
    }
}

/// The subtrees of children `i..` of `cs`, the children of the node at `k`, in order.
pub open spec fn subtrees(d: Dtb, k: int, cs: Seq<int>, i: int) -> Option<Seq<int>>
    decreases d.n() - k, 0int, cs.len() - i,
{
    if i < 0 || i >= cs.len() {
        Some(seq![])
    } else if cs[i] <= k || cs[i] >= d.n() {
        None
    } else {
        match subtree(d, cs[i]) {
            None => None,
            Some(a) => match subtrees(d, k, cs, i + 1) {
                None => None,
                Some(b) => Some(a + b),
            },
        }
    }
}

/// Whether the node titled at word `k` can be listed: its property names
/// resolve and its children can be stepped over.
pub open spec fn node_reads(d: Dtb, k: int) -> bool {
    props_read(d, k) && children(d, k) is Some
}

/// Whether following components `x..count` of `path` from the node at `k`
/// meets only nodes that can be listed.
pub open spec fn walk_reads(d: Dtb, k: int, path: Seq<u8>, x: int, count: int) -> bool
    decreases count + 1 - x,
{
    if x > count {
        true
    } else {
        node_reads(d, k) && match first_named(d, children(d, k)->Some_0, component(path, x)) {
            None => true,
            Some(c) => walk_reads(d, c, path, x + 1, count),
        }
    }
}

/// Whether looking up a full path from the node at `k` meets only nodes
/// that can be listed.
pub open spec fn full_reads(d: Dtb, k: int, path: Seq<u8>) -> bool {
    if path == seq![0x2fu8] || path.len() == 0 || path[0] != 0x2f {
        true
    } else {
        walk_reads(d, k, path, 1, slash_count(path, 0))
    }
}

/// Whether resolving alias `name` from the node at `k` meets only nodes
/// that can be listed.
pub open spec fn alias_reads(d: Dtb, k: int, name: Seq<u8>) -> bool {
    &&& full_reads(d, k, "/aliases".spec_bytes())
    &&& match find_full(d, k, "/aliases".spec_bytes()) {
        None => true,
        Some(a) => props_read(d, a) && match prop_string(d, a, name) {
            None => true,
            Some(full) => full_reads(d, k, full),
        },
    }
}

/// Whether reading property `name` of `/chosen` meets only nodes that can
/// be listed.
pub open spec fn chosen_reads(d: Dtb, k: int) -> bool {
    &&& full_reads(d, k, "/chosen".spec_bytes())
    &&& match find_full(d, k, "/chosen".spec_bytes()) {
        None => true,
        Some(c) => props_read(d, c),
    }
}

/// The first of the properties at word indices `ps` named `name`.
pub open spec fn first_prop_named(d: Dtb, ps: Seq<int>, name: Seq<u8>) -> Option<int>
    decreases ps.len(),
{
    if ps.len() == 0 {
        None
    } else if prop_name(d, ps[0]) == Ok::<Seq<u8>, Error>(name) {
        Some(ps[0])
    } else {
        first_prop_named(d, ps.drop_first(), name)
    }
}

/// The first string held by the value of the property `name` of the node
/// titled at word `k`; none where the node has no such property or its
/// value is empty.
pub open spec fn prop_string(d: Dtb, k: int, name: Seq<u8>) -> Option<Seq<u8>> {
    match body_start(d, k) {
        None => None,
        Some(b) => match body_items(d, b, true) {
            Err(_) => None,
            Ok(ps) => match first_prop_named(d, ps, name) {
                None => None,
                Some(p) => {
                    let v = prop_data(d, p);
                    if v.len() == 0 {
                        None
                    } else {
                        Some(v.subrange(0, first_str_end(v)))
                    }
                },
            },
        },
    }
}

/// The node an alias names: the full path held by property `name` of
/// `/aliases`, followed from the node titled at word `k`.
pub open spec fn alias_find(d: Dtb, k: int, name: Seq<u8>) -> Option<int> {
    match find_full(d, k, "/aliases".spec_bytes()) {
        None => None,
        Some(a) => match prop_string(d, a, name) {
            None => None,
            Some(full) => find_full(d, k, full),
        },
    }
}

/// Index of the first `:` of `s` at or after `i`, or the length of `s`.
pub open spec fn find_colon(s: Seq<u8>, i: int) -> int
    decreases s.len() - i,
{
    if i < 0 || i >= s.len() {
        s.len() as int
    } else if s[i] == 0x3a {
        i
    } else {
        find_colon(s, i + 1)
    }
}

/// Property `name` of `/chosen`, read as its first string, up to its first `:`.
pub open spec fn chosen_value(d: Dtb, k: int, name: Seq<u8>) -> Option<Seq<u8>> {
    match find_full(d, k, "/chosen".spec_bytes()) {
        None => None,
        Some(c) => match prop_string(d, c, name) {
            None => None,
            Some(s) => Some(s.subrange(0, find_colon(s, 0))),
        },
    }
}

proof fn lemma_first_prop(d: Dtb, ps: Seq<int>, i: int, name: Seq<u8>)
    requires
        0 <= i < ps.len(),
        prop_name(d, ps[i]) == Ok::<Seq<u8>, Error>(name),
        forall|t: int| 0 <= t < i ==> prop_name(d, ps[t]) != Ok::<Seq<u8>, Error>(name),
    ensures
        first_prop_named(d, ps, name) == Some(ps[i]),
    decreases ps.len(),
{
    if i > 0 {
        let rest = ps.drop_first();
        assert forall|t: int| 0 <= t < i - 1 implies prop_name(d, rest[t]) != Ok::<Seq<u8>, Error>(name) by {
            assert(rest[t] == ps[t + 1]);
        }
        assert(rest[i - 1] == ps[i]);
        lemma_first_prop(d, rest, i - 1, name);
    }
}

proof fn lemma_no_prop(d: Dtb, ps: Seq<int>, name: Seq<u8>)
    requires
        forall|t: int| 0 <= t < ps.len() ==> prop_name(d, ps[t]) != Ok::<Seq<u8>, Error>(name),
    ensures
        first_prop_named(d, ps, name) is None,
    decreases ps.len(),
{
    if ps.len() > 0 {
        let rest = ps.drop_first();
        assert forall|t: int| 0 <= t < rest.len() implies prop_name(d, rest[t]) != Ok::<Seq<u8>, Error>(name) by {
            assert(rest[t] == ps[t + 1]);
        }
        lemma_no_prop(d, rest, name);
    }
}

impl<'a> Node<'a> {
    /// The first string of this node's property `name`.
    fn prop_first_string(&self, name: &[u8]) -> (r: Result<Option<&'a [u8]>, Error>)
        requires
            self.wf(),
        ensures
            r matches Ok(x) ==> match x {
                Some(s) => prop_string(self.dtb, self.cursor.0 as int, name@) == Some(s@),
                None => prop_string(self.dtb, self.cursor.0 as int, name@) is None,
            },
            props_read(self.dtb, self.cursor.0 as int) ==> r is Ok,
    {
        let prop = match self.get_prop(name) {
            Ok(Some(p)) => p,
            Ok(None) => {
                proof {
                    lemma_no_prop(self.dtb, self.prop_list()->Some_0, name@);
                }
                return Ok(None);
            },
            Err(e) => {
                return Err(e);
            },
        };
        proof {
            let ps = self.prop_list()->Some_0;
            let i = choose|i: int|
                0 <= i < ps.len() && ps[i] == prop.prop.0 && forall|t: int|
                    0 <= t < i ==> prop_name(self.dtb, ps[t]) != Ok::<Seq<u8>, Error>(name@);
            lemma_first_prop(self.dtb, ps, i, name@);
            crate::node::lemma_items_parse(self.dtb, body_start(self.dtb, self.cursor.0 as int)->Some_0, true);
            assert(crate::cursor::move_next_spec(self.dtb, ps[i]) is Ok);
        }
        let value = match prop.data() {
            Ok(v) => v,
            Err(e) => {
                return Err(e);
            },
        };
        match split_first_str(value) {
            Some((s, _)) => Ok(Some(s)),
            None => Ok(None),
        }
    }

    /// The child named `name`, if any.
    fn child_named(&self, name: &[u8]) -> (r: Result<Option<Node<'a>>, Error>)
        requires
            self.wf(),
        ensures
            r matches Ok(x) ==> children(self.dtb, self.cursor.0 as int) is Some && match x {
                Some(n) => first_named(
                    self.dtb,
                    children(self.dtb, self.cursor.0 as int)->Some_0,
                    name@,
                ) == Some(n.cursor.0 as int) && n.wf() && n.dtb == self.dtb,
                None => first_named(
                    self.dtb,
                    children(self.dtb, self.cursor.0 as int)->Some_0,
                    name@,
                ) is None,
            },
            node_reads(self.dtb, self.cursor.0 as int) ==> r is Ok,
    {
        let kids = match self.nodes() {
            Ok(v) => v,
            Err(e) => {
                return Err(e);
            },
        };
        let ghost cs = children(self.dtb, self.cursor.0 as int)->Some_0;
        proof {
            assert(cs.subrange(0, cs.len() as int) =~= cs);
        }
        let mut i: usize = 0;
        while i < kids.len()
            invariant
                self.wf(),
                children(self.dtb, self.cursor.0 as int) == Some(cs),
                kids@.len() == cs.len(),
                i <= kids@.len(),
                forall|t: int|
                    0 <= t < cs.len() ==> kids@[t].node.start_cursor.0 == cs[t] && title_name(
                        self.dtb,
                        cs[t],
                    ) is Some && title_name(self.dtb, cs[t])->Some_0.0 == kids@[t].name@
                        && kids@[t].dtb == self.dtb && kids@[t].wf(),
                first_named(self.dtb, cs, name@) == first_named(
                    self.dtb,
                    cs.subrange(i as int, cs.len() as int),
                    name@,
                ),
            decreases kids.len() - i,
        {
            let ghost rest = cs.subrange(i as int, cs.len() as int);
            proof {
                assert(rest[0] == cs[i as int]);
                assert(rest.drop_first() =~= cs.subrange(i + 1, cs.len() as int));
            }
            if bytes_eq(kids[i].name, name) {
                return Ok(Some(kids[i].to_node()));
            }
            i = i + 1;
        }
        proof {
            assert(cs.subrange(i as int, cs.len() as int).len() == 0);
        }
        Ok(None)
    }

    /// The node at a full path `/a/b/...`, starting from this node.
    #[verifier::rlimit(60)]
    pub fn raw_find(&self, path: &[u8]) -> (r: Result<Option<Node<'a>>, Error>)
        requires
            self.wf(),
        ensures
            r matches Ok(Some(n)) ==> find_full(self.dtb, self.cursor.0 as int, path@) == Some(
                n.cursor.0 as int,
            ) && n.wf() && n.dtb == self.dtb,
            r matches Ok(None) ==> find_full(self.dtb, self.cursor.0 as int, path@) is None,
            full_reads(self.dtb, self.cursor.0 as int, path@) ==> r is Ok,
    {
        if path.len() == 1 && path[0] == 0x2f {
            proof {
                assert(path@ =~= seq![0x2fu8]);
            }
            return Ok(Some(*self));
        }
        if path.len() == 0 || path[0] != 0x2f {
            return Ok(None);
        }
        proof {
            assert(path@ != seq![0x2fu8]);
        }
        let count = count_slash(path);
        let mut cur = *self;
        let mut x: usize = 0;
        while x < count
            invariant
                self.wf(),
                cur.wf(),
                cur.dtb == self.dtb,
                x <= count,
                path@ != seq![0x2fu8],
                path@.len() > 0 && path@[0] == 0x2f,
                count == slash_count(path@, 0),
                count <= path@.len(),
                walk(self.dtb, cur.cursor.0 as int, path@, x + 1, count as int) == walk(
                    self.dtb,
                    self.cursor.0 as int,
                    path@,
                    1,
                    count as int,
                ),
                walk_reads(self.dtb, self.cursor.0 as int, path@, 1, count as int) ==> walk_reads(
                    self.dtb,
                    cur.cursor.0 as int,
                    path@,
                    x + 1,
                    count as int,
                ),
            decreases count - x,
        {
            let comp = component_at(path, x + 1);
            match cur.child_named(comp) {
                Err(e) => {
                    assert(!walk_reads(self.dtb, cur.cursor.0 as int, path@, x + 1, count as int));
                    return Err(e);
                },
                Ok(None) => {
                    assert(walk(self.dtb, cur.cursor.0 as int, path@, x + 1, count as int) is None);
                    return Ok(None);
                },
                Ok(Some(n)) => {
                    cur = n;
                },
            }
            x = x + 1;
        }
        Ok(Some(cur))
    }

    /// The node at `path`: a full path `/a/b/...`, or an alias named in
    /// `/aliases` whose value is a full path.
    pub fn find(&self, path: &[u8]) -> (r: Result<Option<Node<'a>>, Error>)
        requires
            self.wf(),
        ensures
            path@.len() > 0 && path@[0] == 0x2f ==> match r {
                Ok(Some(n)) => find_full(self.dtb, self.cursor.0 as int, path@) == Some(
                    n.cursor.0 as int,
                ),
                Ok(None) => find_full(self.dtb, self.cursor.0 as int, path@) is None,
                Err(_) => true,
            },
            !(path@.len() > 0 && path@[0] == 0x2f) ==> match r {
                Ok(Some(n)) => alias_find(self.dtb, self.cursor.0 as int, path@) == Some(
                    n.cursor.0 as int,
                ),
                Ok(None) => alias_find(self.dtb, self.cursor.0 as int, path@) is None,
                Err(_) => true,
            },
            r matches Ok(Some(n)) ==> n.wf() && n.dtb == self.dtb,
            path@.len() > 0 && path@[0] == 0x2f && full_reads(self.dtb, self.cursor.0 as int, path@)
                ==> r is Ok,
            !(path@.len() > 0 && path@[0] == 0x2f) && alias_reads(
                self.dtb,
                self.cursor.0 as int,
                path@,
            ) ==> r is Ok,
    {
        if path.len() > 0 && path[0] == 0x2f {
            return self.raw_find(path);
        }
        let aliases = match self.raw_find("/aliases".as_bytes()) {
            Ok(Some(a)) => a,
            Ok(None) => {
                return Ok(None);
            },
            Err(e) => {
                return Err(e);
            },
        };
        match aliases.prop_first_string(path) {
            Ok(Some(full)) => self.raw_find(full),
            Ok(None) => Ok(None),
            Err(e) => Err(e),
        }
    }

    /// The nodes of the subtree in depth-first order, this node first.
    #[verifier::rlimit(60)]
    pub fn search(&self) -> (r: Result<Vec<Node<'a>>, Error>)
        requires
            self.wf(),
        ensures
            r matches Ok(v) ==> v@.len() >= 1 && v@[0] == *self && forall|i: int|
                0 <= i < v@.len() ==> v@[i].wf() && v@[i].dtb == self.dtb,
            r matches Ok(v) ==> subtree(self.dtb, self.cursor.0 as int) == Some(
                v@.map_values(|n: Node| n.cursor.0 as int),
            ),
            subtree(self.dtb, self.cursor.0 as int) is Some ==> r is Ok,
        decreases self.dtb.n() - self.cursor.0,
    {
        let mut out: Vec<Node<'a>> = Vec::new();
        out.push(*self);
        let kids = match self.nodes() {
            Ok(v) => v,
            Err(e) => {
                proof {
                    if subtree(self.dtb, self.cursor.0 as int) is Some {
                        assert(children(self.dtb, self.cursor.0 as int) is Some);
                    }
                }
                return Err(e);
            },
        };
        let ghost k = self.cursor.0 as int;
        let ghost cs = children(self.dtb, k)->Some_0;
        let ghost mut acc: Seq<int> = seq![];
        proof {
            lemma_children_after(self.dtb, k);
            assert(out@.map_values(|n: Node| n.cursor.0 as int) =~= seq![k] + acc);
        }
        let mut i: usize = 0;
        while i < kids.len()
            invariant
                self.wf(),
                k == self.cursor.0,
                children(self.dtb, k) == Some(cs),
                kids@.len() == cs.len(),
                forall|t: int| 0 <= t < cs.len() ==> kids@[t].node.start_cursor.0 == cs[t],
                forall|t: int|
                    0 <= t < kids@.len() ==> (#[trigger] kids@[t]).wf() && kids@[t].dtb == self.dtb
                        && kids@[t].node.start_cursor.0 > self.cursor.0,
                i <= kids@.len(),
                out@.len() >= 1,
                out@[0] == *self,
                forall|t: int| 0 <= t < out@.len() ==> out@[t].wf() && out@[t].dtb == self.dtb,
                out@.map_values(|n: Node| n.cursor.0 as int) == seq![k] + acc,
                match subtrees(self.dtb, k, cs, i as int) {
                    Some(rest) => subtrees(self.dtb, k, cs, 0) == Some(acc + rest),
                    None => subtrees(self.dtb, k, cs, 0) is None,
                },
            decreases kids.len() - i,
        {
            let child = kids[i].to_node();
            let sub = match child.search() {
                Ok(v) => v,
                Err(e) => {
                    proof {
                        assert(cs[i as int] == child.cursor.0);
                        if subtree(self.dtb, k) is Some {
                            assert(subtrees(self.dtb, k, cs, 0) is Some);
                            assert(subtrees(self.dtb, k, cs, i as int) is Some);
                        }
                    }
                    return Err(e);
                },
            };
            let ghost a = sub@.map_values(|n: Node| n.cursor.0 as int);
            proof {
                assert(cs[i as int] == child.cursor.0);
                assert(subtree(self.dtb, cs[i as int]) == Some(a));
                match subtrees(self.dtb, k, cs, i + 1) {
                    Some(b) => {
                        assert(subtrees(self.dtb, k, cs, i as int) == Some(a + b));
                        assert(acc + (a + b) =~= (acc + a) + b);
                    },
                    None => {},
                }
            }
            let ghost before = out@;
            let mut j: usize = 0;
            while j < sub.len()
                invariant
                    self.wf(),
                    out@.len() >= 1,
                    out@[0] == *self,
                    forall|t: int| 0 <= t < out@.len() ==> out@[t].wf() && out@[t].dtb == self.dtb,
                    forall|t: int| 0 <= t < sub@.len() ==> sub@[t].wf() && sub@[t].dtb == self.dtb,
                    j <= sub@.len(),
                    out@ == before + sub@.subrange(0, j as int),
                    before.len() >= 1,
                    before[0] == *self,
                decreases sub.len() - j,
            {
                out.push(sub[j]);
                proof {
                    assert(before + sub@.subrange(0, j + 1) =~= (before + sub@.subrange(0, j as int)).push(
                        sub@[j as int],
                    ));
                }
                j = j + 1;
            }
            proof {
                assert(sub@.subrange(0, sub@.len() as int) =~= sub@);
                assert(out@.map_values(|n: Node| n.cursor.0 as int) =~= before.map_values(
                    |n: Node| n.cursor.0 as int,
                ) + a);
                acc = acc + a;
                assert(seq![k] + (acc) =~= (seq![k] + (acc.subrange(0, acc.len() - a.len()))) + a);
            }
            i = i + 1;
        }
        proof {
            assert(acc + seq![] =~= acc);
        }
        Ok(out)
    }

    /// The node as a value tree: its properties with their raw values, in
    /// file order, then its children, each as a value tree of its own. This
    /// is what writing a decoded node back goes through.
    #[verifier::rlimit(60)]
    pub fn to_value(&self) -> (r: Result<Value, Error>)
        requires
            self.wf(),
        ensures
            r matches Ok(v) ==> v is Node && ({
                let fs = v->Node_0@;
                let ps = self.prop_list()->Some_0;
                let cs = children(self.dtb, self.cursor.0 as int)->Some_0;
                &&& self.prop_list() is Some
                &&& children(self.dtb, self.cursor.0 as int) is Some
                &&& fs.len() == ps.len() + cs.len()
                &&& forall|i: int|
                    0 <= i < ps.len() ==> prop_name(self.dtb, ps[i]) == Ok::<Seq<u8>, Error>(
                        fs[i].name@,
                    ) && fs[i].value is Bytes && fs[i].value->Bytes_0@ == prop_data(self.dtb, ps[i])
                &&& forall|i: int|
                    0 <= i < cs.len() ==> title_name(self.dtb, cs[i]) is Some && title_name(
                        self.dtb,
                        cs[i],
                    )->Some_0.0 == fs[ps.len() + i].name@ && fs[ps.len() + i].value is Node
            }),
            subtree(self.dtb, self.cursor.0 as int) is Some ==> r is Ok,
        decreases self.dtb.n() - self.cursor.0,
    {
        let props = match self.props() {
            Ok(v) => v,
            Err(e) => {
                return Err(e);
            },
        };
        let kids = match self.nodes() {
            Ok(v) => v,
            Err(e) => {
                proof {
                    if subtree(self.dtb, self.cursor.0 as int) is Some {
                        assert(children(self.dtb, self.cursor.0 as int) is Some);
                    }
                }
                return Err(e);
            },
        };
        let ghost k = self.cursor.0 as int;
        let ghost ps = self.prop_list()->Some_0;
        let ghost cs = children(self.dtb, k)->Some_0;
        proof {
            lemma_children_after(self.dtb, k);
            crate::node::lemma_items_parse(self.dtb, body_start(self.dtb, k)->Some_0, true);
        }
        let mut fields: Vec<Field> = Vec::new();
        let mut i: usize = 0;
        while i < props.len()
            invariant
                self.wf(),
                k == self.cursor.0,
                self.prop_list() == Some(ps),
                props@.len() == ps.len(),
                forall|t: int|
                    0 <= t < ps.len() ==> props@[t].prop.0 == ps[t] && prop_name(self.dtb, ps[t])
                        == Ok::<Seq<u8>, Error>(props@[t].name@) && props@[t].dtb == self.dtb
                        && props@[t].wf(),
                forall|t: int| 0 <= t < ps.len() ==> crate::cursor::move_next_spec(self.dtb, ps[t]) is Ok,
                i <= props@.len(),
                fields@.len() == i,
                forall|t: int|
                    0 <= t < i ==> prop_name(self.dtb, ps[t]) == Ok::<Seq<u8>, Error>(fields@[t].name@)
                        && fields@[t].value is Bytes && fields@[t].value->Bytes_0@ == prop_data(
                        self.dtb,
                        ps[t],
                    ),
            decreases props.len() - i,
        {
            proof {
                assert(props@[i as int].prop.0 == ps[i as int]);
                assert(props@[i as int].wf());
                assert(crate::cursor::move_next_spec(self.dtb, ps[i as int]) is Ok);
            }
            let data = match props[i].data() {
                Ok(d) => d,
                Err(e) => {
                    return Err(e);
                },
            };
            fields.push(Field { name: bytes_to_vec(props[i].name), value: Value::Bytes(bytes_to_vec(data)) });
            i = i + 1;
        }
        let mut j: usize = 0;
        while j < kids.len()
            invariant
                self.wf(),
                k == self.cursor.0,
                self.prop_list() == Some(ps),
                children(self.dtb, k) == Some(cs),
                kids@.len() == cs.len(),
                forall|t: int|
                    0 <= t < cs.len() ==> kids@[t].node.start_cursor.0 == cs[t] && title_name(
                        self.dtb,
                        cs[t],
                    ) is Some && title_name(self.dtb, cs[t])->Some_0.0 == kids@[t].name@,
                forall|t: int|
                    0 <= t < kids@.len() ==> (#[trigger] kids@[t]).wf() && kids@[t].dtb == self.dtb
                        && kids@[t].node.start_cursor.0 > self.cursor.0,
                j <= kids@.len(),
                fields@.len() == ps.len() + j,
                forall|t: int|
                    0 <= t < ps.len() ==> prop_name(self.dtb, ps[t]) == Ok::<Seq<u8>, Error>(fields@[t].name@)
                        && fields@[t].value is Bytes && fields@[t].value->Bytes_0@ == prop_data(
                        self.dtb,
                        ps[t],
                    ),
                forall|t: int|
                    0 <= t < j ==> title_name(self.dtb, cs[t])->Some_0.0 == fields@[ps.len() + t].name@
                        && fields@[ps.len() + t].value is Node,
                subtree(self.dtb, k) is Some ==> subtrees(self.dtb, k, cs, j as int) is Some,
            decreases kids.len() - j,
        {
            let child = kids[j].to_node();
            let v = match child.to_value() {
                Ok(v) => v,
                Err(e) => {
                    proof {
                        assert(cs[j as int] == child.cursor.0);
                    }
                    return Err(e);
                },
            };
            proof {
                assert(cs[j as int] == child.cursor.0);
            }
            fields.push(Field { name: bytes_to_vec(kids[j].name), value: v });
            j = j + 1;
        }
        Ok(Value::Node(fields))
    }

    /// The `/chosen` node.
    pub fn chosen(&self) -> (r: Result<Option<Node<'a>>, Error>)
        requires
            self.wf(),
        ensures
            r matches Ok(Some(n)) ==> n.wf() && n.dtb == self.dtb && find_full(
                self.dtb,
                self.cursor.0 as int,
                "/chosen".spec_bytes(),
            ) == Some(n.cursor.0 as int),
            r matches Ok(None) ==> find_full(self.dtb, self.cursor.0 as int, "/chosen".spec_bytes())
                is None,
            full_reads(self.dtb, self.cursor.0 as int, "/chosen".spec_bytes()) ==> r is Ok,
    {
        self.raw_find("/chosen".as_bytes())
    }

    /// `/chosen/stdout-path`, without the options after `:`.
    pub fn chosen_stdout_path(&self) -> (r: Result<Option<&'a [u8]>, Error>)
        requires
            self.wf(),
        ensures
            r matches Ok(Some(s)) ==> chosen_value(
                self.dtb,
                self.cursor.0 as int,
                "stdout-path".spec_bytes(),
            ) == Some(s@),
            r matches Ok(None) ==> chosen_value(
                self.dtb,
                self.cursor.0 as int,
                "stdout-path".spec_bytes(),
            ) is None,
            chosen_reads(self.dtb, self.cursor.0 as int) ==> r is Ok,
    {
        self.chosen_path("stdout-path".as_bytes())
    }

    /// `/chosen/stdin-path`, without the options after `:`.
    pub fn chosen_stdin_path(&self) -> (r: Result<Option<&'a [u8]>, Error>)
        requires
            self.wf(),
        ensures
            r matches Ok(Some(s)) ==> chosen_value(
                self.dtb,
                self.cursor.0 as int,
                "stdin-path".spec_bytes(),
            ) == Some(s@),
            r matches Ok(None) ==> chosen_value(
                self.dtb,
                self.cursor.0 as int,
                "stdin-path".spec_bytes(),
            ) is None,
            chosen_reads(self.dtb, self.cursor.0 as int) ==> r is Ok,
    {
        self.chosen_path("stdin-path".as_bytes())
    }

    fn chosen_path(&self, name: &[u8]) -> (r: Result<Option<&'a [u8]>, Error>)
        requires
            self.wf(),
        ensures
            r matches Ok(Some(s)) ==> chosen_value(self.dtb, self.cursor.0 as int, name@) == Some(s@),
            r matches Ok(None) ==> chosen_value(self.dtb, self.cursor.0 as int, name@) is None,
            chosen_reads(self.dtb, self.cursor.0 as int) ==> r is Ok,
    {
        let chosen = match self.chosen() {
            Ok(Some(c)) => c,
            Ok(None) => {
                return Ok(None);
            },
            Err(e) => {
                return Err(e);
            },
        };
        match chosen.prop_first_string(name) {
            Ok(Some(s)) => Ok(Some(before_colon(s))),
            Ok(None) => Ok(None),
            Err(e) => Err(e),
        }
    }
}

/// The part of `s` before its first `:`.
pub fn before_colon<'a>(s: &'a [u8]) -> (r: &'a [u8])
    ensures
        r@ == s@.subrange(0, find_colon(s@, 0)),
{
    let mut i: usize = 0;
    while i < s.len() && s[i] != 0x3a
        invariant
            i <= s@.len(),
            find_colon(s@, i as int) == find_colon(s@, 0),
        decreases s.len() - i,
    {
        i = i + 1;
    }
    subslice(s, 0, i)
}

/// Every child of a node stands after the node's title.
proof fn lemma_children_after(d: Dtb, k: int)
    requires
        d.wf(),
        0 <= k,
    ensures
        children(d, k) matches Some(cs) ==> forall|t: int| 0 <= t < cs.len() ==> cs[t] > k,
{
    crate::cursor::lemma_skip_str_range(d, k + 1);
    if let Some(b) = body_start(d, k) {
        crate::node::lemma_items_from(d, b, false);
    }
}

} // verus!
