use vstd::prelude::*;
use crate::common::subslice;
use crate::node::bytes_eq;

verus! {

/// Whether a field turned out to be a property or a node.
#[derive(Clone, Copy, Debug, PartialEq, Eq)]
pub enum ValueType {
    Node,
    Prop,
}

/// A value to be written into a blob.
#[derive(Debug)]
pub enum Value {
    /// One big-endian word.
    U32(u32),
    /// A string; written with its zero terminator.
    Str(Vec<u8>),
    /// Raw bytes, written as they are.
    Bytes(Vec<u8>),
    /// Words written one after another, big-endian.
    U32Seq(Vec<u32>),
    /// A node with its fields, in order.
    Node(Vec<Field>),
}

/// A named field of a node.
#[derive(Debug)]
pub struct Field {
    pub name: Vec<u8>,
    pub value: Value,
}

/// Errors of the blob writer.
#[derive(Debug, Clone, Copy, PartialEq, Eq)]
pub enum Error {
    Unknown,
    /// Two patches replace the same path.
    Conflict,
    /// A field name holds a zero byte.
    InvalidName,
    /// The blob would not fit in 32-bit offsets.
    TooLarge,
    /// The output buffer is shorter than the blob.
    BufferTooSmall,
}

/// Position just after the `x`-th `/` of `s`, scanning from `i`; past the
/// end where there are fewer.
pub open spec fn after_slash(s: Seq<u8>, x: int, i: int) -> int
    decreases s.len() - i,
{
    if x <= 0 {
        i
    } else if i < 0 || i >= s.len() {
        s.len() as int + 1
    } else if s[i] == 0x2f {
        after_slash(s, x - 1, i + 1)
    } else {
        after_slash(s, x, i + 1)
    }
}

/// The first `/` of `s` at or after `i`, or the end.
pub open spec fn comp_end(s: Seq<u8>, i: int) -> int
    decreases s.len() - i,
{
    if i < 0 || i >= s.len() {
        s.len() as int
    } else if s[i] == 0x2f {
        i
    } else {
        comp_end(s, i + 1)
    }
}

/// Component `x` (from one) of a path `/a/b/...`; empty where there is none.
pub open spec fn component(s: Seq<u8>, x: int) -> Seq<u8> {
    let a = after_slash(s, x, 0);
    if a > s.len() {
        seq![]
    } else {
        s.subrange(a, comp_end(s, a))
    }
}

/// Number of `/` in `s` from `i` on.
pub open spec fn slash_count(s: Seq<u8>, i: int) -> int
    decreases s.len() - i,
{
    if i < 0 || i >= s.len() {
        0
    } else if s[i] == 0x2f {
        1 + slash_count(s, i + 1)
    } else {
        slash_count(s, i + 1)
    }
}

proof fn lemma_slash_count_bound(s: Seq<u8>, i: int)
    requires
        0 <= i <= s.len(),
    ensures
        0 <= slash_count(s, i) <= s.len() - i,
    decreases s.len() - i,
{
    if i < s.len() {
        lemma_slash_count_bound(s, i + 1);
    }
}

proof fn lemma_after_slash_bound(s: Seq<u8>, x: int, i: int)
    requires
        0 <= i <= s.len(),
    ensures
        i <= after_slash(s, x, i) <= s.len() + 1,
    decreases s.len() - i,
{
    if x > 0 && i < s.len() {
        if s[i] == 0x2f {
            lemma_after_slash_bound(s, x - 1, i + 1);
        } else {
            lemma_after_slash_bound(s, x, i + 1);
        }
    }
}

proof fn lemma_comp_end_bound(s: Seq<u8>, i: int)
    requires
        0 <= i <= s.len(),
    ensures
        i <= comp_end(s, i) <= s.len(),
    decreases s.len() - i,
{
    if i < s.len() && s[i] != 0x2f {
        lemma_comp_end_bound(s, i + 1);
    }
}

/// A change to apply while writing: the value at `name` (a path such as
/// `/chosen/stdout-path`) is replaced by `data`, or added where the path's
/// parent exists and the path does not.
#[derive(Debug)]
pub struct Patch {
    pub name: Vec<u8>,
    pub data: Value,
    pub patch_type: ValueType,
}

/// Number of `/` in `s`.
pub fn count_slash(s: &[u8]) -> (r: usize)
    ensures
        r == slash_count(s@, 0),
        r <= s@.len(),
{
    let mut i: usize = 0;
    let mut c: usize = 0;
    proof {
        lemma_slash_count_bound(s@, 0);
    }
    while i < s.len()
        invariant
            i <= s@.len(),
            c <= i,
            c + slash_count(s@, i as int) == slash_count(s@, 0),
        decreases s.len() - i,
    {
        if s[i] == 0x2f {
            c = c + 1;
        }
        i = i + 1;
    }
    c
}

/// Component `x` (from one) of the path `s`.
pub fn component_at(s: &[u8], x: usize) -> (r: &[u8])
    ensures
        r@ == component(s@, x as int),
{
    let mut i: usize = 0;
    let mut left = x;
    proof {
        lemma_after_slash_bound(s@, x as int, 0);
    }
    while left > 0 && i < s.len()
        invariant
            i <= s@.len(),
            left <= x,
            after_slash(s@, left as int, i as int) == after_slash(s@, x as int, 0),
        decreases s.len() - i,
    {
        if s[i] == 0x2f {
            left = left - 1;
        }
        i = i + 1;
    }
    if left > 0 {
        return subslice(s, 0, 0);
    }
    let a = i;
    proof {
        lemma_comp_end_bound(s@, a as int);
    }
    while i < s.len() && s[i] != 0x2f
        invariant
            a <= i <= s@.len(),
            comp_end(s@, i as int) == comp_end(s@, a as int),
        decreases s.len() - i,
    {
        i = i + 1;
    }
    subslice(s, a, i)
}

impl Patch {
    pub fn new(name: Vec<u8>, data: Value, patch_type: ValueType) -> (r: Patch)
        ensures
            r.name@ == name@,
            r.data == data,
            r.patch_type == patch_type,
    {
        Patch { name, data, patch_type }
    }

    /// Number of components of the path.
    pub open spec fn depth(self) -> int {
        slash_count(self.name@, 0)
    }

    pub fn get_depth(&self) -> (r: usize)
        ensures
            r == self.depth(),
    {
        count_slash(self.name.as_slice())
    }

    /// Component `x` (from one) of the path.
    pub fn get_depth_path(&self, x: usize) -> (r: &[u8])
        ensures
            r@ == component(self.name@, x as int),
    {
        component_at(self.name.as_slice(), x)
    }
}

/// Number of `false` flags in `s`.
pub open spec fn unparsed(s: Seq<bool>) -> nat
    decreases s.len(),
{
    if s.len() == 0 {
        0
    } else {
        unparsed(s.drop_last()) + if s.last() {
            0nat
        } else {
            1nat
        }
    }
}

pub proof fn lemma_unparsed_set(s: Seq<bool>, i: int)
    requires
        0 <= i < s.len(),
        !s[i],
    ensures
        unparsed(s.update(i, true)) + 1 == unparsed(s),
    decreases s.len(),
{
    if i < s.len() - 1 {
        assert(s.update(i, true).drop_last() =~= s.drop_last().update(i, true));
        lemma_unparsed_set(s.drop_last(), i);
    } else {
        assert(s.update(i, true).drop_last() =~= s.drop_last());
    }
}

/// The patches, with how far along the writer's path each one matches and
/// whether each one has been written.
pub struct PatchList<'a> {
    pub list: &'a [Patch],
    pub matched: Vec<usize>,
    pub parsed: Vec<bool>,
}

impl<'a> PatchList<'a> {
    pub open spec fn matched(self) -> Seq<usize> {
        self.matched@
    }

    pub open spec fn parsed(self) -> Seq<bool> {
        self.parsed@
    }

    pub open spec fn wf(self) -> bool {
        &&& self.matched().len() == self.list@.len()
        &&& self.parsed().len() == self.list@.len()
    }

    /// Whether no unwritten patch can be matched any further by a field at
    /// `d` or deeper: each is written or matched at most to `d - 2`.
    pub open spec fn calm(self, d: int) -> bool {
        forall|i: int|
            0 <= i < self.list@.len() ==> self.parsed()[i] || self.matched()[i] + 2 <= d
    }

    /// Whether no patch is matched deeper than `d`.
    pub open spec fn below(self, d: int) -> bool {
        forall|i: int| 0 <= i < self.matched().len() ==> self.matched()[i] <= d
    }

    /// Whether every flag set in `a` is set in `b`.
    pub open spec fn keeps_parsed(a: Seq<bool>, b: Seq<bool>) -> bool {
        a.len() == b.len() && forall|i: int| 0 <= i < a.len() && a[i] ==> b[i]
    }

    /// A list with every patch matched at the root and none written.
    pub fn new(list: &'a [Patch]) -> (r: PatchList<'a>)
        ensures
            r.wf(),
            r.list@ == list@,
            forall|i: int| 0 <= i < list@.len() ==> r.matched()[i] == 0 && !r.parsed()[i],
    {
        let mut matched: Vec<usize> = Vec::new();
        let mut parsed: Vec<bool> = Vec::new();
        let mut i: usize = 0;
        while i < list.len()
            invariant
                i <= list@.len(),
                matched@.len() == i,
                parsed@.len() == i,
                forall|t: int| 0 <= t < i ==> matched@[t] == 0 && !parsed@[t],
            decreases list.len() - i,
        {
            matched.push(0);
            parsed.push(false);
            i = i + 1;
        }
        PatchList { list, matched, parsed }
    }

    pub fn is_parsed(&self, i: usize) -> (r: bool)
        requires
            self.wf(),
            i < self.list@.len(),
        ensures
            r == self.parsed()[i as int],
    {
        self.parsed[i]
    }

    /// Records that patch `i` has been written.
    pub fn mark_parsed(&mut self, i: usize)
        requires
            old(self).wf(),
            i < old(self).list@.len(),
            !old(self).parsed()[i as int],
        ensures
            final(self).wf(),
            final(self).list == old(self).list,
            final(self).matched() == old(self).matched(),
            final(self).parsed() == old(self).parsed().update(i as int, true),
            unparsed(final(self).parsed()) + 1 == unparsed(old(self).parsed()),
    {
        self.parsed.set(i, true);
        proof {
            lemma_unparsed_set(old(self).parsed(), i as int);
        }
    }

    /// The writer enters field `name` at `depth` (one for the root's
    /// fields): every unwritten patch matched down to the parent whose next
    /// component is `name` now matches one level deeper. Returns the patch
    /// whose whole path is now matched, if any; two such are a conflict.
    pub fn step_forward(&mut self, name: &[u8], depth: usize) -> (r: Result<Option<usize>, Error>)
        requires
            old(self).wf(),
            depth >= 1,
        ensures
            final(self).wf(),
            final(self).list == old(self).list,
            final(self).parsed() == old(self).parsed(),
            r is Ok ==> forall|i: int|
                0 <= i < old(self).list@.len() ==> final(self).matched()[i] == if old(self).steps(
                    i,
                    name@,
                    depth as int,
                ) {
                    depth
                } else {
                    old(self).matched()[i]
                },
            r matches Ok(Some(i)) ==> i < old(self).list@.len() && old(self).steps(
                i as int,
                name@,
                depth as int,
            ) && old(self).list@[i as int].depth() == depth && !old(self).parsed()[i as int],
            r matches Ok(None) ==> forall|i: int|
                0 <= i < old(self).list@.len() && old(self).steps(i, name@, depth as int)
                    ==> old(self).list@[i].depth() != depth,
            r is Err ==> r == Err::<Option<usize>, Error>(Error::Conflict),
            r is Err <==> old(self).conflict(name@, depth as int),
    {
        let mut found: Option<usize> = None;
        let mut i: usize = 0;
        while i < self.list.len()
            invariant
                self.wf(),
                self.list == old(self).list,
                self.parsed() == old(self).parsed(),
                depth >= 1,
                i <= self.list@.len(),
                forall|t: int|
                    0 <= t < i ==> self.matched()[t] == if old(self).steps(t, name@, depth as int) {
                        depth
                    } else {
                        old(self).matched()[t]
                    },
                forall|t: int| i <= t < self.list@.len() ==> self.matched()[t] == old(self).matched()[t],
                found matches Some(f) ==> f < i && old(self).steps(f as int, name@, depth as int)
                    && old(self).list@[f as int].depth() == depth && !old(self).parsed()[f as int],
                found is None ==> forall|t: int|
                    0 <= t < i && old(self).steps(t, name@, depth as int) ==> old(self).list@[t].depth()
                        != depth,
                found matches Some(f) ==> forall|t: int|
                    0 <= t < i && old(self).fires(t, name@, depth as int) ==> t == f,
            decreases self.list.len() - i,
        {
            let p = &self.list[i];
            if self.matched[i] == depth - 1 && !self.parsed[i] && bytes_eq(
                p.get_depth_path(depth),
                name,
            ) {
                self.matched.set(i, depth);
                if p.get_depth() == depth {
                    if found.is_some() {
                        proof {
                            let f = found->Some_0 as int;
                            assert(old(self).fires(f, name@, depth as int));
                            assert(old(self).fires(i as int, name@, depth as int));
                        }
                        return Err(Error::Conflict);
                    }
                    found = Some(i);
                }
            }
            i = i + 1;
        }
        Ok(found)
    }

    /// Whether entering field `name` at `depth` completes patch `i`'s path.
    pub open spec fn fires(self, i: int, name: Seq<u8>, depth: int) -> bool {
        self.steps(i, name, depth) && self.list@[i].depth() == depth
    }

    /// Whether two patches would fire on entering field `name` at `depth`.
    pub open spec fn conflict(self, name: Seq<u8>, depth: int) -> bool {
        exists|a: int, b: int|
            0 <= a < b < self.list@.len() && self.fires(a, name, depth) && self.fires(b, name, depth)
    }

    /// Whether entering field `name` at `depth` moves patch `i` one level deeper.
    pub open spec fn steps(self, i: int, name: Seq<u8>, depth: int) -> bool {
        &&& self.matched()[i] == depth - 1
        &&& !self.parsed()[i]
        &&& component(self.list@[i].name@, depth) == name
    }

    /// The writer leaves a field at `depth`: patches matched to it go back one level.
    pub fn step_back(&mut self, depth: usize)
        requires
            old(self).wf(),
            depth >= 1,
        ensures
            final(self).wf(),
            final(self).list == old(self).list,
            final(self).parsed() == old(self).parsed(),
            forall|i: int|
                0 <= i < old(self).list@.len() ==> final(self).matched()[i] == if old(self).matched()[i]
                    == depth {
                    (depth - 1) as usize
                } else {
                    old(self).matched()[i]
                },
    {
        let mut i: usize = 0;
        while i < self.list.len()
            invariant
                self.wf(),
                self.list == old(self).list,
                self.parsed() == old(self).parsed(),
                depth >= 1,
                i <= self.list@.len(),
                forall|t: int|
                    0 <= t < i ==> self.matched()[t] == if old(self).matched()[t] == depth {
                        (depth - 1) as usize
                    } else {
                        old(self).matched()[t]
                    },
                forall|t: int| i <= t < self.list@.len() ==> self.matched()[t] == old(self).matched()[t],
            decreases self.list.len() - i,
        {
            if self.matched[i] == depth {
                self.matched.set(i, depth - 1);
            }
            i = i + 1;
        }
    }

    /// Whether patch `i` is to be added at the end of a node at `depth`.
    pub open spec fn adds_at(self, i: int, depth: int) -> bool {
        &&& self.matched()[i] == depth
        &&& self.list@[i].depth() == depth + 1
        &&& !self.parsed()[i]
    }

    /// The patches to add at the end of a node at `depth`: matched down to
    /// that node, one level longer, and not yet written.
    pub fn add_list(&self, depth: usize) -> (r: Vec<usize>)
        requires
            self.wf(),
        ensures
            forall|k: int| 0 <= k < r@.len() ==> r@[k] < self.list@.len() && self.adds_at(r@[k] as int, depth as int),
            forall|i: int| 0 <= i < self.list@.len() && self.adds_at(i, depth as int) ==> r@.contains(i as usize),
    {
        let mut out: Vec<usize> = Vec::new();
        let mut i: usize = 0;
        while i < self.list.len()
            invariant
                self.wf(),
                i <= self.list@.len(),
                forall|k: int| 0 <= k < out@.len() ==> out@[k] < i && self.adds_at(out@[k] as int, depth as int),
                forall|t: int| 0 <= t < i && self.adds_at(t, depth as int) ==> out@.contains(t as usize),
            decreases self.list.len() - i,
        {
            let ghost old_out = out@;
            let pd = self.list[i].get_depth();
            if self.matched[i] == depth && !self.parsed[i] && pd > 0 && pd - 1 == depth {
                out.push(i);
            }
            proof {
                assert forall|t: int| 0 <= t < i + 1 && self.adds_at(t, depth as int) implies out@.contains(t as usize) by {
                    if t < i {
                        let k = choose|k: int| 0 <= k < old_out.len() && old_out[k] == t as usize;
                        assert(out@[k] == t as usize);
                    } else {
                        assert(out@[out@.len() - 1] == i);
                    }
                }
            }
            i = i + 1;
        }
        out
    }
}

/// Each patch is written at most once: once its flag is set, entering no
/// field moves it, so `step_forward` never hands it out again, and it is no
/// longer among the patches to add.
pub proof fn lemma_written_patch_stays_quiet(pl: PatchList, i: int, name: Seq<u8>, depth: int)
    requires
        pl.wf(),
        0 <= i < pl.list@.len(),
        pl.parsed()[i],
    ensures
        !pl.steps(i, name, depth),
        !pl.adds_at(i, depth),
{
}

} // verus!
