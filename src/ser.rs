use vstd::prelude::*;
use crate::common::{align4, be_bytes, be_u32, word, FDT_PROP, FDT_BEGIN_NODE, FDT_END, FDT_END_NODE, HEADER_LEN, SUPPORTED_VERSION, DEVICE_TREE_MAGIC};
use crate::patch::{unparsed, Error, Field, Patch, PatchList, Value};
use crate::pointer::Pointer;
use crate::string_block::{block_after, name_offset, StringBlock};

verus! {

/// Bound kept on each block, so that every offset fits in 32 bits.
pub const LIMIT: usize = 0x4000_0000;

/// Length of the (empty) memory reservation map: one zero entry.
pub const RSVMAP_LEN: usize = 16;

/// The structure block writer with its string block.
pub struct Serializer {
    pub dst: Pointer,
    pub strings: StringBlock,
}

/// Whether `s` begins with `p`.
pub open spec fn is_prefix(p: Seq<u8>, s: Seq<u8>) -> bool {
    p.len() <= s.len() && s.subrange(0, p.len() as int) == p
}

/// Whether `s` holds a zero byte.
fn has_zero(s: &[u8]) -> (r: bool)
    ensures
        r == exists|i: int| 0 <= i < s@.len() && s@[i] == 0,
{
    let mut i: usize = 0;
    while i < s.len()
        invariant
            i <= s@.len(),
            forall|t: int| 0 <= t < i ==> s@[t] != 0,
        decreases s.len() - i,
    {
        if s[i] == 0 {
            return true;
        }
        i = i + 1;
    }
    false
}

/// How a property's bytes come out of the header written first, the value,
/// the two words filled in afterwards and the padding.
#[verifier::rlimit(60)]
proof fn lemma_prim_layout(
    b0: Seq<u8>,
    data: Seq<u8>,
    name_word: u32,
    off: int,
    b2: Seq<u8>,
    b3: Seq<u8>,
    b4: Seq<u8>,
    b5: Seq<u8>,
)
    requires
        b0.len() % 4 == 0,
        off == b0.len() + 4,
        data.len() <= u32::MAX,
        b2 == b0 + be_bytes(FDT_PROP) + be_bytes(crate::common::FDT_NOP) + be_bytes(
            crate::common::FDT_NOP,
        ) + data,
        b3 == b2.subrange(0, off) + be_bytes(data.len() as u32) + b2.subrange(off + 4, b2.len() as int),
        b4 == b3.subrange(0, off + 4) + be_bytes(name_word) + b3.subrange(off + 8, b3.len() as int),
        b5 == b4 + Seq::new((align4(b4.len() as int) - b4.len()) as nat, |i: int| 0u8),
    ensures
        b5 == b0 + (be_bytes(FDT_PROP) + be_bytes(data.len() as u32) + be_bytes(name_word) + data
            + pad(data.len() as int)),
{
    let head = b0 + be_bytes(FDT_PROP);
    assert(b3 =~= head + be_bytes(data.len() as u32) + be_bytes(crate::common::FDT_NOP) + data);
    assert(b4 =~= head + be_bytes(data.len() as u32) + be_bytes(name_word) + data);
    assert((b0.len() + 12 + data.len()) % 4 == data.len() % 4);
    assert(b5 =~= b0 + (be_bytes(FDT_PROP) + be_bytes(data.len() as u32) + be_bytes(name_word) + data
        + pad(data.len() as int)));
}

proof fn lemma_prefix_trans(a: Seq<u8>, b: Seq<u8>, c: Seq<u8>)
    requires
        is_prefix(a, b),
        is_prefix(b, c),
    ensures
        is_prefix(a, c),
{
    assert(c.subrange(0, a.len() as int) =~= b.subrange(0, a.len() as int));
}

proof fn lemma_prefix_write(p: Seq<u8>, b: Seq<u8>, off: int, w: Seq<u8>)
    requires
        is_prefix(p, b),
        p.len() <= off,
        off + w.len() <= b.len(),
    ensures
        is_prefix(p, b.subrange(0, off) + w + b.subrange(off + w.len(), b.len() as int)),
{
    let c = b.subrange(0, off) + w + b.subrange(off + w.len(), b.len() as int);
    assert(c.subrange(0, p.len() as int) =~= b.subrange(0, p.len() as int));
}

/// Zero bytes that pad `n` bytes up to a multiple of four.
pub open spec fn pad(n: int) -> Seq<u8> {
    Seq::new((align4(n) - n) as nat, |i: int| 0u8)
}

/// Whether `s` holds no zero byte.
pub open spec fn no_zero(s: Seq<u8>) -> bool {
    forall|i: int| 0 <= i < s.len() ==> s[i] != 0
}

/// The bytes of a primitive value.
pub open spec fn prim_data(v: Value) -> Seq<u8> {
    match v {
        Value::U32(x) => be_bytes(x),
        Value::Str(b) => b@ + seq![0u8],
        Value::Bytes(b) => b@,
        Value::U32Seq(ws) => words_bytes(ws@),
        Value::Node(_) => seq![],
    }
}

/// The name written after a node's `BEGIN_NODE`: an empty word for the root.
pub open spec fn node_name(key: Seq<u8>, depth: int) -> Seq<u8> {
    if depth == 0 {
        be_bytes(0)
    } else {
        key + seq![0u8] + pad(key.len() as int + 1)
    }
}

/// The structure bytes and the string block after writing `v` as field
/// `key` at `depth`, with no patches, the string block being `t` before.
pub open spec fn enc_value(key: Seq<u8>, v: Value, depth: int, t: Seq<u8>) -> (Seq<u8>, Seq<u8>)
    decreases v, 0int,
{
    match v {
        Value::Node(fields) => enc_node(key, fields@, depth, t),
        _ => {
            let data = prim_data(v);
            (
                be_bytes(FDT_PROP) + be_bytes(data.len() as u32) + be_bytes(
                    name_offset(t, key) as u32,
                ) + data + pad(data.len() as int),
                block_after(t, key),
            )
        },
    }
}

/// A node named `key` at `depth` with fields `fs`.
pub open spec fn enc_node(key: Seq<u8>, fs: Seq<Field>, depth: int, t: Seq<u8>) -> (Seq<u8>, Seq<u8>)
    decreases fs, 1int,
{
    let body = enc_fields(fs, 0, depth + 1, t);
    (be_bytes(FDT_BEGIN_NODE) + node_name(key, depth) + body.0 + be_bytes(FDT_END_NODE), body.1)
}

/// Fields `i..` of `fs` at `depth`.
pub open spec fn enc_fields(fs: Seq<Field>, i: int, depth: int, t: Seq<u8>) -> (Seq<u8>, Seq<u8>)
    decreases fs, 0int, fs.len() - i,
{
    if i < 0 || i >= fs.len() {
        (seq![], t)
    } else {
        let a = enc_value(fs[i].name@, fs[i].value, depth, t);
        let b = enc_fields(fs, i + 1, depth, a.1);
        (a.0 + b.0, b.1)
    }
}

/// Whether `v` can be written as field `key`: property names hold no zero byte.
pub open spec fn writable(key: Seq<u8>, v: Value) -> bool
    decreases v, 0int,
{
    match v {
        Value::Node(fields) => fields_writable(fields@, 0),
        _ => no_zero(key),
    }
}

/// Whether fields `i..` of `fs` can be written.
pub open spec fn fields_writable(fs: Seq<Field>, i: int) -> bool
    decreases fs, 0int, fs.len() - i,
{
    if i < 0 || i >= fs.len() {
        true
    } else {
        writable(fs[i].name@, fs[i].value) && fields_writable(fs, i + 1)
    }
}

/// The bytes that the property names inside `v`, written as field `key`,
/// may add to the string block.
pub open spec fn names_len(key: Seq<u8>, v: Value) -> int
    decreases v, 0int,
{
    match v {
        Value::Node(fields) => fields_names(fields@, 0),
        _ => key.len() as int + 1,
    }
}

/// The bytes that the property names of fields `i..` of `fs` may add.
pub open spec fn fields_names(fs: Seq<Field>, i: int) -> int
    decreases fs, 0int, fs.len() - i,
{
    if i < 0 || i >= fs.len() {
        0
    } else {
        names_len(fs[i].name@, fs[i].value) + fields_names(fs, i + 1)
    }
}

/// Whether `data` can be written with no patches: it is a node, its
/// property names hold no zero byte, and both blocks stay within `LIMIT`.
pub open spec fn encodable(data: Value) -> bool {
    match data {
        Value::Node(fs) => fields_writable(fs@, 0) && enc_node(seq![], fs@, 0, seq![]).0.len() + 16
            <= LIMIT && fields_names(fs@, 0) <= LIMIT,
        _ => false,
    }
}

proof fn lemma_fields_names_nonneg(fs: Seq<Field>, i: int)
    ensures
        fields_names(fs, i) >= 0,
    decreases fs, 0int, fs.len() - i,
{
    if 0 <= i < fs.len() {
        lemma_names_nonneg(fs[i].name@, fs[i].value);
        lemma_fields_names_nonneg(fs, i + 1);
    }
}

proof fn lemma_names_nonneg(key: Seq<u8>, v: Value)
    ensures
        names_len(key, v) >= 0,
    decreases v, 0int,
{
    if let Value::Node(fields) = v {
        lemma_fields_names_nonneg(fields@, 0);
    }
}

/// Writing a value adds to the string block at most its property names.
pub proof fn lemma_names_growth(key: Seq<u8>, v: Value, depth: int, t: Seq<u8>)
    ensures
        enc_value(key, v, depth, t).1.len() <= t.len() + names_len(key, v),
    decreases v, 0int,
{
    match v {
        Value::Node(fields) => lemma_fields_growth(fields@, 0, depth + 1, t),
        _ => {},
    }
}

/// Writing fields adds to the string block at most their property names.
pub proof fn lemma_fields_growth(fs: Seq<Field>, i: int, depth: int, t: Seq<u8>)
    ensures
        enc_fields(fs, i, depth, t).1.len() <= t.len() + fields_names(fs, i),
    decreases fs, 0int, fs.len() - i,
{
    if 0 <= i < fs.len() {
        let a = enc_value(fs[i].name@, fs[i].value, depth, t);
        lemma_names_growth(fs[i].name@, fs[i].value, depth, t);
        lemma_fields_growth(fs, i + 1, depth, a.1);
    }
}

/// State of the patch walk: how deep each patch is matched, and which are written.
pub type WalkState = (Seq<usize>, Seq<bool>);

/// Whether entering field `name` at depth `d` moves patch `i` one level deeper.
pub open spec fn w_steps(l: Seq<Patch>, m: Seq<usize>, p: Seq<bool>, i: int, name: Seq<u8>, d: int) -> bool {
    m[i] == d - 1 && !p[i] && crate::patch::component(l[i].name@, d) == name
}

/// Whether entering field `name` at depth `d` completes patch `i`'s path.
pub open spec fn w_fires(l: Seq<Patch>, m: Seq<usize>, p: Seq<bool>, i: int, name: Seq<u8>, d: int) -> bool {
    w_steps(l, m, p, i, name, d) && l[i].depth() == d
}

/// Whether two patches complete their paths at field `name` at depth `d`.
pub open spec fn w_conflict(l: Seq<Patch>, m: Seq<usize>, p: Seq<bool>, name: Seq<u8>, d: int) -> bool {
    exists|a: int, b: int|
        0 <= a < b < l.len() && w_fires(l, m, p, a, name, d) && w_fires(l, m, p, b, name, d)
}

/// The first patch from `i` on that completes its path at field `name`.
pub open spec fn w_first(l: Seq<Patch>, m: Seq<usize>, p: Seq<bool>, name: Seq<u8>, d: int, i: int) -> Option<int>
    decreases l.len() - i,
{
    if i < 0 || i >= l.len() {
        None
    } else if w_fires(l, m, p, i, name, d) {
        Some(i)
    } else {
        w_first(l, m, p, name, d, i + 1)
    }
}

/// Match depths after entering field `name` at depth `d`.
pub open spec fn w_forward(l: Seq<Patch>, m: Seq<usize>, p: Seq<bool>, name: Seq<u8>, d: int) -> Seq<usize> {
    Seq::new(m.len(), |i: int| if w_steps(l, m, p, i, name, d) { d as usize } else { m[i] })
}

/// Match depths after leaving a field at depth `d`.
pub open spec fn w_back(m: Seq<usize>, d: int) -> Seq<usize> {
    Seq::new(m.len(), |i: int| if m[i] == d { (d - 1) as usize } else { m[i] })
}

/// Field `key` at depth `d` written with patches `l`: replaced by the patch
/// whose path it completes, if any. Yields the bytes, the string block and
/// the walk state after it; `None` where two patches complete their paths here.
pub open spec fn w_field(l: Seq<Patch>, key: Seq<u8>, v: Value, d: int, t: Seq<u8>, m: Seq<usize>, p: Seq<bool>) -> Option<
    (Seq<u8>, Seq<u8>, Seq<usize>, Seq<bool>),
>
    decreases unparsed(p), v, 2int,
{
    if w_conflict(l, m, p, key, d) {
        None
    } else {
        let m1 = w_forward(l, m, p, key, d);
        match w_first(l, m, p, key, d, 0) {
            Some(x) => if 0 <= x < p.len() && !p[x] && unparsed(p.update(x, true)) < unparsed(p) {
                match w_value(l, key, l[x].data, d, t, m1, p.update(x, true)) {
                    Some(r) => Some((r.0, r.1, w_back(r.2, d), r.3)),
                    None => None,
                }
            } else {
                None
            },
            None => match w_value(l, key, v, d, t, m1, p) {
                Some(r) => Some((r.0, r.1, w_back(r.2, d), r.3)),
                None => None,
            },
        }
    }
}

/// Value `v` written as field `key` at depth `d` with patches `l`.
pub open spec fn w_value(l: Seq<Patch>, key: Seq<u8>, v: Value, d: int, t: Seq<u8>, m: Seq<usize>, p: Seq<bool>) -> Option<
    (Seq<u8>, Seq<u8>, Seq<usize>, Seq<bool>),
>
    decreases unparsed(p), v, 1int,
{
    match v {
        Value::Node(fields) => w_node(l, key, fields@, d, t, m, p),
        _ => if no_zero(key) {
            Some((enc_value(key, v, d, t).0, enc_value(key, v, d, t).1, m, p))
        } else {
            None
        },
    }
}

/// A node named `key` at depth `d` with fields `fs`, written with patches
/// `l`: its fields, then the patches added to it.
#[verifier::opaque]
pub open spec fn w_node(l: Seq<Patch>, key: Seq<u8>, fs: Seq<Field>, d: int, t: Seq<u8>, m: Seq<usize>, p: Seq<bool>) -> Option<
    (Seq<u8>, Seq<u8>, Seq<usize>, Seq<bool>),
>
    decreases unparsed(p), fs, 1int,
{
    match w_fields(l, fs, 0, d + 1, t, m, p) {
        None => None,
        Some(f) => if unparsed(f.3) > unparsed(p) {
            None
        } else {
            match w_adds(l, fs, 0, d, f.1, f.2, f.3) {
                None => None,
                Some(a) => Some(
                    (
                        be_bytes(FDT_BEGIN_NODE) + node_name(key, d) + f.0 + a.0 + be_bytes(FDT_END_NODE),
                        a.1,
                        a.2,
                        a.3,
                    ),
                ),
            }
        },
    }
}

/// Fields `i..` of `fs` at depth `d`, written with patches `l`.
pub open spec fn w_fields(l: Seq<Patch>, fs: Seq<Field>, i: int, d: int, t: Seq<u8>, m: Seq<usize>, p: Seq<bool>) -> Option<
    (Seq<u8>, Seq<u8>, Seq<usize>, Seq<bool>),
>
    decreases unparsed(p), fs, 0int, fs.len() - i,
{
    if i < 0 || i >= fs.len() {
        Some((seq![], t, m, p))
    } else {
        match w_field(l, fs[i].name@, fs[i].value, d, t, m, p) {
            None => None,
            Some(a) => if unparsed(a.3) > unparsed(p) {
                None
            } else {
                match w_fields(l, fs, i + 1, d, a.1, a.2, a.3) {
                    None => None,
                    Some(b) => Some((a.0 + b.0, b.1, b.2, b.3)),
                }
            },
        }
    }
}

/// The patches from `q` on that are to be added at the end of a node at
/// depth `d` (matched down to it, one level longer, unwritten), in list order.
pub open spec fn w_adds(l: Seq<Patch>, fs: Seq<Field>, q: int, d: int, t: Seq<u8>, m: Seq<usize>, p: Seq<bool>) -> Option<
    (Seq<u8>, Seq<u8>, Seq<usize>, Seq<bool>),
>
    decreases unparsed(p), fs, 0int, l.len() - q,
{
    if q < 0 || q >= l.len() || q >= m.len() || q >= p.len() {
        Some((seq![], t, m, p))
    } else if m[q] == d && l[q].depth() == d + 1 && !p[q] {
        if unparsed(p.update(q, true)) < unparsed(p) {
            match w_value(
                l,
                crate::patch::component(l[q].name@, d + 1),
                l[q].data,
                d + 1,
                t,
                m,
                p.update(q, true),
            ) {
                None => None,
                Some(a) => if unparsed(a.3) > unparsed(p) {
                    None
                } else {
                    match w_adds(l, fs, q + 1, d, a.1, a.2, a.3) {
                        None => None,
                        Some(b) => Some((a.0 + b.0, b.1, b.2, b.3)),
                    }
                },
            }
        } else {
            None
        }
    } else {
        w_adds(l, fs, q + 1, d, t, m, p)
    }
}

/// The blob written for the node `data` with patches `l`; `None` where two
/// patches complete their paths at the same field.
pub open spec fn encode_with(data: Value, l: Seq<Patch>) -> Option<Seq<u8>> {
    match data {
        Value::Node(fs) => match w_node(
            l,
            seq![],
            fs@,
            0,
            seq![],
            Seq::new(l.len(), |i: int| 0usize),
            Seq::new(l.len(), |i: int| false),
        ) {
            Some(r) => Some(blob_of(r.0 + be_bytes(FDT_END), r.1)),
            None => None,
        },
        _ => None,
    }
}

/// Whether writing took the serializer from `s0` to `s1` and the patch
/// list to `p1` as `w` describes.
pub open spec fn wrote(
    w: Option<(Seq<u8>, Seq<u8>, Seq<usize>, Seq<bool>)>,
    s0: Serializer,
    s1: Serializer,
    p1: PatchList,
) -> bool {
    &&& w is Some
    &&& s1.dst.bytes()->Some_0 == s0.dst.bytes()->Some_0 + w->Some_0.0
    &&& s1.strings.bytes() == w->Some_0.1
    &&& p1.matched() == w->Some_0.2
    &&& p1.parsed() == w->Some_0.3
}

/// How `w_node` is made of its fields and its additions.
proof fn lemma_w_node(l: Seq<Patch>, key: Seq<u8>, fs: Seq<Field>, d: int, t: Seq<u8>, m: Seq<usize>, p: Seq<bool>)
    requires
        w_fields(l, fs, 0, d + 1, t, m, p) is Some,
        unparsed(w_fields(l, fs, 0, d + 1, t, m, p)->Some_0.3) <= unparsed(p),
        w_adds(
            l,
            fs,
            0,
            d,
            w_fields(l, fs, 0, d + 1, t, m, p)->Some_0.1,
            w_fields(l, fs, 0, d + 1, t, m, p)->Some_0.2,
            w_fields(l, fs, 0, d + 1, t, m, p)->Some_0.3,
        ) is Some,
    ensures
        ({
            let f = w_fields(l, fs, 0, d + 1, t, m, p)->Some_0;
            let a = w_adds(l, fs, 0, d, f.1, f.2, f.3)->Some_0;
            w_node(l, key, fs, d, t, m, p) == Some(
                (
                    be_bytes(FDT_BEGIN_NODE) + node_name(key, d) + f.0 + a.0 + be_bytes(FDT_END_NODE),
                    a.1,
                    a.2,
                    a.3,
                ),
            )
        }),
{
    reveal(w_node);
}

proof fn lemma_w_first(l: Seq<Patch>, m: Seq<usize>, p: Seq<bool>, name: Seq<u8>, d: int, i: int, x: int)
    requires
        0 <= i <= x < l.len(),
        w_fires(l, m, p, x, name, d),
        forall|y: int| i <= y < x ==> !w_fires(l, m, p, y, name, d),
    ensures
        w_first(l, m, p, name, d, i) == Some(x),
    decreases x - i,
{
    if i < x {
        lemma_w_first(l, m, p, name, d, i + 1, x);
    }
}

proof fn lemma_w_none(l: Seq<Patch>, m: Seq<usize>, p: Seq<bool>, name: Seq<u8>, d: int, i: int)
    requires
        0 <= i,
        forall|y: int| i <= y < l.len() ==> !w_fires(l, m, p, y, name, d),
    ensures
        w_first(l, m, p, name, d, i) is None,
    decreases l.len() - i,
{
    if i < l.len() {
        lemma_w_none(l, m, p, name, d, i + 1);
    }
}

impl Serializer {
    pub open spec fn ok(self) -> bool {
        &&& self.dst.wf()
        &&& self.strings.wf()
        &&& self.dst.bytes() is Some
        &&& self.dst.offset() <= LIMIT
        &&& self.dst.offset() % 4 == 0
        &&& self.strings.bytes().len() <= LIMIT
    }

    /// What every write keeps: the state stays usable, the structure block
    /// only grows at its end, and written patches stay written.
    pub open spec fn grows(a: Serializer, b: Serializer, pa: PatchList, pb: PatchList) -> bool {
        &&& b.ok()
        &&& is_prefix(a.dst.bytes()->Some_0, b.dst.bytes()->Some_0)
        &&& pb.wf()
        &&& pb.list == pa.list
        &&& PatchList::keeps_parsed(pa.parsed(), pb.parsed())
        &&& unparsed(pb.parsed()) <= unparsed(pa.parsed())
    }

    /// Makes room checks: `n` more bytes of structure block still fit.
    fn fits(&self, n: usize) -> (r: bool)
        requires
            self.ok(),
        ensures
            r == (self.dst.offset() + n + 8 <= LIMIT),
    {
        let off = self.dst.get_offset();
        if off > LIMIT - 8 {
            false
        } else {
            n <= LIMIT - 8 - off
        }
    }

    /// Writes the bytes of a primitive value.
    fn emit_data(&mut self, v: &Value) -> (r: Result<(), Error>)
        requires
            old(self).ok(),
        ensures
            r is Ok ==> final(self).dst.wf() && final(self).dst.bytes() is Some && is_prefix(
                old(self).dst.bytes()->Some_0,
                final(self).dst.bytes()->Some_0,
            ) && final(self).dst.offset() + 8 <= LIMIT && final(self).dst.offset()
                >= old(self).dst.offset(),
            r is Ok ==> final(self).dst.bytes()->Some_0 == old(self).dst.bytes()->Some_0 + prim_data(*v),
            r is Ok ==> !(*v is Node),
            final(self).strings == old(self).strings,
            !(*v is Node) && old(self).dst.offset() + prim_data(*v).len() + 8 <= LIMIT ==> r is Ok,
    {
        let ghost b0 = self.dst.bytes()->Some_0;
        proof {
            assert(b0.subrange(0, b0.len() as int) =~= b0);
        }
        match v {
            Value::U32(x) => {
                if !self.fits(4) {
                    return Err(Error::TooLarge);
                }
                self.dst.step_by_u32(*x);
            },
            Value::Str(s) => {
                if s.len() >= LIMIT || !self.fits(s.len() + 1) {
                    return Err(Error::TooLarge);
                }
                self.dst.step_by_bytes(s.as_slice());
                self.dst.step_by_u8(0);
            },
            Value::Bytes(s) => {
                if !self.fits(s.len()) {
                    return Err(Error::TooLarge);
                }
                self.dst.step_by_bytes(s.as_slice());
            },
            Value::U32Seq(ws) => {
                proof {
                    lemma_words_len(ws@);
                }
                if self.dst.get_offset() > LIMIT - 8 || ws.len() > (LIMIT - 8 - self.dst.get_offset()) / 4 {
                    return Err(Error::TooLarge);
                }
                let mut i: usize = 0;
                while i < ws.len()
                    invariant
                        self.dst.wf(),
                        self.dst.bytes() is Some,
                        self.strings == old(self).strings,
                        is_prefix(b0, self.dst.bytes()->Some_0),
                        b0 == old(self).dst.bytes()->Some_0,
                        i <= ws@.len(),
                        self.dst.offset() + 4 * (ws@.len() - i) + 8 <= LIMIT,
                        self.dst.offset() >= old(self).dst.offset(),
                        self.dst.bytes()->Some_0 == b0 + words_bytes(ws@.take(i as int)),
                    decreases ws.len() - i,
                {
                    let ghost before = self.dst.bytes()->Some_0;
                    self.dst.step_by_u32(ws[i]);
                    proof {
                        let after = self.dst.bytes()->Some_0;
                        assert(after.subrange(0, b0.len() as int) =~= before.subrange(0, b0.len() as int));
                        assert(ws@.take(i + 1).drop_last() =~= ws@.take(i as int));
                        assert(ws@.take(i + 1).last() == ws@[i as int]);
                        assert(after =~= b0 + words_bytes(ws@.take(i + 1)));
                    }
                    i = i + 1;
                }
                proof {
                    assert(ws@.take(ws@.len() as int) =~= ws@);
                }
            },
            Value::Node(_) => {
                return Err(Error::Unknown);
            },
        }
        proof {
            assert(self.dst.bytes()->Some_0.subrange(0, b0.len() as int) =~= b0);
            if let Value::Str(x) = v {
                assert(self.dst.bytes()->Some_0 =~= b0 + prim_data(*v));
            }
            if let Value::Bytes(x) = v {
                assert(self.dst.bytes()->Some_0 =~= b0 + prim_data(*v));
            }
            if let Value::U32(x) = v {
                assert(self.dst.bytes()->Some_0 =~= b0 + prim_data(*v));
            }
        }
        Ok(())
    }

    /// Writes a primitive value as a property named `key`.
    #[verifier::rlimit(40)]
    fn emit_prim(&mut self, key: &[u8], v: &Value) -> (r: Result<(), Error>)
        requires
            old(self).ok(),
        ensures
            !(*v is Node) && no_zero(key@) && old(self).dst.offset() + enc_value(
                key@,
                *v,
                0,
                old(self).strings.bytes(),
            ).0.len() + 16 <= LIMIT && old(self).strings.bytes().len() + key@.len() + 1 <= LIMIT
                ==> r is Ok,
            r is Ok ==> no_zero(key@),
            !(*v is Node) && no_zero(key@) && old(self).dst.offset() + enc_value(
                key@,
                *v,
                0,
                old(self).strings.bytes(),
            ).0.len() + 16 <= LIMIT && block_after(old(self).strings.bytes(), key@).len() <= LIMIT
                ==> r is Ok,
            r is Ok ==> final(self).ok() && is_prefix(
                old(self).dst.bytes()->Some_0,
                final(self).dst.bytes()->Some_0,
            ),
            r is Ok ==> final(self).dst.bytes()->Some_0 == old(self).dst.bytes()->Some_0 + enc_value(
                key@,
                *v,
                0,
                old(self).strings.bytes(),
            ).0 && final(self).strings.bytes() == enc_value(key@, *v, 0, old(self).strings.bytes()).1,
    {
        if has_zero(key) {
            return Err(Error::InvalidName);
        }
        proof {
            crate::string_block::lemma_block_after_len(self.strings.bytes(), key@);
        }
        if !self.fits(12) || key.len() > LIMIT {
            return Err(Error::TooLarge);
        }
        let ghost b0 = self.dst.bytes()->Some_0;
        let off = self.dst.step_by_prop();
        proof {
            assert(self.dst.bytes()->Some_0.subrange(0, b0.len() as int) =~= b0);
        }
        let ghost b1 = self.dst.bytes()->Some_0;
        if let Err(e) = self.emit_data(v) {
            return Err(e);
        }
        let end = self.dst.get_offset();
        let ghost b2 = self.dst.bytes()->Some_0;
        proof {
            lemma_prefix_trans(b0, b1, b2);
        }
        self.dst.write_to_offset_u32(off, (end - off - 8) as u32);
        proof {
            lemma_prefix_write(b0, b2, off as int, be_bytes((end - off - 8) as u32));
        }
        let name_off = self.strings.find_or_insert(key);
        if self.strings.len() > LIMIT {
            return Err(Error::TooLarge);
        }
        let ghost b3 = self.dst.bytes()->Some_0;
        self.dst.write_to_offset_u32(off + 4, name_off as u32);
        proof {
            lemma_prefix_write(b0, b3, off + 4, be_bytes(name_off as u32));
        }
        let ghost b4 = self.dst.bytes()->Some_0;
        self.dst.step_align();
        proof {
            let b5 = self.dst.bytes()->Some_0;
            assert(b5.subrange(0, b4.len() as int) =~= b4);
            lemma_prefix_trans(b0, b4, b5);
            let data = prim_data(*v);
            let t0 = old(self).strings.bytes();
            lemma_prim_layout(b0, data, name_off as u32, off as int, b2, b3, b4, b5);
            assert(name_off == name_offset(t0, key@));
        }
        Ok(())
    }

    /// Writes field `key` at `depth` (one for the root's fields), or the
    /// patch that replaces it.
    fn emit_field(&mut self, key: &[u8], v: &Value, depth: usize, patches: &mut PatchList) -> (r:
        Result<(), Error>)
        requires
            old(self).ok(),
            old(patches).wf(),
            1 <= depth < LIMIT,
            old(patches).below(depth - 1),
        ensures
            r is Ok ==> Serializer::grows(*old(self), *final(self), *old(patches), *final(patches)),
            r is Ok ==> final(patches).matched() == old(patches).matched(),
            r is Ok && old(patches).calm(depth as int) ==> final(patches).parsed() == old(patches).parsed() && final(self).dst.bytes()->Some_0 == old(
                self,
            ).dst.bytes()->Some_0 + enc_value(key@, *v, depth as int, old(self).strings.bytes()).0
                && final(self).strings.bytes() == enc_value(
                key@,
                *v,
                depth as int,
                old(self).strings.bytes(),
            ).1,
            old(patches).list@.len() == 0 && writable(key@, *v) && old(self).dst.offset() + enc_value(
                key@,
                *v,
                depth as int,
                old(self).strings.bytes(),
            ).0.len() + 16 <= LIMIT && old(self).strings.bytes().len() + names_len(key@, *v) <= LIMIT
                && 8 * depth <= old(self).dst.offset() ==> r is Ok,
            r is Ok ==> wrote(
                w_field(
                    old(patches).list@,
                    key@,
                    *v,
                    depth as int,
                    old(self).strings.bytes(),
                    old(patches).matched(),
                    old(patches).parsed(),
                ),
                *old(self),
                *final(self),
                *final(patches),
            ),
        decreases unparsed(old(patches).parsed()), v, 2int,
    {
        let fired = match patches.step_forward(key, depth) {
            Ok(f) => f,
            Err(e) => {
                return Err(e);
            },
        };
        let list = patches.list;
        let ghost l = old(patches).list@;
        let ghost m0 = old(patches).matched();
        let ghost p0 = old(patches).parsed();
        proof {
            assert forall|q: int| 0 <= q < l.len() implies (old(patches).fires(q, key@, depth as int)
                <==> w_fires(l, m0, p0, q, key@, depth as int)) by {}
            if w_conflict(l, m0, p0, key@, depth as int) {
                let (a, b) = choose|a: int, b: int|
                    0 <= a < b < l.len() && w_fires(l, m0, p0, a, key@, depth as int) && w_fires(
                        l,
                        m0,
                        p0,
                        b,
                        key@,
                        depth as int,
                    );
                assert(old(patches).fires(a, key@, depth as int));
                assert(old(patches).fires(b, key@, depth as int));
                assert(old(patches).conflict(key@, depth as int));
            }
            assert(patches.matched() =~= w_forward(l, m0, p0, key@, depth as int));
            match fired {
                Some(x) => {
                    assert forall|y: int| 0 <= y < x implies !w_fires(l, m0, p0, y, key@, depth as int) by {
                        if w_fires(l, m0, p0, y, key@, depth as int) {
                            assert(old(patches).fires(y, key@, depth as int));
                            assert(old(patches).fires(x as int, key@, depth as int));
                            assert(0 <= y < x < l.len());
                            assert(old(patches).conflict(key@, depth as int));
                        }
                    }
                    lemma_w_first(l, m0, p0, key@, depth as int, 0, x as int);
                    crate::patch::lemma_unparsed_set(p0, x as int);
                },
                None => {
                    assert forall|y: int| 0 <= y < l.len() implies !w_fires(l, m0, p0, y, key@, depth as int) by {
                        if w_fires(l, m0, p0, y, key@, depth as int) {
                            assert(old(patches).fires(y, key@, depth as int));
                        }
                    }
                    lemma_w_none(l, m0, p0, key@, depth as int, 0);
                },
            }
        }
        let r = match fired {
            Some(i) => {
                patches.mark_parsed(i);
                self.emit_value(key, &list[i].data, depth, patches)
            },
            None => self.emit_value(key, v, depth, patches),
        };
        if r.is_err() {
            return r;
        }
        let ghost m2 = patches.matched();
        patches.step_back(depth);
        proof {
            assert(patches.matched() =~= old(patches).matched());
            assert(patches.matched() =~= w_back(m2, depth as int));
        }
        Ok(())
    }

    /// Writes `v` as field `key` at `depth`.
    fn emit_value(&mut self, key: &[u8], v: &Value, depth: usize, patches: &mut PatchList) -> (r:
        Result<(), Error>)
        requires
            old(self).ok(),
            old(patches).wf(),
            depth < LIMIT,
            old(patches).below(depth as int),
        ensures
            r is Ok ==> Serializer::grows(*old(self), *final(self), *old(patches), *final(patches)),
            r is Ok ==> final(patches).matched() == old(patches).matched(),
            r is Ok && old(patches).calm(depth + 1) ==> final(patches).parsed() == old(patches).parsed() && final(self).dst.bytes()->Some_0 == old(
                self,
            ).dst.bytes()->Some_0 + enc_value(key@, *v, depth as int, old(self).strings.bytes()).0
                && final(self).strings.bytes() == enc_value(
                key@,
                *v,
                depth as int,
                old(self).strings.bytes(),
            ).1,
            old(patches).list@.len() == 0 && writable(key@, *v) && old(self).dst.offset() + enc_value(
                key@,
                *v,
                depth as int,
                old(self).strings.bytes(),
            ).0.len() + 16 <= LIMIT && old(self).strings.bytes().len() + names_len(key@, *v) <= LIMIT
                && 8 * depth <= old(self).dst.offset() ==> r is Ok,
            r is Ok ==> wrote(
                w_value(
                    old(patches).list@,
                    key@,
                    *v,
                    depth as int,
                    old(self).strings.bytes(),
                    old(patches).matched(),
                    old(patches).parsed(),
                ),
                *old(self),
                *final(self),
                *final(patches),
            ),
        decreases unparsed(old(patches).parsed()), v, 1int,
    {
        match v {
            Value::Node(fields) => {
                let r = self.emit_node(key, fields, depth, patches);
                proof {
                    reveal(w_node);
                    reveal_with_fuel(w_value, 1);
                    assert(w_value(
                        old(patches).list@,
                        key@,
                        *v,
                        depth as int,
                        old(self).strings.bytes(),
                        old(patches).matched(),
                        old(patches).parsed(),
                    ) == w_node(
                        old(patches).list@,
                        key@,
                        fields@,
                        depth as int,
                        old(self).strings.bytes(),
                        old(patches).matched(),
                        old(patches).parsed(),
                    ));
                }
                r
            },
            _ => {
                let r = self.emit_prim(key, v);
                proof {
                    assert(old(patches).parsed().len() == old(patches).list@.len());
                }
                r
            },
        }
    }

    /// Adds, at the end of a node at `depth`, the patches matched down to it
    /// whose paths are one level longer and that are not yet written, in list
    /// order.
    #[verifier::rlimit(100)]
    fn emit_adds(&mut self, depth: usize, patches: &mut PatchList, fs: Ghost<Seq<Field>>) -> (r: Result<(), Error>)
        requires
            old(self).ok(),
            old(patches).wf(),
            depth + 1 < LIMIT,
            old(patches).below(depth as int),
        ensures
            r is Ok ==> Serializer::grows(*old(self), *final(self), *old(patches), *final(patches)),
            r is Ok ==> final(patches).matched() == old(patches).matched(),
            r is Ok ==> forall|i: int|
                0 <= i < old(patches).list@.len() && old(patches).matched()[i] == depth && old(
                    patches,
                ).list@[i].depth() == depth + 1 ==> final(patches).parsed()[i],
            old(patches).calm(depth + 1) ==> r is Ok && final(self).dst.bytes() == old(self).dst.bytes()
                && final(self).strings.bytes() == old(self).strings.bytes() && final(patches).parsed()
                == old(patches).parsed() && final(self).dst.offset() == old(self).dst.offset(),
            r is Ok ==> wrote(
                w_adds(
                    old(patches).list@,
                    fs@,
                    0,
                    depth as int,
                    old(self).strings.bytes(),
                    old(patches).matched(),
                    old(patches).parsed(),
                ),
                *old(self),
                *final(self),
                *final(patches),
            ),
        decreases unparsed(old(patches).parsed()), fs@, 0int,
    {
        let ghost s0 = *self;
        let ghost pat0 = *patches;
        let ghost l = patches.list@;
        let ghost t0 = self.strings.bytes();
        let ghost m0 = patches.matched();
        let ghost p0 = patches.parsed();
        let ghost b0 = self.dst.bytes()->Some_0;
        let ghost mut accw: Seq<u8> = seq![];
        let list = patches.list;
        let n_list = list.len();
        proof {
            assert(b0.subrange(0, b0.len() as int) =~= b0);
            assert(b0 + accw =~= b0);
        }
        let mut q: usize = 0;
        while q < n_list
            invariant
                Serializer::grows(s0, *self, pat0, *patches),
                s0 == *old(self),
                pat0 == *old(patches),
                l == pat0.list@,
                list@ == patches.list@,
                l == list@,
                n_list == l.len(),
                q <= n_list,
                depth + 1 < LIMIT,
                pat0.below(depth as int),
                patches.matched() == m0,
                m0 == pat0.matched(),
                p0 == pat0.parsed(),
                t0 == s0.strings.bytes(),
                b0 == s0.dst.bytes()->Some_0,
                PatchList::keeps_parsed(p0, patches.parsed()),
                forall|t: int|
                    0 <= t < q && m0[t] == depth && l[t].depth() == depth + 1 ==> patches.parsed()[t],
                pat0.calm(depth + 1) ==> self.dst.bytes() == s0.dst.bytes() && self.strings.bytes()
                    == t0 && patches.parsed() == p0 && self.dst.offset() == s0.dst.offset(),
                self.dst.bytes()->Some_0 == b0 + accw,
                w_adds(l, fs@, 0, depth as int, t0, m0, p0) == match w_adds(
                    l,
                    fs@,
                    q as int,
                    depth as int,
                    self.strings.bytes(),
                    patches.matched(),
                    patches.parsed(),
                ) {
                    Some(x) => Some((accw + x.0, x.1, x.2, x.3)),
                    None => None::<(Seq<u8>, Seq<u8>, Seq<usize>, Seq<bool>)>,
                },
            decreases n_list - q,
        {
            let pd = list[q].get_depth();
            let ghost pq = patches.parsed();
            let ghost tq = self.strings.bytes();
            if patches.matched[q] == depth && !patches.is_parsed(q) && pd > 0 && pd - 1 == depth {
                let ghost before = *self;
                patches.mark_parsed(q);
                let key2 = list[q].get_depth_path(depth + 1);
                match self.emit_value(key2, &list[q].data, depth + 1, patches) {
                    Ok(()) => {},
                    Err(e) => {
                        return Err(e);
                    },
                }
                proof {
                    lemma_prefix_trans(s0.dst.bytes()->Some_0, before.dst.bytes()->Some_0, self.dst.bytes()->Some_0);
                    if pat0.calm(depth + 1) {
                        assert(p0[q as int] || m0[q as int] + 2 <= depth + 1);
                    }
                    let a = w_value(
                        l,
                        crate::patch::component(l[q as int].name@, depth + 1),
                        l[q as int].data,
                        depth + 1,
                        tq,
                        m0,
                        pq.update(q as int, true),
                    )->Some_0;
                    match w_adds(l, fs@, q + 1, depth as int, a.1, a.2, a.3) {
                        Some(x) => {
                            assert(accw + (a.0 + x.0) =~= (accw + a.0) + x.0);
                        },
                        None => {},
                    }
                    assert(b0 + accw + a.0 =~= b0 + (accw + a.0));
                    accw = accw + a.0;
                }
            }
            q = q + 1;
        }
        proof {
            assert(w_adds(l, fs@, n_list as int, depth as int, self.strings.bytes(), patches.matched(), patches.parsed())->Some_0.0 =~= Seq::<u8>::empty());
            assert(accw + Seq::<u8>::empty() =~= accw);
        }
        Ok(())
    }

    /// Writes the fields of a node at `depth`, at `depth + 1`.
    #[verifier::rlimit(100)]
    fn emit_fields(&mut self, fields: &Vec<Field>, depth: usize, patches: &mut PatchList) -> (r: Result<(), Error>)
        requires
            old(self).ok(),
            old(patches).wf(),
            depth + 1 < LIMIT,
            old(patches).below(depth as int),
        ensures
            r is Ok ==> Serializer::grows(*old(self), *final(self), *old(patches), *final(patches)),
            r is Ok ==> final(patches).matched() == old(patches).matched(),
            r is Ok && old(patches).calm(depth + 1) ==> final(patches).parsed() == old(patches).parsed()
                && final(self).dst.bytes()->Some_0 == old(self).dst.bytes()->Some_0 + enc_fields(
                fields@,
                0,
                depth + 1,
                old(self).strings.bytes(),
            ).0 && final(self).strings.bytes() == enc_fields(
                fields@,
                0,
                depth + 1,
                old(self).strings.bytes(),
            ).1,
            old(patches).list@.len() == 0 && fields_writable(fields@, 0) && old(self).dst.offset()
                + enc_fields(fields@, 0, depth + 1, old(self).strings.bytes()).0.len() + 4 + 16 <= LIMIT
                && old(self).strings.bytes().len() + fields_names(fields@, 0) <= LIMIT && 8 * (depth + 1)
                <= old(self).dst.offset() ==> r is Ok,
            r is Ok ==> wrote(
                w_fields(
                    old(patches).list@,
                    fields@,
                    0,
                    depth + 1,
                    old(self).strings.bytes(),
                    old(patches).matched(),
                    old(patches).parsed(),
                ),
                *old(self),
                *final(self),
                *final(patches),
            ),
        decreases unparsed(old(patches).parsed()), fields, 0int,
    {
        let ghost s0 = *self;
        let ghost start_patches = *patches;
        let ghost bh = self.dst.bytes()->Some_0;
        let ghost t0 = self.strings.bytes();
        let ghost d1 = depth + 1;
        let ghost lw = start_patches.list@;
        let ghost mut acc: Seq<u8> = seq![];
        let ghost mut accw: Seq<u8> = seq![];
        let ghost want = start_patches.list@.len() == 0 && fields_writable(fields@, 0) && old(self).dst.offset()
            + enc_fields(fields@, 0, depth + 1, old(self).strings.bytes()).0.len() + 4 + 16 <= LIMIT
            && old(self).strings.bytes().len() + fields_names(fields@, 0) <= LIMIT && 8 * (depth + 1)
            <= old(self).dst.offset();
        proof {
            assert(bh.subrange(0, bh.len() as int) =~= bh);
            assert(bh + acc =~= bh);
        }
        let mut i: usize = 0;
        while i < fields.len()
            invariant
                Serializer::grows(s0, *self, start_patches, *patches),
                is_prefix(bh, self.dst.bytes()->Some_0),
                bh == s0.dst.bytes()->Some_0,
                s0 == *old(self),
                start_patches == *old(patches),
                patches.matched() == start_patches.matched(),
                start_patches.below(depth as int),
                depth + 1 < LIMIT,
                d1 == depth + 1,
                t0 == old(self).strings.bytes(),
                lw == start_patches.list@,
                i <= fields@.len(),
                start_patches.calm(depth + 1) ==> patches.parsed() == start_patches.parsed(),
                start_patches.calm(depth + 1) ==> self.dst.bytes()->Some_0 == bh + acc && enc_fields(
                    fields@,
                    0,
                    d1,
                    t0,
                ) == (
                    acc + enc_fields(fields@, i as int, d1, self.strings.bytes()).0,
                    enc_fields(fields@, i as int, d1, self.strings.bytes()).1,
                ),
                self.dst.bytes()->Some_0 == bh + accw,
                w_fields(lw, fields@, 0, d1, t0, start_patches.matched(), start_patches.parsed()) == match w_fields(
                    lw,
                    fields@,
                    i as int,
                    d1,
                    self.strings.bytes(),
                    patches.matched(),
                    patches.parsed(),
                ) {
                    Some(x) => Some((accw + x.0, x.1, x.2, x.3)),
                    None => None::<(Seq<u8>, Seq<u8>, Seq<usize>, Seq<bool>)>,
                },
                want == (start_patches.list@.len() == 0 && fields_writable(fields@, 0) && old(self).dst.offset()
                    + enc_fields(fields@, 0, depth + 1, old(self).strings.bytes()).0.len() + 4 + 16 <= LIMIT
                    && old(self).strings.bytes().len() + fields_names(fields@, 0) <= LIMIT && 8 * (depth
                    + 1) <= old(self).dst.offset()),
                want ==> start_patches.list@.len() == 0,
                want ==> self.dst.offset() + enc_fields(fields@, i as int, d1, self.strings.bytes()).0.len()
                    + 4 + 16 <= LIMIT && self.strings.bytes().len() + fields_names(fields@, i as int)
                    <= LIMIT && 8 * d1 <= self.dst.offset() && fields_writable(fields@, i as int),
            decreases fields.len() - i,
        {
            let ghost before = *self;
            let f = &fields[i];
            let ghost tb = self.strings.bytes();
            let ghost mb = patches.matched();
            let ghost pbw = patches.parsed();
            proof {
                assert(decreases_to!(fields => fields@[i as int].value));
                assert(f.name@ == fields@[i as int].name@);
                if want {
                    let a = enc_value(fields@[i as int].name@, fields@[i as int].value, d1, tb);
                    assert(enc_fields(fields@, i as int, d1, tb).0 == a.0 + enc_fields(
                        fields@,
                        i + 1,
                        d1,
                        a.1,
                    ).0);
                    lemma_fields_names_nonneg(fields@, i + 1);
                    assert(fields_writable(fields@, i as int));
                    assert(writable(f.name@, f.value));
                }
            }
            match self.emit_field(f.name.as_slice(), &f.value, depth + 1, patches) {
                Ok(()) => {},
                Err(e) => {
                    return Err(e);
                },
            }
            proof {
                lemma_prefix_trans(s0.dst.bytes()->Some_0, before.dst.bytes()->Some_0, self.dst.bytes()->Some_0);
                {
                    let a = w_field(lw, fields@[i as int].name@, fields@[i as int].value, d1, tb, mb, pbw)->Some_0;
                    assert(unparsed(a.3) <= unparsed(pbw));
                    match w_fields(lw, fields@, i + 1, d1, a.1, a.2, a.3) {
                        Some(x) => {
                            assert(accw + (a.0 + x.0) =~= (accw + a.0) + x.0);
                        },
                        None => {},
                    }
                    assert(bh + accw + a.0 =~= bh + (accw + a.0));
                    accw = accw + a.0;
                }
                if start_patches.calm(depth + 1) {
                    let a = enc_value(fields@[i as int].name@, fields@[i as int].value, d1, tb);
                    assert(enc_fields(fields@, i as int, d1, tb) == (
                        a.0 + enc_fields(fields@, i + 1, d1, a.1).0,
                        enc_fields(fields@, i + 1, d1, a.1).1,
                    ));
                    assert(acc + a.0 + enc_fields(fields@, i + 1, d1, a.1).0 =~= acc + (a.0
                        + enc_fields(fields@, i + 1, d1, a.1).0));
                    lemma_names_growth(fields@[i as int].name@, fields@[i as int].value, d1, tb);
                    assert(bh + (acc + a.0) =~= bh + acc + a.0);
                    acc = acc + a.0;
                }
            }
            i = i + 1;
        }
        proof {
            assert(w_fields(lw, fields@, fields@.len() as int, d1, self.strings.bytes(), patches.matched(), patches.parsed())
                == Some((Seq::<u8>::empty(), self.strings.bytes(), patches.matched(), patches.parsed())));
            assert(accw + Seq::<u8>::empty() =~= accw);
            if start_patches.calm(depth + 1) {
                assert(enc_fields(fields@, fields@.len() as int, d1, self.strings.bytes()).0 =~= seq![]);
                assert(acc + seq![] =~= acc);
            }
        }
        Ok(())
    }

    /// Writes a node named `key` at `depth` (the root at depth zero, with
    /// an empty name): its fields, then the patches to add to it.
    #[verifier::spinoff_prover]
    #[verifier::rlimit(100)]
    fn emit_node(&mut self, key: &[u8], fields: &Vec<Field>, depth: usize, patches: &mut PatchList) -> (r:
        Result<(), Error>)
        requires
            old(self).ok(),
            old(patches).wf(),
            depth < LIMIT,
            old(patches).below(depth as int),
        ensures
            r is Ok ==> Serializer::grows(*old(self), *final(self), *old(patches), *final(patches)),
            r is Ok ==> final(patches).matched() == old(patches).matched(),
            r is Ok ==> forall|i: int|
                0 <= i < old(patches).list@.len() && old(patches).matched()[i] == depth && old(
                    patches,
                ).list@[i].depth() == depth + 1 ==> final(patches).parsed()[i],
            r is Ok && depth == 0 ==> is_prefix(
                old(self).dst.bytes()->Some_0 + be_bytes(FDT_BEGIN_NODE) + be_bytes(0),
                final(self).dst.bytes()->Some_0,
            ),
            r is Ok ==> final(self).dst.bytes()->Some_0.len() >= old(self).dst.bytes()->Some_0.len() + 12
                && final(self).dst.bytes()->Some_0.subrange(
                final(self).dst.bytes()->Some_0.len() - 4,
                final(self).dst.bytes()->Some_0.len() as int,
            ) == be_bytes(FDT_END_NODE),
            r is Ok && old(patches).calm(depth + 1) ==> final(patches).parsed() == old(patches).parsed() && final(self).dst.bytes()->Some_0 == old(
                self,
            ).dst.bytes()->Some_0 + enc_node(key@, fields@, depth as int, old(self).strings.bytes()).0
                && final(self).strings.bytes() == enc_node(
                key@,
                fields@,
                depth as int,
                old(self).strings.bytes(),
            ).1,
            old(patches).list@.len() == 0 && fields_writable(fields@, 0) && old(self).dst.offset()
                + enc_node(key@, fields@, depth as int, old(self).strings.bytes()).0.len() + 16 <= LIMIT
                && old(self).strings.bytes().len() + fields_names(fields@, 0) <= LIMIT && 8 * depth
                <= old(self).dst.offset() ==> r is Ok,
            r is Ok ==> wrote(
                w_node(
                    old(patches).list@,
                    key@,
                    fields@,
                    depth as int,
                    old(self).strings.bytes(),
                    old(patches).matched(),
                    old(patches).parsed(),
                ),
                *old(self),
                *final(self),
                *final(patches),
            ),
        decreases unparsed(old(patches).parsed()), fields, 1int,
    {
        let ghost s0 = *self;
        let ghost start_patches = *patches;
        let ghost b0 = self.dst.bytes()->Some_0;
        let ghost t0 = self.strings.bytes();
        let ghost lw = start_patches.list@;
        if depth >= LIMIT - 1 || !self.fits(8) || (depth != 0 && key.len() > LIMIT - 16
            - self.dst.get_offset()) {
            return Err(Error::TooLarge);
        }
        self.dst.step_by_u32(FDT_BEGIN_NODE);
        if depth == 0 {
            self.dst.step_by_u32(0);
        } else {
            self.dst.step_by_name(key);
        }
        let ghost bh = self.dst.bytes()->Some_0;
        proof {
            assert(self.dst.bytes()->Some_0.subrange(0, b0.len() as int) =~= b0);
            if depth == 0 {
                assert(bh =~= b0 + be_bytes(FDT_BEGIN_NODE) + be_bytes(0));
            } else {
                assert((b0.len() + 4 + key@.len() + 1) % 4 == (key@.len() + 1) % 4);
            }
            assert(bh =~= b0 + be_bytes(FDT_BEGIN_NODE) + node_name(key@, depth as int));
        }
        let ghost sh = *self;
        if let Err(e) = self.emit_fields(fields, depth, patches) {
            return Err(e);
        }
        let ghost sf = *self;
        let ghost pf = *patches;
        proof {
            lemma_prefix_trans(b0, bh, self.dst.bytes()->Some_0);
        }
        if let Err(e) = self.emit_adds(depth, patches, Ghost(fields@)) {
            return Err(e);
        }
        proof {
            lemma_prefix_trans(b0, sf.dst.bytes()->Some_0, self.dst.bytes()->Some_0);
            lemma_prefix_trans(bh, sf.dst.bytes()->Some_0, self.dst.bytes()->Some_0);
        }
        if !self.fits(4) {
            return Err(Error::TooLarge);
        }
        let ghost b1 = self.dst.bytes()->Some_0;
        self.dst.step_by_u32(FDT_END_NODE);
        proof {
            let b2 = self.dst.bytes()->Some_0;
            assert(b2.subrange(0, b1.len() as int) =~= b1);
            lemma_prefix_trans(b0, b1, b2);
            lemma_prefix_trans(bh, b1, b2);
            assert(b2.subrange(b2.len() - 4, b2.len() as int) =~= be_bytes(FDT_END_NODE));
            if depth == 0 {
                assert(b2.subrange(0, bh.len() as int) == bh);
            }
            let f = w_fields(lw, fields@, 0, depth + 1, t0, start_patches.matched(), start_patches.parsed())->Some_0;
            let a = w_adds(lw, fields@, 0, depth as int, f.1, f.2, f.3)->Some_0;
            assert(unparsed(f.3) <= unparsed(start_patches.parsed()));
            lemma_w_node(lw, key@, fields@, depth as int, t0, start_patches.matched(), start_patches.parsed());
            assert(b2 =~= b0 + (be_bytes(FDT_BEGIN_NODE) + node_name(key@, depth as int) + f.0 + a.0
                + be_bytes(FDT_END_NODE)));
            if start_patches.calm(depth + 1) {
                assert(b2 =~= b0 + (be_bytes(FDT_BEGIN_NODE) + node_name(key@, depth as int) + enc_fields(
                    fields@,
                    0,
                    depth + 1,
                    t0,
                ).0 + be_bytes(FDT_END_NODE)));
            }
        }
        Ok(())
    }

    fn strings_len(&self) -> (r: usize)
        requires
            self.ok(),
        ensures
            r == self.strings.bytes().len(),
    {
        self.strings.len()
    }
}

} // verus!

verus! {

/// Reading back the four big-endian bytes of `v` gives `v`.
pub proof fn lemma_be_round_trip(v: u32)
    ensures
        be_u32(be_bytes(v), 0) == v,
{
    let b = be_bytes(v);
    assert(b[0] as int == v as int / 0x100_0000);
    assert(b[1] as int == v as int / 0x1_0000 % 0x100);
    assert(b[2] as int == v as int / 0x100 % 0x100);
    assert(b[3] as int == v as int % 0x100);
    assert((v as int / 0x100_0000) * 0x100_0000 + (v as int / 0x1_0000 % 0x100) * 0x1_0000 + (v as int
        / 0x100 % 0x100) * 0x100 + v as int % 0x100 == v as int) by (nonlinear_arith)
        requires
            0 <= v <= u32::MAX,
    ;
}

/// The word at byte `i` of `s` is `v` where the bytes there are `v`'s.
pub proof fn lemma_word_at(s: Seq<u8>, i: int, v: u32)
    requires
        0 <= i,
        i + 4 <= s.len(),
        s.subrange(i, i + 4) == be_bytes(v),
    ensures
        be_u32(s, i) == v,
{
    lemma_be_round_trip(v);
    let b = be_bytes(v);
    assert(s[i] == s.subrange(i, i + 4)[0]);
    assert(s[i + 1] == s.subrange(i, i + 4)[1]);
    assert(s[i + 2] == s.subrange(i, i + 4)[2]);
    assert(s[i + 3] == s.subrange(i, i + 4)[3]);
}

/// The header words of a blob with a structure block of `ls` bytes and a
/// string block of `lt` bytes, laid out header, map, structure, strings.
pub open spec fn header_words(ls: int, lt: int) -> Seq<u32> {
    let total = HEADER_LEN + RSVMAP_LEN + ls + lt;
    seq![
        DEVICE_TREE_MAGIC,
        total as u32,
        (HEADER_LEN + RSVMAP_LEN) as u32,
        (HEADER_LEN + RSVMAP_LEN + ls) as u32,
        HEADER_LEN,
        SUPPORTED_VERSION,
        SUPPORTED_VERSION,
        0u32,
        lt as u32,
        ls as u32,
    ]
}

/// The bytes of a list of words.
pub open spec fn words_bytes(w: Seq<u32>) -> Seq<u8>
    decreases w.len(),
{
    if w.len() == 0 {
        seq![]
    } else {
        words_bytes(w.drop_last()) + be_bytes(w.last())
    }
}

proof fn lemma_words_bytes(w: Seq<u32>, k: int)
    requires
        0 <= k < w.len(),
    ensures
        words_bytes(w).len() == 4 * w.len(),
        words_bytes(w).subrange(4 * k, 4 * k + 4) == be_bytes(w[k]),
    decreases w.len(),
{
    lemma_words_len(w);
    if k < w.len() - 1 {
        lemma_words_bytes(w.drop_last(), k);
        lemma_words_len(w.drop_last());
        assert(words_bytes(w).subrange(4 * k, 4 * k + 4) =~= words_bytes(w.drop_last()).subrange(
            4 * k,
            4 * k + 4,
        ));
    } else {
        lemma_words_len(w.drop_last());
        assert(words_bytes(w).subrange(4 * k, 4 * k + 4) =~= be_bytes(w.last()));
    }
}

proof fn lemma_words_len(w: Seq<u32>)
    ensures
        words_bytes(w).len() == 4 * w.len(),
    decreases w.len(),
{
    if w.len() > 0 {
        lemma_words_len(w.drop_last());
    }
}

/// The blob laid out from a structure block `s` and a string block `t`.
pub open spec fn blob_of(s: Seq<u8>, t: Seq<u8>) -> Seq<u8> {
    words_bytes(header_words(s.len() as int, t.len() as int)) + Seq::new(
        RSVMAP_LEN as nat,
        |i: int| 0u8,
    ) + s + t
}

/// A structure block that opens the root with an empty name and ends with
/// `END_NODE`, `END`.
pub open spec fn framed(s: Seq<u8>) -> bool {
    &&& s.len() % 4 == 0
    &&& s.len() >= 16
    &&& s.subrange(0, 4) == be_bytes(FDT_BEGIN_NODE)
    &&& s.subrange(4, 8) == be_bytes(0)
    &&& s.subrange(s.len() - 8, s.len() - 4) == be_bytes(FDT_END_NODE)
    &&& s.subrange(s.len() - 4, s.len() as int) == be_bytes(FDT_END)
}

/// The header words of a laid-out blob read back as written.
#[verifier::rlimit(60)]
proof fn lemma_header_words(s: Seq<u8>, t: Seq<u8>)
    requires
        s.len() <= LIMIT,
        t.len() <= LIMIT,
    ensures
        forall|k: int|
            0 <= k < 10 ==> #[trigger] word(blob_of(s, t), k) == header_words(
                s.len() as int,
                t.len() as int,
            )[k],
{
    let w = header_words(s.len() as int, t.len() as int);
    let h = words_bytes(w);
    let b = blob_of(s, t);
    lemma_words_len(w);
    assert forall|k: int| 0 <= k < 10 implies #[trigger] word(b, k) == w[k] by {
        lemma_words_bytes(w, k);
        assert(b.subrange(4 * k, 4 * k + 4) =~= h.subrange(4 * k, 4 * k + 4));
        lemma_word_at(b, 4 * k, w[k]);
    }
}

/// The structure block's framing words read back from a laid-out blob.
#[verifier::rlimit(60)]
proof fn lemma_frame_words(s: Seq<u8>, t: Seq<u8>)
    requires
        framed(s),
        s.len() <= LIMIT,
        t.len() <= LIMIT,
    ensures
        be_u32(blob_of(s, t), 56) == FDT_BEGIN_NODE,
        be_u32(blob_of(s, t), 60) == 0,
        be_u32(blob_of(s, t), 56 + s.len() - 8) == FDT_END_NODE,
        be_u32(blob_of(s, t), 56 + s.len() - 4) == FDT_END,
{
    let w = header_words(s.len() as int, t.len() as int);
    let b = blob_of(s, t);
    lemma_words_len(w);
    let base = 56int;
    assert(b.subrange(base, base + 4) =~= s.subrange(0, 4));
    lemma_word_at(b, base, FDT_BEGIN_NODE);
    assert(b.subrange(base + 4, base + 8) =~= s.subrange(4, 8));
    lemma_word_at(b, base + 4, 0);
    assert(b.subrange(base + s.len() - 8, base + s.len() - 4) =~= s.subrange(
        s.len() - 8,
        s.len() - 4,
    ));
    lemma_word_at(b, base + s.len() - 8, FDT_END_NODE);
    assert(b.subrange(base + s.len() - 4, base + s.len()) =~= s.subrange(
        s.len() - 4,
        s.len() as int,
    ));
    lemma_word_at(b, base + s.len() - 4, FDT_END);
}

/// A blob laid out from a framed structure block passes the header checklist.
pub proof fn lemma_blob_valid(s: Seq<u8>, t: Seq<u8>)
    requires
        framed(s),
        s.len() <= LIMIT,
        t.len() <= LIMIT,
    ensures
        crate::dtb::blob_check(blob_of(s, t)) is Ok,
{
    let w = header_words(s.len() as int, t.len() as int);
    let b = blob_of(s, t);
    lemma_words_len(w);
    lemma_header_words(s, t);
    lemma_frame_words(s, t);
    let n = s.len() as int / 4;
    assert(4 * (n - 2) == s.len() - 8);
    assert(4 * (n - 1) == s.len() - 4);
    assert(word(b, 0) == w[0]);
    assert(word(b, 1) == w[1]);
    assert(word(b, 2) == w[2]);
    assert(word(b, 3) == w[3]);
    assert(word(b, 4) == w[4]);
    assert(word(b, 6) == w[6]);
    assert(word(b, 8) == w[8]);
    assert(word(b, 9) == w[9]);
}

/// The blob written for `data` with no patches.
pub open spec fn encode_spec(data: Value) -> Seq<u8> {
    match data {
        Value::Node(fs) => {
            let e = enc_node(seq![], fs@, 0, seq![]);
            blob_of(e.0 + be_bytes(FDT_END), e.1)
        },
        _ => seq![],
    }
}

/// Writes the root node `fields` and the final `END`: the structure block
/// and the string block.
#[verifier::rlimit(60)]
fn emit_root(fields: &Vec<Field>, patches: &mut PatchList) -> (r: Result<(Vec<u8>, Vec<u8>), Error>)
    requires
        old(patches).wf(),
        old(patches).below(0),
    ensures
        r is Ok ==> forall|i: int|
            0 <= i < old(patches).list@.len() && old(patches).matched()[i] == 0 && old(
                patches,
            ).list@[i].depth() == 1 ==> final(patches).parsed()[i],
        old(patches).list@.len() == 0 && fields_writable(fields@, 0) && enc_node(
            seq![],
            fields@,
            0,
            seq![],
        ).0.len() + 16 <= LIMIT && fields_names(fields@, 0) <= LIMIT ==> r is Ok,
        r matches Ok((s, t)) ==> framed(s@) && s@.len() <= LIMIT && t@.len() <= LIMIT,
        old(patches).list@.len() == 0 ==> (r matches Ok((s, t)) ==> s@ == enc_node(
            seq![],
            fields@,
            0,
            seq![],
        ).0 + be_bytes(FDT_END) && t@ == enc_node(seq![], fields@, 0, seq![]).1),
        r is Ok ==> final(patches).wf() && final(patches).list == old(patches).list
            && PatchList::keeps_parsed(old(patches).parsed(), final(patches).parsed()),
        r matches Ok((s, t)) ==> w_node(
            old(patches).list@,
            seq![],
            fields@,
            0,
            seq![],
            old(patches).matched(),
            old(patches).parsed(),
        ) is Some && s@ == w_node(
            old(patches).list@,
            seq![],
            fields@,
            0,
            seq![],
            old(patches).matched(),
            old(patches).parsed(),
        )->Some_0.0 + be_bytes(FDT_END) && t@ == w_node(
            old(patches).list@,
            seq![],
            fields@,
            0,
            seq![],
            old(patches).matched(),
            old(patches).parsed(),
        )->Some_0.1,
{
    let mut ser = Serializer { dst: Pointer::new(Some(Vec::new())), strings: StringBlock::new() };
    let empty: [u8; 0] = [];
    let key = empty.as_slice();
    proof {
        assert(key@ =~= seq![]);
        assert(ser.dst.bytes()->Some_0 =~= seq![]);
    }
    if let Err(e) = ser.emit_node(key, fields, 0, patches) {
        return Err(e);
    }
    if !ser.fits(4) {
        return Err(Error::TooLarge);
    }
    let ghost s1 = ser.dst.bytes()->Some_0;
    ser.dst.step_by_u32(FDT_END);
    let s = ser.dst.into_data().unwrap();
    let t = ser.strings.into_bytes();
    proof {
        let head = Seq::<u8>::empty() + be_bytes(FDT_BEGIN_NODE) + be_bytes(0);
        assert(s1.subrange(0, 8) == head);
        assert(s@ =~= s1 + be_bytes(FDT_END));
        assert(s@.subrange(0, 4) =~= head.subrange(0, 4));
        assert(head.subrange(0, 4) =~= be_bytes(FDT_BEGIN_NODE));
        assert(s@.subrange(4, 8) =~= head.subrange(4, 8));
        assert(head.subrange(4, 8) =~= be_bytes(0));
        assert(s@.subrange(s@.len() - 8, s@.len() - 4) =~= s1.subrange(s1.len() - 4, s1.len() as int));
        assert(s@.subrange(s@.len() - 4, s@.len() as int) =~= be_bytes(FDT_END));
    }
    Ok((s, t))
}

/// Lays out header, reservation map, structure block and string block.
#[verifier::rlimit(60)]
fn assemble(s: &Vec<u8>, t: &Vec<u8>) -> (r: Vec<u8>)
    requires
        s@.len() <= LIMIT,
        t@.len() <= LIMIT,
    ensures
        r@ == blob_of(s@, t@),
{
    let ls = s.len();
    let lt = t.len();
    let mut out = Pointer::new(Some(Vec::new()));
    out.step_by_u32(DEVICE_TREE_MAGIC);
    out.step_by_u32((HEADER_LEN as usize + RSVMAP_LEN + ls + lt) as u32);
    out.step_by_u32((HEADER_LEN as usize + RSVMAP_LEN) as u32);
    out.step_by_u32((HEADER_LEN as usize + RSVMAP_LEN + ls) as u32);
    out.step_by_u32(HEADER_LEN);
    out.step_by_u32(SUPPORTED_VERSION);
    out.step_by_u32(SUPPORTED_VERSION);
    out.step_by_u32(0);
    out.step_by_u32(lt as u32);
    out.step_by_u32(ls as u32);
    proof {
        let w = header_words(ls as int, lt as int);
        reveal_with_fuel(words_bytes, 11);
        assert(out.bytes()->Some_0 =~= words_bytes(w));
    }
    out.step_by_len(RSVMAP_LEN);
    out.step_by_bytes(s.as_slice());
    out.step_by_bytes(t.as_slice());
    let b = out.into_data().unwrap();
    proof {
        assert(b@ =~= blob_of(s@, t@));
    }
    b
}

/// Writes `data`, a node, as a blob, applying the patches (see `encode_with`).
pub fn encode(data: &Value, patches: &mut PatchList) -> (r: Result<Vec<u8>, Error>)
    requires
        old(patches).wf(),
        forall|i: int| 0 <= i < old(patches).list@.len() ==> old(patches).matched()[i] == 0,
    ensures
        r is Ok ==> forall|i: int|
            0 <= i < old(patches).list@.len() && old(patches).list@[i].depth() == 1
                ==> final(patches).parsed()[i],
        r matches Ok(b) ==> crate::dtb::blob_check(b@) is Ok,
        r matches Ok(b) ==> exists|s: Seq<u8>, t: Seq<u8>| framed(s) && b@ == blob_of(s, t),
        old(patches).list@.len() == 0 ==> (r matches Ok(b) ==> b@ == encode_spec(*data)),
        old(patches).list@.len() == 0 && encodable(*data) ==> r is Ok,
        (forall|i: int| 0 <= i < old(patches).list@.len() ==> !old(patches).parsed()[i]) ==> (r matches Ok(
            b,
        ) ==> encode_with(*data, old(patches).list@) == Some(b@)),
        r is Ok ==> final(patches).wf() && final(patches).list == old(patches).list
            && PatchList::keeps_parsed(old(patches).parsed(), final(patches).parsed()),
        !(data is Node) ==> r == Err::<Vec<u8>, Error>(Error::Unknown),
{
    let fields = match data {
        Value::Node(f) => f,
        _ => {
            return Err(Error::Unknown);
        },
    };
    let (s, t) = match emit_root(fields, patches) {
        Ok(x) => x,
        Err(e) => {
            return Err(e);
        },
    };
    let b = assemble(&s, &t);
    proof {
        lemma_blob_valid(s@, t@);
        let l = old(patches).list@;
        assert(old(patches).matched() =~= Seq::new(l.len(), |i: int| 0usize));
        if forall|i: int| 0 <= i < l.len() ==> !old(patches).parsed()[i] {
            assert(old(patches).parsed() =~= Seq::new(l.len(), |i: int| false));
        }
    }
    Ok(b)
}

/// Writes `data` as a blob into `writer`, applying `list`; returns the
/// blob's length. The blob is `encode_with(data, list)`: each field whose path
/// a patch completes is replaced by that patch, each patch whose parent is
/// reached and that is still unwritten is added after that node's own fields,
/// and no patch is written twice. The rest of `writer` is left as it was.
#[verifier::rlimit(60)]
pub fn to_dtb(data: &Value, list: &[Patch], writer: &mut [u8]) -> (r: Result<usize, Error>)
    ensures
        r matches Ok(n) ==> n <= old(writer)@.len() && crate::dtb::blob_check(
            final(writer)@.subrange(0, n as int),
        ) is Ok && final(writer)@.subrange(n as int, final(writer)@.len() as int) == old(
            writer,
        )@.subrange(n as int, old(writer)@.len() as int),
        r is Err ==> final(writer)@ == old(writer)@,
        final(writer)@.len() == old(writer)@.len(),
        list@.len() == 0 ==> (r matches Ok(n) ==> final(writer)@.subrange(0, n as int) == encode_spec(
            *data,
        )),
        list@.len() == 0 && encodable(*data) && encode_spec(*data).len() <= old(writer)@.len() ==> r
            == Ok::<usize, Error>(encode_spec(*data).len() as usize),
        r matches Ok(n) ==> encode_with(*data, list@) == Some(final(writer)@.subrange(0, n as int)),
{
    let mut patches = PatchList::new(list);
    let b = match encode(data, &mut patches) {
        Ok(b) => b,
        Err(e) => {
            return Err(e);
        },
    };
    if b.len() > writer.len() {
        return Err(Error::BufferTooSmall);
    }
    let mut i: usize = 0;
    while i < b.len()
        invariant
            i <= b@.len(),
            b@.len() <= writer@.len(),
            writer@.len() == old(writer)@.len(),
            forall|k: int| 0 <= k < i ==> writer@[k] == b@[k],
            forall|k: int| i <= k < writer@.len() ==> writer@[k] == old(writer)@[k],
        decreases b.len() - i,
    {
        writer[i] = b[i];
        i = i + 1;
    }
    proof {
        assert(writer@.subrange(0, b@.len() as int) =~= b@);
        assert(writer@.subrange(b@.len() as int, writer@.len() as int) =~= old(writer)@.subrange(
            b@.len() as int,
            old(writer)@.len() as int,
        ));
    }
    Ok(b.len())
}

} // verus!

verus! {

/// The bytes of primitive values written one after another, with no framing.
pub open spec fn prims_bytes(items: Seq<Value>) -> Seq<u8>
    decreases items.len(),
{
    if items.len() == 0 {
        seq![]
    } else {
        prims_bytes(items.drop_last()) + prim_data(items.last())
    }
}

/// A sequence of primitive values as one property value: their bytes one
/// after another. A node among them, or a value over `LIMIT` bytes, is refused.
pub fn join_prims(items: &Vec<Value>) -> (r: Result<Value, Error>)
    ensures
        r matches Ok(v) ==> v is Bytes && v->Bytes_0@ == prims_bytes(items@),
        (exists|i: int| 0 <= i < items@.len() && items@[i] is Node) ==> r is Err,
        (forall|i: int| 0 <= i < items@.len() ==> !(items@[i] is Node)) && prims_bytes(items@).len()
            <= LIMIT ==> r is Ok,
{
    let mut out = Pointer::new(Some(Vec::new()));
    let mut i: usize = 0;
    proof {
        assert(items@.take(0) =~= Seq::<Value>::empty());
    }
    while i < items.len()
        invariant
            out.wf(),
            out.bytes() is Some,
            out.offset() <= LIMIT,
            i <= items@.len(),
            out.bytes()->Some_0 == prims_bytes(items@.take(i as int)),
            forall|t: int| 0 <= t < i ==> !(items@[t] is Node),
        decreases items.len() - i,
    {
        let ghost b0 = out.bytes()->Some_0;
        proof {
            lemma_prims_prefix(items@, i + 1);
            assert(items@.take(i + 1).drop_last() =~= items@.take(i as int));
            assert(items@.take(i + 1).last() == items@[i as int]);
            assert(prims_bytes(items@.take(i + 1)) == b0 + prim_data(items@[i as int]));
            assert(b0.len() + prim_data(items@[i as int]).len() <= prims_bytes(items@).len());
        }
        let fits = LIMIT - out.get_offset();
        match &items[i] {
            Value::U32(x) => {
                if fits < 4 {
                    return Err(Error::TooLarge);
                }
                out.step_by_u32(*x);
            },
            Value::Str(b) => {
                if b.len() >= fits {
                    return Err(Error::TooLarge);
                }
                out.step_by_bytes(b.as_slice());
                out.step_by_u8(0);
                proof {
                    assert((b0 + b@).push(0u8) =~= b0 + (b@ + seq![0u8]));
                }
            },
            Value::Bytes(b) => {
                if b.len() > fits {
                    return Err(Error::TooLarge);
                }
                out.step_by_bytes(b.as_slice());
            },
            Value::U32Seq(ws) => {
                proof {
                    lemma_words_len(ws@);
                }
                if ws.len() > fits / 4 {
                    return Err(Error::TooLarge);
                }
                let mut j: usize = 0;
                proof {
                    assert(ws@.take(0) =~= Seq::<u32>::empty());
                    assert(b0 + Seq::<u8>::empty() =~= b0);
                }
                while j < ws.len()
                    invariant
                        out.wf(),
                        out.bytes() is Some,
                        j <= ws@.len(),
                        ws@.len() <= fits / 4,
                        fits == LIMIT - out.offset() + 4 * j,
                        out.offset() == b0.len() + 4 * j,
                        out.bytes()->Some_0 == b0 + words_bytes(ws@.take(j as int)),
                    decreases ws.len() - j,
                {
                    out.step_by_u32(ws[j]);
                    proof {
                        assert(ws@.take(j + 1).drop_last() =~= ws@.take(j as int));
                        assert(out.bytes()->Some_0 =~= b0 + words_bytes(ws@.take(j + 1)));
                    }
                    j = j + 1;
                }
                proof {
                    assert(ws@.take(ws@.len() as int) =~= ws@);
                }
            },
            Value::Node(_) => {
                return Err(Error::Unknown);
            },
        }
        proof {
            assert(items@.take(i + 1).drop_last() =~= items@.take(i as int));
            assert(items@.take(i + 1).last() == items@[i as int]);
        }
        i = i + 1;
    }
    proof {
        assert(items@.take(items@.len() as int) =~= items@);
    }
    Ok(Value::Bytes(out.into_data().unwrap()))
}

/// The bytes of a prefix of the list are a prefix of the bytes of the list.
proof fn lemma_prims_prefix(items: Seq<Value>, i: int)
    requires
        0 <= i <= items.len(),
    ensures
        prims_bytes(items.take(i)).len() <= prims_bytes(items).len(),
    decreases items.len() - i,
{
    if i < items.len() {
        lemma_prims_prefix(items, i + 1);
        assert(items.take(i + 1).drop_last() =~= items.take(i));
    } else {
        assert(items.take(i) =~= items);
    }
}

} // verus!
