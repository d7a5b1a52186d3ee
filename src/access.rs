use vstd::prelude::*;
use vstd::string::StringSliceAdditionalSpecFns;
use crate::common::{FDT_BEGIN_NODE, FDT_END_NODE, FDT_PROP};
use crate::cursor::{
    escape_spec, group_spec, move_next_spec, move_on_spec, prop_name, skip_str, title_name,
    AnyCursor, Body, BodyCursor, Cursor, MultiNodeCursor, PropCursor,
};
use crate::dtb::Dtb;
use crate::error::Error;
use crate::node::{base_of, bytes_eq, find_at, split_name};
use crate::reg::RegConfig;

verus! {

/// Where a value to be read stands: in a node body, at a property, or at a
/// node (or run of nodes) already measured.
#[derive(Clone, Copy, Debug)]
pub enum ValueCursor {
    Body(BodyCursor),
    Prop(BodyCursor, PropCursor),
    NodeIn(MultiNodeCursor),
}

/// A reader positioned at one value, with the register configuration in force there.
#[derive(Clone, Copy, Debug)]
pub struct ValueDeserializer<'a> {
    pub dtb: Dtb<'a>,
    pub reg: RegConfig,
    pub cursor: ValueCursor,
}

impl<'a> ValueDeserializer<'a> {
    pub open spec fn body_at(self) -> int {
        match self.cursor {
            ValueCursor::Body(c) => c.0 as int,
            ValueCursor::Prop(c, _) => c.0 as int,
            ValueCursor::NodeIn(g) => g.data_cursor.0 as int,
        }
    }

    pub open spec fn wf(self) -> bool {
        self.dtb.wf() && 0 <= self.body_at() <= self.dtb.n()
    }

    /// A reader at the root node of `blob`, after the header checklist.
    #[verifier::rlimit(60)]
    pub fn root(blob: &'a [u8]) -> (r: Result<ValueDeserializer<'a>, Error>)
        ensures
            crate::dtb::blob_check(blob@) is Err ==> r == Err::<ValueDeserializer, Error>(
                crate::dtb::blob_check(blob@)->Err_0,
            ),
            r matches Ok(v) ==> v.wf() && v.cursor is NodeIn && v.cursor->NodeIn_0.start_cursor.0 == 0
                && v.cursor->NodeIn_0.skip_cursor.0 <= v.dtb.n() && v.reg
                == RegConfig::default_config_spec() && Dtb::spec_from(
                blob@,
                v.dtb.structure@,
                v.dtb.strings@,
                v.dtb.off_struct,
            ),
            r matches Ok(v) ==> v.cursor->NodeIn_0.data_cursor.0 == 2 && escape_spec(v.dtb, 2, 1)
                == Ok::<int, Error>(v.cursor->NodeIn_0.skip_cursor.0 as int),
            crate::dtb::blob_check(blob@) is Ok && r is Err ==> forall|d: Dtb|
                Dtb::spec_from(blob@, d.structure@, d.strings@, d.off_struct) ==> escape_spec(d, 2, 1)
                    == Err::<int, Error>(r->Err_0),
            crate::dtb::blob_check(blob@) is Ok ==> (r is Ok <==> exists|d: Dtb|
                Dtb::spec_from(blob@, d.structure@, d.strings@, d.off_struct) && escape_spec(d, 2, 1)
                    is Ok),
    {
        let ptr = match crate::dtb::DtbPtr::from_raw(blob) {
            Ok(p) => p,
            Err(e) => {
                return Err(e);
            },
        };
        let dtb = Dtb::from_ptr(ptr);
        proof {
            assert(dtb.structure@[4] == 0);
            assert(skip_str(dtb, 1) == Some(2int));
        }
        let g = match AnyCursor(0, crate::cursor::Title {}).take_node_on(&dtb) {
            Ok(g) => g,
            Err(e) => {
                proof {
                    assert forall|d: Dtb|
                        Dtb::spec_from(blob@, d.structure@, d.strings@, d.off_struct) implies escape_spec(
                        d,
                        2,
                        1,
                    ) == Err::<int, Error>(e) by {
                        crate::node::lemma_same_escape(dtb, d, 2, 1);
                    }
                }
                return Err(e);
            },
        };
        proof {
            crate::cursor::lemma_skip_str_range(dtb, 1);
        }
        Ok(ValueDeserializer { dtb, reg: RegConfig::default_config(), cursor: ValueCursor::NodeIn(g) })
    }

    /// After the root value has been read: the walk must have reached the
    /// final `END`, else the error says where the rest begins.
    pub fn finish(&self) -> (r: Result<(), Error>)
        requires
            self.wf(),
            self.cursor is NodeIn,
            self.cursor->NodeIn_0.skip_cursor.0 <= self.dtb.n(),
        ensures
            r is Ok <==> self.cursor->NodeIn_0.skip_cursor.0 + 1 == self.dtb.n(),
            r is Err ==> r == Err::<(), Error>(
                Error::typed(
                    crate::error::ErrorType::DeserializeNotComplete,
                    self.dtb.fidx(self.cursor->NodeIn_0.skip_cursor.0 as int),
                ),
            ),
    {
        match self.cursor {
            ValueCursor::NodeIn(g) => {
                if g.skip_cursor.is_complete_on(&self.dtb) {
                    Ok(())
                } else {
                    Err(Error::deserialize_not_complete(g.skip_cursor.file_index_on(&self.dtb)))
                }
            },
            _ => Ok(()),
        }
    }

    /// Whether the reader stands at a property token of its block.
    pub open spec fn at_prop(self) -> bool {
        &&& self.cursor is Prop
        &&& self.cursor->Prop_1.0 < self.dtb.n()
        &&& self.dtb.w(self.cursor->Prop_1.0 as int) == FDT_PROP
    }

    /// The property the reader stands at.
    pub open spec fn prop_at(self) -> int {
        self.cursor->Prop_1.0 as int
    }

    fn prop_cursor(&self) -> (r: Option<PropCursor>)
        requires
            self.dtb.wf(),
        ensures
            r is Some <==> self.at_prop(),
            r matches Some(p) ==> p.0 == self.prop_at(),
    {
        match self.cursor {
            ValueCursor::Prop(_, p) => {
                if p.0 < self.dtb.structure.len() / 4 && crate::cursor::word_at(&self.dtb, p.0)
                    == FDT_PROP {
                    Some(p)
                } else {
                    None
                }
            },
            _ => None,
        }
    }

    /// The raw value of the property the reader stands at.
    pub fn deserialize_bytes(&self) -> (r: Result<&'a [u8], Error>)
        requires
            self.dtb.wf(),
        ensures
            !self.at_prop() ==> r == Err::<&[u8], Error>(
                Error::typed(crate::error::ErrorType::ExpectStructEnd, 0),
            ),
            self.at_prop() ==> match move_next_spec(self.dtb, self.prop_at()) {
                Ok(_) => r is Ok && r->Ok_0@ == crate::cursor::prop_data(self.dtb, self.prop_at()),
                Err(e) => r == Err::<&[u8], Error>(e),
            },
    {
        match self.prop_cursor() {
            Some(p) => p.data_on(&self.dtb),
            None => Err(Error::expected_struct_end()),
        }
    }

    /// The property read as a flag: an empty value is `true`, any other an error.
    pub fn deserialize_bool(&self) -> (r: Result<bool, Error>)
        requires
            self.dtb.wf(),
        ensures
            !self.at_prop() ==> r is Err,
            self.at_prop() ==> match move_next_spec(self.dtb, self.prop_at()) {
                Ok(_) => if self.dtb.w(self.prop_at() + 1) == 0 {
                    r == Ok::<bool, Error>(true)
                } else {
                    r == Err::<bool, Error>(
                        Error::typed(
                            crate::error::ErrorType::InvalidSerdeTypeLength { expected_length: 0 },
                            self.dtb.fidx(self.prop_at()),
                        ),
                    )
                },
                Err(e) => r == Err::<bool, Error>(e),
            },
    {
        match self.prop_cursor() {
            Some(p) => match p.data_on(&self.dtb) {
                Ok(data) => if data.len() == 0 {
                    Ok(true)
                } else {
                    Err(Error::invalid_serde_type_length(0, p.0 * 4 + self.dtb.off_struct))
                },
                Err(e) => Err(e),
            },
            None => Err(Error::expected_struct_end()),
        }
    }

    /// The property read as one big-endian `u32`.
    pub fn deserialize_u32(&self) -> (r: Result<u32, Error>)
        requires
            self.dtb.wf(),
        ensures
            !self.at_prop() ==> r is Err,
            self.at_prop() ==> match move_next_spec(self.dtb, self.prop_at()) {
                Ok(_) => if self.dtb.w(self.prop_at() + 1) == 4 {
                    r == Ok::<u32, Error>(self.dtb.w(self.prop_at() + 3))
                } else {
                    r == Err::<u32, Error>(
                        Error::typed(
                            crate::error::ErrorType::InvalidSerdeTypeLength { expected_length: 4 },
                            self.dtb.fidx(self.prop_at()),
                        ),
                    )
                },
                Err(e) => r == Err::<u32, Error>(e),
            },
    {
        match self.prop_cursor() {
            Some(p) => p.map_u32_on(&self.dtb),
            None => Err(Error::expected_struct_end()),
        }
    }

    /// Whether an optional value is present: a property with an empty value
    /// is absent; anything else is present.
    pub fn deserialize_option(&self) -> (r: Result<bool, Error>)
        requires
            self.dtb.wf(),
        ensures
            !(self.cursor is Prop) ==> r == Ok::<bool, Error>(true),
            self.cursor is Prop && !self.at_prop() ==> r == Err::<bool, Error>(
                Error::typed(crate::error::ErrorType::ExpectStructEnd, 0),
            ),
            self.at_prop() ==> match move_next_spec(self.dtb, self.prop_at()) {
                Ok(_) => r == Ok::<bool, Error>(self.dtb.w(self.prop_at() + 1) != 0),
                Err(e) => r == Err::<bool, Error>(e),
            },
    {
        if let ValueCursor::Prop(_, _) = self.cursor {
            match self.deserialize_bytes() {
                Ok(data) => Ok(data.len() != 0),
                Err(e) => Err(e),
            }
        } else {
            Ok(true)
        }
    }

    /// Skips `NOP`s at a body cursor and says what comes next.
    pub fn move_on(&mut self) -> (r: Result<Cursor, Error>)
        requires
            old(self).wf(),
            old(self).cursor is Body,
        ensures
            final(self).dtb == old(self).dtb,
            final(self).reg == old(self).reg,
            final(self).cursor is Body,
            final(self).wf(),
            match move_on_spec(old(self).dtb, old(self).body_at()) {
                Err(e) => r == Err::<Cursor, Error>(e),
                Ok((j, t)) => r is Ok && final(self).body_at() == j && match r->Ok_0 {
                    Cursor::Title(c) => t == FDT_BEGIN_NODE && c.0 == j,
                    Cursor::Prop(c) => t == FDT_PROP && c.0 == j,
                    Cursor::End => t == FDT_END_NODE,
                },
            },
    {
        let mut c = match self.cursor {
            ValueCursor::Body(c) => c,
            _ => AnyCursor(0, Body {}),
        };
        proof {
            crate::cursor::lemma_skip_nop_range(self.dtb, c.0 as int);
        }
        let r = c.move_on(&self.dtb);
        self.cursor = ValueCursor::Body(c);
        r
    }

    /// Moves a body cursor `n` words on.
    pub fn step_n(&mut self, n: usize)
        requires
            old(self).cursor is Body,
            old(self).body_at() + n <= usize::MAX,
        ensures
            final(self).dtb == old(self).dtb,
            final(self).reg == old(self).reg,
            final(self).cursor is Body,
            final(self).body_at() == old(self).body_at() + n,
    {
        if let ValueCursor::Body(c) = self.cursor {
            let mut c = c;
            c.step_n(n);
            self.cursor = ValueCursor::Body(c);
        }
    }

    /// Whether the body cursor stands at the final `END`.
    pub fn is_complete_on(&self) -> (r: bool)
        requires
            self.wf(),
        ensures
            r == (self.cursor is Body && self.body_at() + 1 == self.dtb.n()),
    {
        match self.cursor {
            ValueCursor::Body(c) => c.is_complete_on(&self.dtb),
            _ => false,
        }
    }

    /// Byte index in the blob of the value's body cursor.
    pub fn file_index_on(&self) -> (r: usize)
        requires
            self.wf(),
        ensures
            r == self.dtb.fidx(self.body_at()),
    {
        match self.cursor {
            ValueCursor::Body(c) => c.file_index_on(&self.dtb),
            ValueCursor::Prop(c, _) => c.file_index_on(&self.dtb),
            ValueCursor::NodeIn(g) => g.data_cursor.file_index_on(&self.dtb),
        }
    }
}

/// How the entries of a node body are being read.
#[derive(Clone, Copy, Debug)]
pub enum StructAccessType<'a> {
    /// As a map; the flag says whether the node's own entry (key `/`) is done.
    AsMap(bool),
    /// As the run of sibling nodes whose base name is given.
    AsSeq(&'a [u8]),
    /// As a struct with the given field names; other entries are passed over.
    AsStruct(&'a [&'a [u8]]),
}

/// The entry whose key was read last.
#[derive(Clone, Copy, Debug)]
pub enum Temp {
    /// The node being read itself (the `/` entry of a map).
    Whole,
    Node(BodyCursor, MultiNodeCursor),
    Group(MultiNodeCursor),
    Prop(BodyCursor, PropCursor),
}

/// The register configuration after a property `name` with value cell `v`
/// (when it holds one cell).
pub open spec fn apply_cells(c: RegConfig, name: Seq<u8>, one: bool, v: u32) -> RegConfig {
    if one && name == "#address-cells".spec_bytes() {
        RegConfig { address_cells: v as usize, size_cells: c.size_cells }
    } else if one && name == "#size-cells".spec_bytes() {
        RegConfig { address_cells: c.address_cells, size_cells: v as usize }
    } else {
        c
    }
}

/// The key of the entry at word `k` of a body and the word after it: a
/// property's name, a node's name, or the base of a run of siblings (for
/// a name with `@`); no key at the `END_NODE`, which is passed.
pub open spec fn entry_spec(d: Dtb, k: int) -> Result<(Option<Seq<u8>>, int), Error> {
    match move_on_spec(d, k) {
        Err(e) => Err(e),
        Ok((j, t)) => if t == FDT_END_NODE {
            Ok((None, j + 1))
        } else if t == FDT_PROP {
            match move_next_spec(d, j) {
                Err(e) => Err(e),
                Ok((e, _)) => match prop_name(d, j) {
                    Err(x) => Err(x),
                    Ok(name) => Ok((Some(name), e)),
                },
            }
        } else {
            match title_name(d, j) {
                None => Err(Error::typed(crate::error::ErrorType::StringEofUnexpected, d.fidx(j + 1))),
                Some((full, b)) => if find_at(full, 0) < full.len() {
                    match group_spec(d, j, base_of(full)) {
                        Err(x) => Err(x),
                        Ok((end, _)) => Ok((Some(base_of(full)), end)),
                    }
                } else {
                    match escape_spec(d, b, 1) {
                        Err(x) => Err(x),
                        Ok(e) => Ok((Some(base_of(full)), e)),
                    }
                },
            }
        },
    }
}

/// Whether an entry keyed `key` is surfaced when reading as `t`.
pub open spec fn type_accepts(t: StructAccessType, key: Seq<u8>) -> bool {
    match t {
        StructAccessType::AsStruct(fields) => exists|i: int|
            0 <= i < fields@.len() && fields@[i]@ == key,
        _ => true,
    }
}

/// The key of the first entry from word `k` on that reading as `t` surfaces;
/// none at the body's `END_NODE`.
pub open spec fn first_key(d: Dtb, k: int, t: StructAccessType) -> Result<Option<Seq<u8>>, Error>
    decreases d.n() - k,
{
    match entry_spec(d, k) {
        Err(e) => Err(e),
        Ok((None, _)) => Ok(None),
        Ok((Some(key), next)) => if type_accepts(t, key) {
            Ok(Some(key))
        } else if next <= k || next > d.n() {
            Err(Error::typed(crate::error::ErrorType::NoRemainingTags, d.fidx(k)))
        } else {
            first_key(d, next, t)
        },
    }
}

/// Reads the entries of a node body one by one.
#[derive(Clone, Copy, Debug)]
pub struct StructAccess<'a> {
    pub access_type: StructAccessType<'a>,
    pub temp: Temp,
    /// The body being read, with the configuration in force for its own properties.
    pub de: ValueDeserializer<'a>,
    /// The configuration handed to the body's child nodes, as set so far by
    /// its `#address-cells` and `#size-cells`.
    pub cells: RegConfig,
}

impl<'a> StructAccess<'a> {
    /// Reads the next entry of the body: a property, a single node, or (for
    /// a name with `@`) the run of siblings sharing its base name, keyed by
    /// that base. `None` at the body's `END_NODE`, which is consumed.
    /// `#address-cells` and `#size-cells` update the configuration handed
    /// to what follows in this body.
    #[verifier::rlimit(60)]
    pub fn next_entry(&mut self) -> (r: Result<Option<&'a [u8]>, Error>)
        requires
            old(self).de.wf(),
            old(self).de.cursor is Body,
        ensures
            final(self).de.dtb == old(self).de.dtb,
            final(self).access_type == old(self).access_type,
            final(self).de.reg == old(self).de.reg,
            r is Ok ==> final(self).de.wf() && final(self).de.cursor is Body,
            r is Ok ==> final(self).de.body_at() > old(self).de.body_at(),
            match entry_spec(old(self).de.dtb, old(self).de.body_at()) {
                Err(e) => r == Err::<Option<&[u8]>, Error>(e),
                Ok((key, next)) => r is Ok && final(self).de.body_at() == next && match key {
                    None => r->Ok_0 is None,
                    Some(k) => r->Ok_0 is Some && r->Ok_0->Some_0@ == k,
                },
            },
            match move_on_spec(old(self).de.dtb, old(self).de.body_at()) {
                Err(e) => r == Err::<Option<&[u8]>, Error>(e),
                Ok((j, t)) => if t == FDT_END_NODE {
                    r matches Ok(None) && final(self).de.body_at() == j + 1
                } else if t == FDT_PROP {
                    match move_next_spec(old(self).de.dtb, j) {
                        Err(e) => r == Err::<Option<&[u8]>, Error>(e),
                        Ok((e, _)) => match prop_name(old(self).de.dtb, j) {
                            Err(x) => r == Err::<Option<&[u8]>, Error>(x),
                            Ok(name) => r is Ok && r->Ok_0 is Some && r->Ok_0->Some_0@ == name
                                && final(self).de.body_at() == e && final(self).temp is Prop
                                && final(self).temp->Prop_1.0 == j && final(self).cells == apply_cells(
                                old(self).cells,
                                name,
                                old(self).de.dtb.w(j + 1) == 4,
                                old(self).de.dtb.w(j + 3),
                            ),
                        },
                    }
                } else {
                    r matches Ok(Some(key)) ==> title_name(old(self).de.dtb, j) is Some && key@
                        == base_of(title_name(old(self).de.dtb, j)->Some_0.0) && final(self).cells
                        == old(self).cells && match final(self).temp {
                        Temp::Node(_, g) => g.start_cursor.0 == j && find_at(
                            title_name(old(self).de.dtb, j)->Some_0.0,
                            0,
                        ) == title_name(old(self).de.dtb, j)->Some_0.0.len()
                            && skip_str(old(self).de.dtb, j + 1) == Some(g.data_cursor.0 as int)
                            && escape_spec(old(self).de.dtb, g.data_cursor.0 as int, 1) == Ok::<
                            int,
                            Error,
                        >(g.skip_cursor.0 as int) && final(self).de.body_at() == g.skip_cursor.0,
                        Temp::Group(g) => g.start_cursor.0 == j && group_spec(
                            old(self).de.dtb,
                            j,
                            key@,
                        ) == Ok::<(int, int), Error>(
                            (g.skip_cursor.0 as int, g.node_count as int),
                        ) && final(self).de.body_at() == g.skip_cursor.0,
                        _ => false,
                    }
                },
            },
    {
        let d = self.de.dtb;
        let origin = match self.de.cursor {
            ValueCursor::Body(c) => c,
            _ => AnyCursor(0, Body {}),
        };
        proof {
            crate::cursor::lemma_skip_nop_range(d, origin.0 as int);
        }
        let cur = match self.de.move_on() {
            Ok(c) => c,
            Err(e) => {
                return Err(e);
            },
        };
        match cur {
            Cursor::End => {
                self.de.step_n(1);
                Ok(None)
            },
            Cursor::Prop(p) => {
                let (name, next) = match p.name_on(&d) {
                    Ok(x) => x,
                    Err(e) => {
                        return Err(e);
                    },
                };
                let is_addr = bytes_eq(name, "#address-cells".as_bytes());
                let is_size = bytes_eq(name, "#size-cells".as_bytes());
                if is_addr || is_size {
                    if let Ok(v) = p.map_u32_on(&d) {
                        if is_addr {
                            self.cells = RegConfig {
                                address_cells: v as usize,
                                size_cells: self.cells.size_cells,
                            };
                        } else {
                            self.cells = RegConfig {
                                address_cells: self.cells.address_cells,
                                size_cells: v as usize,
                            };
                        }
                    }
                }
                self.de.cursor = ValueCursor::Body(next);
                self.temp = Temp::Prop(origin, p);
                Ok(Some(name))
            },
            Cursor::Title(t) => {
                let full = match t.split_on(&d) {
                    Ok((full, _)) => full,
                    Err(e) => {
                        return Err(e);
                    },
                };
                let (base, _, has_at) = split_name(full);
                if has_at {
                    proof {
                        crate::cursor::lemma_group_range(d, t.0 as int, base@);
                    }
                    let g = match t.take_group_on(&d, base) {
                        Ok(g) => g,
                        Err(e) => {
                            return Err(e);
                        },
                    };
                    self.de.cursor = ValueCursor::Body(g.skip_cursor);
                    self.temp = Temp::Group(g);
                    Ok(Some(base))
                } else {
                    proof {
                        crate::node::lemma_find_at(full@, 0);
                        crate::cursor::lemma_skip_str_range(d, t.0 + 1);
                        if let Some(b) = skip_str(d, t.0 + 1) {
                            crate::cursor::lemma_escape_range(d, b, 1);
                        }
                    }
                    let g = match t.take_node_on(&d) {
                        Ok(g) => g,
                        Err(e) => {
                            return Err(e);
                        },
                    };
                    self.de.cursor = ValueCursor::Body(g.skip_cursor);
                    self.temp = Temp::Node(origin, g);
                    Ok(Some(base))
                }
            },
        }
    }

    /// The reader for the value of the entry read last: a property is read
    /// with the configuration of its own body, a child node with the one
    /// the body sets for its children.
    pub fn next_value(&self) -> (r: ValueDeserializer<'a>)
        ensures
            r.dtb == self.de.dtb,
            r.reg == match self.temp {
                Temp::Node(_, _) => self.cells,
                Temp::Group(_) => self.cells,
                _ => self.de.reg,
            },
            r.cursor == match self.temp {
                Temp::Whole => self.de.cursor,
                Temp::Node(_, g) => ValueCursor::NodeIn(g),
                Temp::Group(g) => ValueCursor::NodeIn(g),
                Temp::Prop(b, p) => ValueCursor::Prop(b, p),
            },
    {
        match self.temp {
            Temp::Whole => ValueDeserializer { dtb: self.de.dtb, reg: self.de.reg, cursor: self.de.cursor },
            Temp::Node(_, g) => ValueDeserializer { dtb: self.de.dtb, reg: self.cells, cursor: ValueCursor::NodeIn(g) },
            Temp::Group(g) => ValueDeserializer { dtb: self.de.dtb, reg: self.cells, cursor: ValueCursor::NodeIn(g) },
            Temp::Prop(b, p) => ValueDeserializer { dtb: self.de.dtb, reg: self.de.reg, cursor: ValueCursor::Prop(b, p) },
        }
    }

    /// Whether an entry keyed `key` is surfaced.
    pub open spec fn accepts(self, key: Seq<u8>) -> bool {
        type_accepts(self.access_type, key)
    }

    fn accepts_key(&self, key: &[u8]) -> (r: bool)
        ensures
            r == self.accepts(key@),
    {
        match self.access_type {
            StructAccessType::AsStruct(fields) => {
                let mut i: usize = 0;
                while i < fields.len()
                    invariant
                        i <= fields@.len(),
                        self.access_type == StructAccessType::AsStruct(fields),
                        forall|t: int| 0 <= t < i ==> fields@[t]@ != key@,
                    decreases fields.len() - i,
                {
                    if bytes_eq(fields[i], key) {
                        assert(fields@[i as int]@ == key@);
                        assert(self.access_type == StructAccessType::AsStruct(fields));
                        assert(self.access_type->AsStruct_0@[i as int]@ == key@);
                        assert(exists|t: int| 0 <= t < fields@.len() && fields@[t]@ == key@);
                        return true;
                    }
                    i = i + 1;
                }
                false
            },
            _ => true,
        }
    }

    /// The key of the next entry surfaced: for a map, first the node's own
    /// entry `/`; for a struct, only entries named like one of its fields,
    /// the others being passed over. `None` at the body's end.
    #[verifier::rlimit(80)]
    pub fn next_key(&mut self) -> (r: Result<Option<&'a [u8]>, Error>)
        requires
            old(self).de.wf(),
            old(self).de.cursor is Body,
        ensures
            r is Ok ==> final(self).de.wf() && final(self).de.cursor is Body,
            final(self).de.dtb == old(self).de.dtb,
            r matches Ok(Some(k)) ==> old(self).access_type == StructAccessType::AsMap(false)
                || final(self).accepts(k@),
            old(self).access_type == StructAccessType::AsMap(false) ==> r is Ok && r->Ok_0 is Some
                && r->Ok_0->Some_0@ == "/".spec_bytes(),
            old(self).access_type != StructAccessType::AsMap(false) ==> match first_key(
                old(self).de.dtb,
                old(self).de.body_at(),
                old(self).access_type,
            ) {
                Err(e) => r == Err::<Option<&[u8]>, Error>(e),
                Ok(None) => r matches Ok(None),
                Ok(Some(k)) => r is Ok && r->Ok_0 is Some && r->Ok_0->Some_0@ == k,
            },
    {
        if let StructAccessType::AsMap(false) = self.access_type {
            self.access_type = StructAccessType::AsMap(true);
            self.temp = Temp::Whole;
            return Ok(Some("/".as_bytes()));
        }
        let ghost start = self.de.body_at();
        let n = self.de.dtb.structure.len() / 4;
        loop
            invariant
                self.de.wf(),
                self.de.cursor is Body,
                self.de.dtb == old(self).de.dtb,
                self.access_type == old(self).access_type,
                old(self).access_type != StructAccessType::AsMap(false),
                n == self.de.dtb.n(),
                first_key(self.de.dtb, self.de.body_at(), self.access_type) == first_key(
                    old(self).de.dtb,
                    old(self).de.body_at(),
                    old(self).access_type,
                ),
            decreases n - self.de.body_at(),
        {
            let ghost k = self.de.body_at();
            match self.next_entry() {
                Err(e) => {
                    return Err(e);
                },
                Ok(None) => {
                    return Ok(None);
                },
                Ok(Some(key)) => {
                    if self.accepts_key(key) {
                        return Ok(Some(key));
                    }
                    assert(first_key(self.de.dtb, k, self.access_type) == first_key(
                        self.de.dtb,
                        self.de.body_at(),
                        self.access_type,
                    ));
                },
            }
        }
    }

    /// For a run of siblings: the next node, if its base name is the run's.
    pub fn next_element(&mut self) -> (r: Result<Option<ValueDeserializer<'a>>, Error>)
        requires
            old(self).de.wf(),
            old(self).de.cursor is Body,
        ensures
            final(self).de.dtb == old(self).de.dtb,
            final(self).de.wf(),
            final(self).de.cursor is Body,
            r matches Ok(Some(v)) ==> old(self).access_type is AsSeq && v.cursor is NodeIn && title_name(
                old(self).de.dtb,
                v.cursor->NodeIn_0.start_cursor.0 as int,
            ) is Some && base_of(
                title_name(old(self).de.dtb, v.cursor->NodeIn_0.start_cursor.0 as int)->Some_0.0,
            ) == old(self).access_type->AsSeq_0@,
            old(self).access_type is AsSeq && move_on_spec(old(self).de.dtb, old(self).de.body_at())
                is Ok && move_on_spec(old(self).de.dtb, old(self).de.body_at())->Ok_0.1
                == FDT_BEGIN_NODE && title_name(
                old(self).de.dtb,
                move_on_spec(old(self).de.dtb, old(self).de.body_at())->Ok_0.0,
            ) is Some && base_of(
                title_name(
                    old(self).de.dtb,
                    move_on_spec(old(self).de.dtb, old(self).de.body_at())->Ok_0.0,
                )->Some_0.0,
            ) == old(self).access_type->AsSeq_0@ && skip_str(
                old(self).de.dtb,
                move_on_spec(old(self).de.dtb, old(self).de.body_at())->Ok_0.0 + 1,
            ) is Some && escape_spec(
                old(self).de.dtb,
                skip_str(
                    old(self).de.dtb,
                    move_on_spec(old(self).de.dtb, old(self).de.body_at())->Ok_0.0 + 1,
                )->Some_0,
                1,
            ) is Ok ==> (r is Ok && r->Ok_0 is Some && r->Ok_0->Some_0.cursor is NodeIn
                && r->Ok_0->Some_0.cursor->NodeIn_0.start_cursor.0 == move_on_spec(
                old(self).de.dtb,
                old(self).de.body_at(),
            )->Ok_0.0),
    {
        let pre = match self.access_type {
            StructAccessType::AsSeq(p) => p,
            _ => {
                return Ok(None);
            },
        };
        let saved = self.de;
        proof {
            crate::cursor::lemma_skip_nop_range(self.de.dtb, self.de.body_at());
        }
        let t = match self.de.move_on() {
            Ok(Cursor::Title(t)) => t,
            Ok(_) => {
                self.de = saved;
                return Ok(None);
            },
            Err(e) => {
                self.de = saved;
                return Err(e);
            },
        };
        let full = match t.split_on(&self.de.dtb) {
            Ok((full, _)) => full,
            Err(e) => {
                self.de = saved;
                return Err(e);
            },
        };
        let (base, _, _) = split_name(full);
        if !bytes_eq(base, pre) {
            self.de = saved;
            return Ok(None);
        }
        proof {
            crate::cursor::lemma_skip_str_range(self.de.dtb, t.0 + 1);
            if let Some(b) = skip_str(self.de.dtb, t.0 + 1) {
                crate::cursor::lemma_escape_range(self.de.dtb, b, 1);
            }
        }
        let g = match t.take_node_on(&self.de.dtb) {
            Ok(g) => g,
            Err(e) => {
                self.de = saved;
                return Err(e);
            },
        };
        self.de.cursor = ValueCursor::Body(g.skip_cursor);
        Ok(Some(ValueDeserializer { dtb: self.de.dtb, reg: self.de.reg, cursor: ValueCursor::NodeIn(g) }))
    }
}

} // verus!
