//! The intern context: a per-call state machine that is Idle between
//! calls, accumulates an encoding table during `dumps`, and holds the
//! decoded table while a `loads` resolves back-references.
use std::collections::HashMap;
use std::sync::Arc;
use vstd::prelude::*;

use crate::error::Error;
use crate::model::{tab_insert, tab_lookup, table_bytes, EncTab};
use crate::object::{clone_obj, view_obj, view_objs, lemma_view_objs, InternValue, Object, Ov};
use crate::wire::{arr_hdr, enc_uint, ext_hdr, put_bytes, write_arr_hdr, write_ext_hdr, write_uint};

pub use crate::model::INTERN_TABLE_EXT;

verus! {

broadcast use
    vstd::std_specs::vec::group_vec_axioms,
    vstd::seq::group_seq_axioms,
    vstd::std_specs::hash::group_hash_axioms,
;

/// A resolved position in the intern table.
#[derive(Clone)]
pub struct InternPtr {
    pub index: usize,
}

impl InternPtr {
    pub fn new(index: usize) -> (r: Self)
        ensures
            r.index == index,
    {
        Self { index }
    }

    pub fn index(&self) -> (r: usize)
        ensures
            r == self.index,
    {
        self.index
    }
}

/// A MessagePack EXT value: a type code and its payload bytes.
#[derive(Clone, Debug)]
pub struct Ext {
    pub ty: i8,
    pub data: Vec<u8>,
}

impl Ext {
    pub fn new(ty: i8, data: Vec<u8>) -> (r: Self)
        ensures
            r.ty == ty,
            r.data@ == data@,
    {
        Self { ty, data }
    }

    /// Append this EXT block, header then payload, to `buf`.
    pub fn write(&self, buf: &mut Vec<u8>) -> (r: Result<(), Error>)
        ensures
            match r {
                Ok(()) => self.data@.len() <= u32::MAX as int && final(buf)@ == old(buf)@ + ext_hdr(
                    self.data@.len() as int,
                    self.ty,
                ) + self.data@,
                Err(e) => e == Error::EncodeFailure && self.data@.len() > u32::MAX as int,
            },
    {
        if self.data.len() > u32::MAX as usize {
            return Err(Error::EncodeFailure);
        }
        write_ext_hdr(buf, self.data.len() as u32, self.ty);
        put_bytes(buf, self.data.as_slice());
        proof {
            assert(final(buf)@ =~= old(buf)@ + ext_hdr(self.data@.len() as int, self.ty)
                + self.data@);
        }
        Ok(())
    }
}

/// Model views of a sequence of encoded blocks.
pub open spec fn blocks_view(s: Seq<Vec<u8>>) -> Seq<Seq<u8>>
    decreases s,
{
    if s.len() == 0 {
        Seq::empty()
    } else {
        seq![s[0]@] + blocks_view(s.drop_first())
    }
}

pub broadcast proof fn lemma_blocks_view(s: Seq<Vec<u8>>)
    ensures
        (#[trigger] blocks_view(s)).len() == s.len(),
        forall|i: int| 0 <= i < s.len() ==> blocks_view(s)[i] == s[i]@,
    decreases s,
{
    if s.len() > 0 {
        lemma_blocks_view(s.drop_first());
        assert forall|i: int| 0 <= i < s.len() implies blocks_view(s)[i] == s[i]@ by {
            if i > 0 {
                assert(s.drop_first()[i - 1] == s[i]);
            }
        }
    }
}

/// Model view of the original values held behind shared handles.
pub open spec fn arcs_view(s: Seq<Arc<Object>>) -> Seq<Ov>
    decreases s,
{
    if s.len() == 0 {
        Seq::empty()
    } else {
        seq![view_obj(*s[0])] + arcs_view(s.drop_first())
    }
}

pub broadcast proof fn lemma_arcs_view(s: Seq<Arc<Object>>)
    ensures
        (#[trigger] arcs_view(s)).len() == s.len(),
        forall|i: int| 0 <= i < s.len() ==> arcs_view(s)[i] == view_obj(*s[i]),
    decreases s,
{
    if s.len() > 0 {
        lemma_arcs_view(s.drop_first());
        assert forall|i: int| 0 <= i < s.len() implies arcs_view(s)[i] == view_obj(*s[i]) by {
            if i > 0 {
                assert(s.drop_first()[i - 1] == s[i]);
            }
        }
    }
}

/// Model view of the identity index.
pub open spec fn ids_view(m: Map<usize, usize>) -> Map<int, int> {
    Map::new(
        |k: int| 0 <= k <= usize::MAX as int && m.contains_key(k as usize),
        |k: int| m[k as usize] as int,
    )
}

struct EncodingInternTable {
    entries: Vec<Vec<u8>>,
    originals: Vec<Arc<Object>>,
    by_id: HashMap<usize, usize>,
}

impl EncodingInternTable {
    spec fn model(&self) -> EncTab {
        EncTab {
            blocks: blocks_view(self.entries@),
            origs: arcs_view(self.originals@),
            ids: ids_view(self.by_id@),
        }
    }

    spec fn wf(&self) -> bool {
        &&& self.entries@.len() == self.originals@.len()
        &&& forall|k: usize| #[trigger] self.by_id@.contains_key(k) ==> self.by_id@[k]
            < self.entries@.len()
    }

    fn empty() -> (r: Self)
        ensures
            r.wf(),
            r.model() == EncTab::empty(),
    {
        let r = EncodingInternTable {
            entries: Vec::new(),
            originals: Vec::new(),
            by_id: HashMap::new(),
        };
        proof {
            assert(blocks_view(r.entries@) =~= Seq::<Seq<u8>>::empty());
            assert(arcs_view(r.originals@) =~= Seq::<Ov>::empty());
            assert(ids_view(r.by_id@) =~= Map::<int, int>::empty());
            assert(r.model() == EncTab::empty());
        }
        r
    }

    fn is_empty(&self) -> (r: bool)
        ensures
            r == (self.model().blocks.len() == 0),
    {
        proof {
            lemma_blocks_view(self.entries@);
        }
        self.entries.len() == 0
    }

    /// The serialized table: an array header followed by the entry blocks.
    fn get_bytes(&self) -> (r: Result<Vec<u8>, Error>)
        ensures
            match r {
                Ok(out) => self.model().blocks.len() <= u32::MAX as int && out@ == arr_hdr(
                    self.model().blocks.len() as int,
                ) + table_bytes(self.model().blocks),
                Err(e) => e == Error::EncodeFailure && self.model().blocks.len() > u32::MAX as int,
            },
    {
        proof {
            lemma_blocks_view(self.entries@);
        }
        if self.entries.len() > u32::MAX as usize {
            return Err(Error::EncodeFailure);
        }
        let mut out: Vec<u8> = Vec::new();
        write_arr_hdr(&mut out, self.entries.len() as u32);
        let n = self.entries.len();
        let ghost blocks = self.model().blocks;
        let mut i: usize = 0;
        proof {
            assert(blocks.take(0) =~= Seq::<Seq<u8>>::empty());
            assert(out@ =~= arr_hdr(blocks.len() as int) + table_bytes(blocks.take(0)));
        }
        while i < n
            invariant
                n == self.entries@.len(),
                blocks == blocks_view(self.entries@),
                blocks.len() == n,
                forall|j: int| 0 <= j < n ==> blocks[j] == self.entries@[j]@,
                i <= n,
                out@ == arr_hdr(blocks.len() as int) + table_bytes(blocks.take(i as int)),
            decreases n - i,
        {
            put_bytes(&mut out, self.entries[i].as_slice());
            proof {
                crate::model::lemma_table_bytes_take(blocks, i as int);
                assert(out@ =~= arr_hdr(blocks.len() as int) + table_bytes(
                    blocks.take(i + 1 as int),
                ));
            }
            i += 1;
        }
        proof {
            assert(blocks.take(n as int) =~= blocks);
        }
        Ok(out)
    }

    /// Look the value up without inserting: the address index in identity
    /// mode, a structural-equality scan otherwise.
    fn lookup(&self, value: &InternValue) -> (r: Option<usize>)
        requires
            self.wf(),
        ensures
            match r {
                Some(i) => tab_lookup(
                    self.model(),
                    view_obj(*value.value),
                    value.by_identity,
                    value.addr as int,
                ) == Some(i as int) && i < self.model().blocks.len(),
                None => tab_lookup(
                    self.model(),
                    view_obj(*value.value),
                    value.by_identity,
                    value.addr as int,
                ) is None,
            },
    {
        proof {
            lemma_blocks_view(self.entries@);
            lemma_arcs_view(self.originals@);
        }
        if value.by_identity() {
            let key = value.pointer();
            match self.by_id.get(&key) {
                Some(idx) => {
                    proof {
                        assert(ids_view(self.by_id@).contains_key(key as int));
                        assert(ids_view(self.by_id@)[key as int] == self.by_id@[key] as int);
                    }
                    Some(*idx)
                },
                None => {
                    proof {
                        assert(!ids_view(self.by_id@).contains_key(key as int));
                    }
                    None
                },
            }
        } else {
            self.find_by_equality(value.value())
        }
    }

    /// First entry whose original equals `value`, scanning in insertion
    /// order.
    fn find_by_equality(&self, value: &Object) -> (r: Option<usize>)
        requires
            self.wf(),
        ensures
            match r {
                Some(i) => crate::model::find_eq(self.model().origs, view_obj(*value)) == i as int
                    && i < self.model().blocks.len(),
                None => crate::model::find_eq(self.model().origs, view_obj(*value)) < 0,
            },
    {
        proof {
            lemma_blocks_view(self.entries@);
            lemma_arcs_view(self.originals@);
            crate::model::lemma_find_eq(self.model().origs, view_obj(*value));
        }
        let n = self.originals.len();
        let mut i: usize = 0;
        while i < n
            invariant
                self.wf(),
                n == self.originals@.len(),
                i <= n,
                arcs_view(self.originals@).len() == n,
                forall|j: int| 0 <= j < n ==> arcs_view(self.originals@)[j] == view_obj(
                    *self.originals@[j],
                ),
                forall|j: int| 0 <= j < i ==> !crate::object::ov_eq(
                    arcs_view(self.originals@)[j],
                    view_obj(*value),
                ),
            decreases n - i,
        {
            let candidate: &Arc<Object> = &self.originals[i];
            if crate::object::obj_eq(candidate, value) {
                proof {
                    lemma_blocks_view(self.entries@);
                    crate::model::lemma_find_eq(self.model().origs, view_obj(*value));
                    let s = self.model().origs;
                    let f = crate::model::find_eq(s, view_obj(*value));
                    assert(crate::object::ov_eq(s[i as int], view_obj(*value)));
                    assert(f >= 0);
                    if f < i as int {
                        assert(!crate::object::ov_eq(s[f], view_obj(*value)));
                        assert(false);
                    }
                    if f > i as int {
                        assert(!crate::object::ov_eq(s[i as int], view_obj(*value)));
                        assert(false);
                    }
                }
                return Some(i);
            }
            i += 1;
        }
        proof {
            crate::model::lemma_find_eq(self.model().origs, view_obj(*value));
        }
        None
    }

    /// The intern step once the value's fresh byte block is at hand: a
    /// final lookup, and an append on a miss.  What comes back is the
    /// reference EXT to emit in place of the value.
    fn intern(&mut self, value: &InternValue, encoded: Vec<u8>) -> (r: Result<Ext, Error>)
        requires
            old(self).wf(),
        ensures
            final(self).wf(),
            ({
                let t = old(self).model();
                let v = view_obj(*value.value);
                match tab_lookup(t, v, value.by_identity, value.addr as int) {
                    Some(i) => final(self).model() == t && (r matches Ok(e) && e.ty
                        == INTERN_TABLE_EXT && e.data@ == enc_uint(i)),
                    None => final(self).model() == tab_insert(
                        t,
                        encoded@,
                        v,
                        value.by_identity,
                        value.addr as int,
                    ) && (r matches Ok(e) && e.ty == INTERN_TABLE_EXT && e.data@ == enc_uint(
                        t.blocks.len() as int,
                    )),
                }
            }),
    {
        if let Some(idx) = self.lookup(value) {
            return Ok(Self::create_reference(idx));
        }
        let ghost t = self.model();
        let idx = self.entries.len();
        self.entries.push(encoded);
        let arc = value.arc_clone();
        if value.by_identity() {
            self.by_id.insert(value.pointer(), idx);
        }
        self.originals.push(arc);
        proof {
            lemma_blocks_view(old(self).entries@);
            lemma_arcs_view(old(self).originals@);
            lemma_blocks_view(self.entries@);
            lemma_arcs_view(self.originals@);
            assert(blocks_view(self.entries@) =~= t.blocks.push(encoded@));
            assert(arcs_view(self.originals@) =~= t.origs.push(view_obj(*value.value)));
            if value.by_identity {
                assert(ids_view(self.by_id@) =~= t.ids.insert(
                    value.addr as int,
                    t.blocks.len() as int,
                ));
            } else {
                assert(ids_view(self.by_id@) =~= t.ids);
            }
            assert(final(self).model() == tab_insert(
                t,
                encoded@,
                view_obj(*value.value),
                value.by_identity,
                value.addr as int,
            ));
        }
        Ok(Self::create_reference(idx))
    }

    /// The reference EXT pointing at entry `index`.
    fn create_reference(index: usize) -> (r: Ext)
        ensures
            r.ty == INTERN_TABLE_EXT,
            r.data@ == enc_uint(index as int),
    {
        let mut buf: Vec<u8> = Vec::new();
        write_uint(&mut buf, index as u64);
        proof {
            assert(buf@ =~= enc_uint(index as int));
        }
        Ext::new(INTERN_TABLE_EXT, buf)
    }
}

struct DecodedInternTable {
    entries: Vec<Object>,
}

enum TableState {
    Encoding(EncodingInternTable),
    Decoding(DecodedInternTable),
}

/// The intern context's model: Idle between calls, an encoding table
/// during `dumps`, the decoded entries during `loads`.
pub enum CtxV {
    Idle,
    Enc(EncTab),
    Dec(Seq<Ov>),
}

impl CtxV {
    /// The encoding table this state stands for: Idle is an empty table
    /// that has not been materialized yet.
    pub open spec fn enc_tab(self) -> EncTab {
        match self {
            CtxV::Enc(t) => t,
            _ => EncTab::empty(),
        }
    }
}

/// The per-call intern state machine.
pub struct InternContext {
    state: Option<TableState>,
}

impl View for InternContext {
    type V = CtxV;

    closed spec fn view(&self) -> CtxV {
        match self.state {
            None => CtxV::Idle,
            Some(TableState::Encoding(t)) => CtxV::Enc(t.model()),
            Some(TableState::Decoding(t)) => CtxV::Dec(view_objs(t.entries@)),
        }
    }
}

impl InternContext {
    /// The context's internal bookkeeping is intact.
    pub closed spec fn wf(&self) -> bool {
        match self.state {
            Some(TableState::Encoding(t)) => t.wf(),
            _ => true,
        }
    }

    pub fn new() -> (r: Self)
        ensures
            r@ == CtxV::Idle,
            r.wf(),
    {
        Self { state: None }
    }

    /// Drop whatever state the previous call left behind.
    pub fn reset(&mut self)
        ensures
            final(self)@ == CtxV::Idle,
            final(self).wf(),
    {
        self.state = None;
    }

    pub fn is_decoding(&self) -> (r: bool)
        ensures
            r == (self@ matches CtxV::Dec(_)),
    {
        matches!(self.state, Some(TableState::Decoding(_)))
    }

    /// Look `value` up in the encoding table without changing anything.
    /// Idle counts as an empty table.
    pub fn lookup(&self, value: &InternValue) -> (r: Result<Option<usize>, Error>)
        requires
            self.wf(),
        ensures
            match r {
                Ok(found) => !(self@ matches CtxV::Dec(_)) && (match found {
                    Some(i) => tab_lookup(
                        self@.enc_tab(),
                        view_obj(*value.value),
                        value.by_identity,
                        value.addr as int,
                    ) == Some(i as int),
                    None => tab_lookup(
                        self@.enc_tab(),
                        view_obj(*value.value),
                        value.by_identity,
                        value.addr as int,
                    ) is None,
                }),
                Err(e) => e == Error::InvalidState && (self@ matches CtxV::Dec(_)),
            },
    {
        match &self.state {
            None => Ok(None),
            Some(TableState::Encoding(t)) => Ok(t.lookup(value)),
            Some(TableState::Decoding(_)) => Err(Error::InvalidState),
        }
    }

    /// Intern a value whose encoded block is already at hand: emit a
    /// reference to the existing entry, or append a new one.  Starts the
    /// encoding table when the context was idle; refused while decoding.
    #[verifier::rlimit(50)]
    pub fn intern(&mut self, value: &InternValue, encoded: Vec<u8>) -> (r: Result<Ext, Error>)
        requires
            old(self).wf(),
        ensures
            final(self).wf(),
            ({
                let t = old(self)@.enc_tab();
                let v = view_obj(*value.value);
                match r {
                    Ok(e) => !(old(self)@ matches CtxV::Dec(_)) && t.blocks.len()
                        < 0x10000000000000000 && e.ty == INTERN_TABLE_EXT
                        && (match tab_lookup(t, v, value.by_identity, value.addr as int) {
                        Some(i) => final(self)@ == CtxV::Enc(t) && e.data@ == enc_uint(i),
                        None => final(self)@ == CtxV::Enc(
                            tab_insert(t, encoded@, v, value.by_identity, value.addr as int),
                        ) && e.data@ == enc_uint(t.blocks.len() as int),
                    }),
                    Err(err) => err == Error::InvalidState && (old(self)@ matches CtxV::Dec(_))
                        && final(self)@ == old(self)@,
                }
            }),
    {
        self.ensure_encoding_table()?;
        match &mut self.state {
            Some(TableState::Encoding(t)) => {
                let n = t.entries.len();
                proof {
                    lemma_blocks_view(t.entries@);
                    assert(t.model().blocks.len() == n as int);
                }
                t.intern(value, encoded)
            },
            _ => Err(Error::InvalidState),
        }
    }

    /// Materialize the encoding table when the context is idle.
    fn ensure_encoding_table(&mut self) -> (r: Result<(), Error>)
        requires
            old(self).wf(),
        ensures
            final(self).wf(),
            match r {
                Ok(()) => final(self)@ == CtxV::Enc(old(self)@.enc_tab()) && !(old(self)@
                    matches CtxV::Dec(_)),
                Err(e) => e == Error::InvalidState && (old(self)@ matches CtxV::Dec(_)) && final(self)@ == old(self)@,
            },
    {
        if matches!(self.state, None) {
            self.state = Some(TableState::Encoding(EncodingInternTable::empty()));
        }
        match &self.state {
            Some(TableState::Encoding(_)) => Ok(()),
            _ => Err(Error::InvalidState),
        }
    }

    /// Close out a `dumps`: hand the main bytes back unchanged when no
    /// value was interned, else wrap table and main bytes in one
    /// intern-table EXT.  The context returns to Idle.
    pub fn finalize_encoding(&mut self, data: Vec<u8>) -> (r: Result<Vec<u8>, Error>)
        requires
            old(self).wf(),
        ensures
            final(self).wf(),
            final(self)@ == CtxV::Idle,
            ({
                let t = old(self)@.enc_tab();
                match old(self)@ {
                    CtxV::Dec(_) => (r matches Err(e) && e == Error::InvalidState),
                    _ => {
                        if t.blocks.len() == 0 {
                            (r matches Ok(out) && out@ == data@)
                        } else if t.blocks.len() <= u32::MAX as int && arr_hdr(
                            t.blocks.len() as int,
                        ).len() + table_bytes(t.blocks).len() + data@.len() <= u32::MAX as int {
                            (r matches Ok(out) && out@ == ext_hdr(
                                (arr_hdr(t.blocks.len() as int) + table_bytes(t.blocks)
                                    + data@).len() as int,
                                INTERN_TABLE_EXT,
                            ) + (arr_hdr(t.blocks.len() as int) + table_bytes(t.blocks) + data@))
                        } else {
                            (r matches Err(e) && e == Error::EncodeFailure)
                        }
                    },
                }
            }),
    {
        let state = self.state.take();
        match state {
            None => Ok(data),
            Some(TableState::Encoding(table)) => {
                if table.is_empty() {
                    Ok(data)
                } else {
                    let mut payload = table.get_bytes()?;
                    put_bytes(&mut payload, data.as_slice());
                    if payload.len() > u32::MAX as usize {
                        return Err(Error::EncodeFailure);
                    }
                    let mut buf: Vec<u8> = Vec::new();
                    write_ext_hdr(&mut buf, payload.len() as u32, INTERN_TABLE_EXT);
                    put_bytes(&mut buf, payload.as_slice());
                    proof {
                        let t = old(self)@.enc_tab();
                        assert(payload@ =~= arr_hdr(t.blocks.len() as int) + table_bytes(t.blocks)
                            + data@);
                        assert(buf@ =~= ext_hdr(payload@.len() as int, INTERN_TABLE_EXT)
                            + payload@);
                    }
                    Ok(buf)
                }
            },
            Some(TableState::Decoding(_)) => Err(Error::InvalidState),
        }
    }

    /// Open the decoded table; refused when any state is already active.
    pub fn start_decoding(&mut self) -> (r: Result<(), Error>)
        requires
            old(self).wf(),
        ensures
            final(self).wf(),
            match r {
                Ok(()) => old(self)@ == CtxV::Idle && final(self)@ == CtxV::Dec(Seq::empty()),
                Err(e) => e == Error::NestedInternTable && !(old(self)@ == CtxV::Idle) && final(self)@ == old(self)@ && final(self).wf() == old(self).wf(),
            },
    {
        if self.state.is_some() {
            return Err(Error::NestedInternTable);
        }
        self.state = Some(TableState::Decoding(DecodedInternTable { entries: Vec::new() }));
        proof {
            assert(view_objs(Seq::<Object>::empty()) =~= Seq::<Ov>::empty());
        }
        Ok(())
    }

    /// Append one decoded entry to the table being loaded.
    pub fn push_decoded(&mut self, value: Object) -> (r: Result<(), Error>)
        requires
            old(self).wf(),
        ensures
            final(self).wf(),
            match r {
                Ok(()) => (old(self)@ matches CtxV::Dec(s) && final(self)@ == CtxV::Dec(
                    s.push(value@),
                )),
                Err(e) => e == Error::InvalidState && !(old(self)@ matches CtxV::Dec(_)) && final(self)@ == old(self)@ && final(self).wf() == old(self).wf(),
            },
    {
        match &mut self.state {
            Some(TableState::Decoding(table)) => {
                let ghost s = table.entries@;
                table.entries.push(value);
                proof {
                    lemma_view_objs(s);
                    lemma_view_objs(s.push(value));
                    assert(view_objs(s.push(value)) =~= view_objs(s).push(value@));
                }
                Ok(())
            },
            _ => Err(Error::InvalidState),
        }
    }

    /// A copy of entry `index`; entries not yet loaded are forward
    /// references and refused.
    pub fn resolve_reference(&self, index: usize) -> (r: Result<Object, Error>)
        ensures
            match self@ {
                CtxV::Dec(s) => s.len() <= usize::MAX as int && (match r {
                    Ok(o) => index < s.len() && o@ == s[index as int],
                    Err(e) => index >= s.len() && e == (Error::ForwardInternReference {
                        index,
                        size: s.len() as usize,
                    }),
                }),
                _ => (r matches Err(e) && e == Error::InvalidState),
            },
    {
        match &self.state {
            Some(TableState::Decoding(table)) => {
                proof {
                    lemma_view_objs(table.entries@);
                }
                if index < table.entries.len() {
                    Ok(clone_obj(&table.entries[index]))
                } else {
                    Err(
                        Error::ForwardInternReference {
                            index,
                            size: table.entries.len(),
                        },
                    )
                }
            },
            _ => Err(Error::InvalidState),
        }
    }

    /// The number of entries loaded so far.
    pub fn decoded_len(&self) -> (r: usize)
        requires
            self@ matches CtxV::Dec(_),
        ensures
            (self@ matches CtxV::Dec(s) && r == s.len()),
    {
        match &self.state {
            Some(TableState::Decoding(table)) => {
                proof {
                    lemma_view_objs(table.entries@);
                }
                table.entries.len()
            },
            _ => 0,
        }
    }

    /// Leave table-decoding mode.
    pub fn finish_decoding(&mut self)
        ensures
            final(self)@ == CtxV::Idle,
            final(self).wf(),
    {
        self.state = None;
    }
}

} // verus!
