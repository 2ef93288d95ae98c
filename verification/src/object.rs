use std::sync::Arc;
use vstd::prelude::*;

verus! {

broadcast use vstd::std_specs::vec::group_vec_axioms, vstd::seq::group_seq_axioms;

/// A 64-bit integer that keeps its signedness: the full `i64` and `u64`
/// ranges are representable.  Two values are equal when they denote the
/// same mathematical integer.
#[derive(Clone, Copy, Debug)]
pub enum Int {
    Unsigned(u64),
    Signed(i64),
}

impl Int {
    /// The mathematical integer this value denotes.
    pub open spec fn as_int(self) -> int {
        match self {
            Int::Unsigned(v) => v as int,
            Int::Signed(v) => v as int,
        }
    }

    pub fn from_u64(v: u64) -> (r: Int)
        ensures
            r.as_int() == v as int,
    {
        Int::Unsigned(v)
    }

    pub fn from_i64(v: i64) -> (r: Int)
        ensures
            r.as_int() == v as int,
    {
        if v >= 0 {
            Int::Unsigned(v as u64)
        } else {
            Int::Signed(v)
        }
    }

    /// The value as a `u64`, when it is non-negative.
    pub fn as_u64(&self) -> (r: Option<u64>)
        ensures
            match r {
                Some(v) => self.as_int() == v as int,
                None => self.as_int() < 0,
            },
    {
        match self {
            Int::Unsigned(v) => Some(*v),
            Int::Signed(v) => if *v >= 0 {
                Some(*v as u64)
            } else {
                None
            },
        }
    }

    /// The value as an `i64`, when it fits.
    pub fn as_i64(&self) -> (r: Option<i64>)
        ensures
            match r {
                Some(v) => self.as_int() == v as int,
                None => self.as_int() > i64::MAX as int,
            },
    {
        match self {
            Int::Unsigned(v) => if *v <= i64::MAX as u64 {
                Some(*v as i64)
            } else {
                None
            },
            Int::Signed(v) => Some(*v),
        }
    }
}

/// How a custom-type namespace is addressed on the wire: by UTF-8 name or
/// by 32-bit id.
#[derive(Debug)]
pub enum NamespaceRef {
    Name(String),
    Id(u32),
}

/// Model of a [`NamespaceRef`].
pub enum NsV {
    Name(Seq<char>),
    Id(u32),
}

impl View for NamespaceRef {
    type V = NsV;

    open spec fn view(&self) -> NsV {
        match self {
            NamespaceRef::Name(s) => NsV::Name(s@),
            NamespaceRef::Id(v) => NsV::Id(*v),
        }
    }
}

/// A custom-typed payload: the namespace it belongs to, the type id inside
/// that namespace, and the already-encoded payload bytes, carried opaquely.
#[derive(Debug)]
pub struct EncodedCustomType {
    pub namespace: NamespaceRef,
    pub type_id: u32,
    pub data: Vec<u8>,
}

impl EncodedCustomType {
    pub fn new(namespace: NamespaceRef, type_id: u32, data: Vec<u8>) -> (r: Self)
        ensures
            r.namespace@ == namespace@,
            r.type_id == type_id,
            r.data@ == data@,
    {
        Self { namespace, type_id, data }
    }
}

/// A shared handle to an object selected for deduplication.
///
/// `addr` records the storage address of the shared allocation when the
/// handle was made; identity interning keys on it, so handles cloned from
/// one another dedup together while equal values built separately do not.
#[derive(Debug)]
pub struct InternValue {
    pub value: Arc<Object>,
    pub by_identity: bool,
    pub addr: usize,
}

/// Relies on `std::sync::Arc::as_ptr`: returns the address of the shared
/// allocation, stable for the allocation's lifetime, as an opaque token.
#[verifier::external_body]
fn arc_addr(value: &Arc<Object>) -> usize {
    Arc::as_ptr(value) as usize
}

impl InternValue {
    /// Wrap `value` for deduplication by storage identity.
    pub fn new(value: Object) -> (r: Self)
        ensures
            *r.value == value,
            r.by_identity,
    {
        let value = Arc::new(value);
        let addr = arc_addr(&value);
        Self { value, by_identity: true, addr }
    }

    /// Wrap `value` for deduplication by structural equality.
    pub fn by_equality(value: Object) -> (r: Self)
        ensures
            *r.value == value,
            !r.by_identity,
    {
        let value = Arc::new(value);
        let addr = arc_addr(&value);
        Self { value, by_identity: false, addr }
    }

    /// Wrap an existing shared handle.
    pub fn with_arc(value: Arc<Object>, by_identity: bool) -> (r: Self)
        ensures
            *r.value == *value,
            r.by_identity == by_identity,
    {
        let addr = arc_addr(&value);
        Self { value, by_identity, addr }
    }

    pub fn value(&self) -> (r: &Object)
        ensures
            *r == *self.value,
    {
        &self.value
    }

    /// Relies on `std::sync::Arc::clone`: returns a handle to the same
    /// allocation, so the shared value is unchanged.
    #[verifier::external_body]
    pub fn arc_clone(&self) -> (r: Arc<Object>)
        ensures
            *r == *self.value,
    {
        Arc::clone(&self.value)
    }

    /// The identity token of the shared allocation.
    pub fn pointer(&self) -> (r: usize)
        ensures
            r == self.addr,
    {
        self.addr
    }

    pub fn by_identity(&self) -> (r: bool)
        ensures
            r == self.by_identity,
    {
        self.by_identity
    }
}

/// A value that the codec can encode: the tagged union of every
/// representable shape.
///
/// `F32` and `F64` carry the IEEE-754 bit pattern of the number, so that
/// every contract about them is bit-exact.  `Dict` is an ordered list of
/// key/value pairs; key uniqueness is not enforced.
#[derive(Debug)]
pub enum Object {
    Nil,
    Boolean(bool),
    Integer(Int),
    F32(u32),
    F64(u64),
    String(String),
    Binary(Vec<u8>),
    Array(Vec<Object>),
    Dict(Vec<(Object, Object)>),
    Ext(i8, Vec<u8>),
    Custom(EncodedCustomType),
    Intern(InternValue),
}

/// The mathematical model of an [`Object`] tree.
pub enum Ov {
    Nil,
    Boolean(bool),
    Integer(int),
    F32(u32),
    F64(u64),
    Text(Seq<char>),
    Binary(Seq<u8>),
    Array(Seq<Ov>),
    Dict(Seq<(Ov, Ov)>),
    Ext(i8, Seq<u8>),
    Custom(NsV, u32, Seq<u8>),
    Intern(Box<Ov>, bool, int),
}

pub open spec fn view_obj(o: Object) -> Ov
    decreases o,
{
    match o {
        Object::Nil => Ov::Nil,
        Object::Boolean(b) => Ov::Boolean(b),
        Object::Integer(v) => Ov::Integer(v.as_int()),
        Object::F32(bits) => Ov::F32(bits),
        Object::F64(bits) => Ov::F64(bits),
        Object::String(s) => Ov::Text(s@),
        Object::Binary(b) => Ov::Binary(b@),
        Object::Array(v) => Ov::Array(view_objs(v@)),
        Object::Dict(v) => Ov::Dict(view_pairs(v@)),
        Object::Ext(code, data) => Ov::Ext(code, data@),
        Object::Custom(c) => Ov::Custom(c.namespace@, c.type_id, c.data@),
        Object::Intern(iv) => Ov::Intern(Box::new(view_obj(*iv.value)), iv.by_identity, iv.addr as int),
    }
}

pub open spec fn view_objs(s: Seq<Object>) -> Seq<Ov>
    decreases s,
{
    if s.len() == 0 {
        Seq::empty()
    } else {
        seq![view_obj(s[0])] + view_objs(s.drop_first())
    }
}

pub open spec fn view_pairs(s: Seq<(Object, Object)>) -> Seq<(Ov, Ov)>
    decreases s,
{
    if s.len() == 0 {
        Seq::empty()
    } else {
        seq![(view_obj(s[0].0), view_obj(s[0].1))] + view_pairs(s.drop_first())
    }
}

impl View for Object {
    type V = Ov;

    open spec fn view(&self) -> Ov {
        view_obj(*self)
    }
}

impl View for InternValue {
    type V = Ov;

    open spec fn view(&self) -> Ov {
        Ov::Intern(Box::new(view_obj(*self.value)), self.by_identity, self.addr as int)
    }
}

pub broadcast proof fn lemma_view_objs(s: Seq<Object>)
    ensures
        (#[trigger] view_objs(s)).len() == s.len(),
        forall|i: int| 0 <= i < s.len() ==> view_objs(s)[i] == view_obj(s[i]),
    decreases s,
{
    if s.len() > 0 {
        lemma_view_objs(s.drop_first());
        assert forall|i: int| 0 <= i < s.len() implies view_objs(s)[i] == view_obj(s[i]) by {
            if i > 0 {
                assert(view_objs(s)[i] == view_objs(s.drop_first())[i - 1]);
                assert(s.drop_first()[i - 1] == s[i]);
            }
        }
    }
}

pub broadcast proof fn lemma_view_pairs(s: Seq<(Object, Object)>)
    ensures
        (#[trigger] view_pairs(s)).len() == s.len(),
        forall|i: int| 0 <= i < s.len() ==> view_pairs(s)[i]
            == (view_obj(s[i].0), view_obj(s[i].1)),
    decreases s,
{
    if s.len() > 0 {
        lemma_view_pairs(s.drop_first());
        assert forall|i: int| 0 <= i < s.len() implies view_pairs(s)[i]
            == (view_obj(s[i].0), view_obj(s[i].1)) by {
            if i > 0 {
                assert(view_pairs(s)[i] == view_pairs(s.drop_first())[i - 1]);
                assert(s.drop_first()[i - 1] == s[i]);
            }
        }
    }
}

/// Structural equality of two model trees.  Intern nodes compare by their
/// wrapped value and mode; the storage address is ignored, exactly as the
/// executable `==` ignores which allocation a shared handle points into.
pub open spec fn ov_eq(a: Ov, b: Ov) -> bool
    decreases a,
{
    match (a, b) {
        (Ov::Nil, Ov::Nil) => true,
        (Ov::Boolean(x), Ov::Boolean(y)) => x == y,
        (Ov::Integer(x), Ov::Integer(y)) => x == y,
        (Ov::F32(x), Ov::F32(y)) => x == y,
        (Ov::F64(x), Ov::F64(y)) => x == y,
        (Ov::Text(x), Ov::Text(y)) => x == y,
        (Ov::Binary(x), Ov::Binary(y)) => x == y,
        (Ov::Array(x), Ov::Array(y)) => ovs_eq(x, y),
        (Ov::Dict(x), Ov::Dict(y)) => ov_pairs_eq(x, y),
        (Ov::Ext(cx, dx), Ov::Ext(cy, dy)) => cx == cy && dx == dy,
        (Ov::Custom(nx, tx, dx), Ov::Custom(ny, ty, dy)) => nx == ny && tx == ty && dx == dy,
        (Ov::Intern(vx, ix, _), Ov::Intern(vy, iy, _)) => ix == iy && ov_eq(*vx, *vy),
        _ => false,
    }
}

pub open spec fn ovs_eq(x: Seq<Ov>, y: Seq<Ov>) -> bool
    decreases x,
{
    x.len() == y.len() && (x.len() == 0 || (ov_eq(x[0], y[0]) && ovs_eq(
        x.drop_first(),
        y.drop_first(),
    )))
}

pub open spec fn ov_pairs_eq(x: Seq<(Ov, Ov)>, y: Seq<(Ov, Ov)>) -> bool
    decreases x,
{
    x.len() == y.len() && (x.len() == 0 || (ov_eq(x[0].0, y[0].0) && ov_eq(x[0].1, y[0].1)
        && ov_pairs_eq(x.drop_first(), y.drop_first())))
}

/// The structural copy of a model tree in which every intern wrapper is
/// replaced by the value it wraps.
pub open spec fn strip(o: Ov) -> Ov
    decreases o,
{
    match o {
        Ov::Array(s) => Ov::Array(strip_seq(s)),
        Ov::Dict(s) => Ov::Dict(strip_pairs(s)),
        Ov::Intern(v, _, _) => strip(*v),
        _ => o,
    }
}

pub open spec fn strip_seq(s: Seq<Ov>) -> Seq<Ov>
    decreases s,
{
    if s.len() == 0 {
        Seq::empty()
    } else {
        seq![strip(s[0])] + strip_seq(s.drop_first())
    }
}

pub open spec fn strip_pairs(s: Seq<(Ov, Ov)>) -> Seq<(Ov, Ov)>
    decreases s,
{
    if s.len() == 0 {
        Seq::empty()
    } else {
        seq![(strip(s[0].0), strip(s[0].1))] + strip_pairs(s.drop_first())
    }
}

/// A model tree with no intern wrapper anywhere.
pub open spec fn intern_free(o: Ov) -> bool
    decreases o,
{
    match o {
        Ov::Array(s) => intern_free_seq(s),
        Ov::Dict(s) => intern_free_pairs(s),
        Ov::Intern(_, _, _) => false,
        _ => true,
    }
}

pub open spec fn intern_free_seq(s: Seq<Ov>) -> bool
    decreases s,
{
    s.len() == 0 || (intern_free(s[0]) && intern_free_seq(s.drop_first()))
}

pub open spec fn intern_free_pairs(s: Seq<(Ov, Ov)>) -> bool
    decreases s,
{
    s.len() == 0 || (intern_free(s[0].0) && intern_free(s[0].1) && intern_free_pairs(
        s.drop_first(),
    ))
}

fn bytes_eq(a: &Vec<u8>, b: &Vec<u8>) -> (r: bool)
    ensures
        r == (a@ == b@),
{
    let r = *a == *b;
    proof {
        if r {
            assert(a@ =~= b@);
        }
    }
    r
}

fn int_eq(a: &Int, b: &Int) -> (r: bool)
    ensures
        r == (a.as_int() == b.as_int()),
{
    match (a, b) {
        (Int::Unsigned(x), Int::Unsigned(y)) => *x == *y,
        (Int::Signed(x), Int::Signed(y)) => *x == *y,
        (Int::Unsigned(x), Int::Signed(y)) => *y >= 0 && *x == *y as u64,
        (Int::Signed(x), Int::Unsigned(y)) => *x >= 0 && *x as u64 == *y,
    }
}

fn ns_ref_eq(a: &NamespaceRef, b: &NamespaceRef) -> (r: bool)
    ensures
        r == (a@ == b@),
{
    match (a, b) {
        (NamespaceRef::Name(x), NamespaceRef::Name(y)) => *x == *y,
        (NamespaceRef::Id(x), NamespaceRef::Id(y)) => *x == *y,
        _ => false,
    }
}

/// Structural equality of two objects, the executable side of [`ov_eq`].
pub fn obj_eq(a: &Object, b: &Object) -> (r: bool)
    ensures
        r == ov_eq(a@, b@),
    decreases a,
{
    match (a, b) {
        (Object::Nil, Object::Nil) => true,
        (Object::Boolean(x), Object::Boolean(y)) => *x == *y,
        (Object::Integer(x), Object::Integer(y)) => int_eq(x, y),
        (Object::F32(x), Object::F32(y)) => *x == *y,
        (Object::F64(x), Object::F64(y)) => *x == *y,
        (Object::String(x), Object::String(y)) => *x == *y,
        (Object::Binary(x), Object::Binary(y)) => bytes_eq(x, y),
        (Object::Array(x), Object::Array(y)) => objs_eq(x, y),
        (Object::Dict(x), Object::Dict(y)) => obj_pairs_eq(x, y),
        (Object::Ext(cx, dx), Object::Ext(cy, dy)) => *cx == *cy && bytes_eq(dx, dy),
        (Object::Custom(x), Object::Custom(y)) => ns_ref_eq(&x.namespace, &y.namespace)
            && x.type_id == y.type_id && bytes_eq(&x.data, &y.data),
        (Object::Intern(x), Object::Intern(y)) => x.by_identity == y.by_identity && obj_eq(
            &x.value,
            &y.value,
        ),
        _ => false,
    }
}

fn objs_eq(x: &Vec<Object>, y: &Vec<Object>) -> (r: bool)
    ensures
        r == ovs_eq(view_objs(x@), view_objs(y@)),
    decreases x,
{
    broadcast use lemma_view_objs;

    if x.len() != y.len() {
        proof {
            lemma_ovs_eq_pointwise(view_objs(x@), view_objs(y@));
        }
        return false;
    }
    let n = x.len();
    let mut i: usize = 0;
    while i < n
        invariant
            n == x@.len() == y@.len(),
            i <= n,
            forall|j: int| 0 <= j < i ==> ov_eq(view_obj(x@[j]), view_obj(y@[j])),
        decreases n - i,
    {
        if !obj_eq(&x[i], &y[i]) {
            proof {
                lemma_view_objs(x@);
                lemma_view_objs(y@);
                lemma_ovs_eq_pointwise(view_objs(x@), view_objs(y@));
                assert(!ov_eq(view_obj(x@[i as int]), view_obj(y@[i as int])));
                assert(view_objs(x@)[i as int] == view_obj(x@[i as int]));
                assert(view_objs(y@)[i as int] == view_obj(y@[i as int]));
                assert(!ovs_eq(view_objs(x@), view_objs(y@)));
            }
            return false;
        }
        i += 1;
    }
    proof {
        lemma_ovs_eq_pointwise(view_objs(x@), view_objs(y@));
    }
    true
}

fn obj_pairs_eq(x: &Vec<(Object, Object)>, y: &Vec<(Object, Object)>) -> (r: bool)
    ensures
        r == ov_pairs_eq(view_pairs(x@), view_pairs(y@)),
    decreases x,
{
    broadcast use lemma_view_pairs;

    if x.len() != y.len() {
        proof {
            lemma_ov_pairs_eq_pointwise(view_pairs(x@), view_pairs(y@));
        }
        return false;
    }
    let n = x.len();
    let mut i: usize = 0;
    while i < n
        invariant
            n == x@.len() == y@.len(),
            i <= n,
            forall|j: int| 0 <= j < i ==> ov_eq(view_obj(x@[j].0), view_obj(y@[j].0))
                && ov_eq(view_obj(x@[j].1), view_obj(y@[j].1)),
        decreases n - i,
    {
        if !obj_eq(&x[i].0, &y[i].0) {
            proof {
                lemma_view_pairs(x@);
                lemma_view_pairs(y@);
                lemma_ov_pairs_eq_pointwise(view_pairs(x@), view_pairs(y@));
                assert(!ov_eq(view_obj(x@[i as int].0), view_obj(y@[i as int].0)));
                assert(view_pairs(x@)[i as int] == (view_obj(x@[i as int].0), view_obj(
                    x@[i as int].1,
                )));
                assert(!ov_pairs_eq(view_pairs(x@), view_pairs(y@)));
            }
            return false;
        }
        if !obj_eq(&x[i].1, &y[i].1) {
            proof {
                lemma_view_pairs(x@);
                lemma_view_pairs(y@);
                lemma_ov_pairs_eq_pointwise(view_pairs(x@), view_pairs(y@));
                assert(!ov_eq(view_obj(x@[i as int].1), view_obj(y@[i as int].1)));
                assert(view_pairs(y@)[i as int] == (view_obj(y@[i as int].0), view_obj(
                    y@[i as int].1,
                )));
                assert(!ov_pairs_eq(view_pairs(x@), view_pairs(y@)));
            }
            return false;
        }
        i += 1;
    }
    proof {
        lemma_ov_pairs_eq_pointwise(view_pairs(x@), view_pairs(y@));
    }
    true
}

/// [`ovs_eq`] is pointwise equality.
pub proof fn lemma_ovs_eq_pointwise(x: Seq<Ov>, y: Seq<Ov>)
    ensures
        ovs_eq(x, y) <==> (x.len() == y.len() && forall|i: int|
            0 <= i < x.len() ==> ov_eq(x[i], y[i])),
    decreases x,
{
    if x.len() > 0 && x.len() == y.len() {
        lemma_ovs_eq_pointwise(x.drop_first(), y.drop_first());
        if ovs_eq(x, y) {
            assert forall|i: int| 0 <= i < x.len() implies ov_eq(x[i], y[i]) by {
                if i > 0 {
                    assert(x.drop_first()[i - 1] == x[i]);
                    assert(y.drop_first()[i - 1] == y[i]);
                }
            }
        }
        if x.len() == y.len() && (forall|i: int| 0 <= i < x.len() ==> ov_eq(x[i], y[i])) {
            assert forall|j: int| 0 <= j < x.drop_first().len() implies ov_eq(
                x.drop_first()[j],
                y.drop_first()[j],
            ) by {
                assert(x.drop_first()[j] == x[j + 1]);
                assert(y.drop_first()[j] == y[j + 1]);
            }
            assert(ovs_eq(x.drop_first(), y.drop_first()));
        }
    }
}

/// [`ov_pairs_eq`] is pointwise equality.
pub proof fn lemma_ov_pairs_eq_pointwise(x: Seq<(Ov, Ov)>, y: Seq<(Ov, Ov)>)
    ensures
        ov_pairs_eq(x, y) <==> (x.len() == y.len() && forall|i: int|
            0 <= i < x.len() ==> ov_eq(x[i].0, y[i].0) && ov_eq(x[i].1, y[i].1)),
    decreases x,
{
    if x.len() > 0 && x.len() == y.len() {
        lemma_ov_pairs_eq_pointwise(x.drop_first(), y.drop_first());
        if ov_pairs_eq(x, y) {
            assert forall|i: int| 0 <= i < x.len() implies ov_eq(x[i].0, y[i].0) && ov_eq(
                x[i].1,
                y[i].1,
            ) by {
                if i > 0 {
                    assert(x.drop_first()[i - 1] == x[i]);
                    assert(y.drop_first()[i - 1] == y[i]);
                }
            }
        }
        if x.len() == y.len() && (forall|i: int|
            0 <= i < x.len() ==> ov_eq(x[i].0, y[i].0) && ov_eq(x[i].1, y[i].1)) {
            assert forall|j: int| 0 <= j < x.drop_first().len() implies ov_eq(
                x.drop_first()[j].0,
                y.drop_first()[j].0,
            ) && ov_eq(x.drop_first()[j].1, y.drop_first()[j].1) by {
                assert(x.drop_first()[j] == x[j + 1]);
                assert(y.drop_first()[j] == y[j + 1]);
            }
            assert(ov_pairs_eq(x.drop_first(), y.drop_first()));
        }
    }
}

impl PartialEq for Object {
    fn eq(&self, other: &Object) -> (r: bool) {
        obj_eq(self, other)
    }
}

impl vstd::std_specs::cmp::PartialEqSpecImpl for Object {
    open spec fn obeys_eq_spec() -> bool {
        true
    }

    open spec fn eq_spec(&self, other: &Object) -> bool {
        ov_eq(self@, other@)
    }
}

impl PartialEq for InternValue {
    fn eq(&self, other: &InternValue) -> (r: bool) {
        self.by_identity == other.by_identity && obj_eq(&self.value, &other.value)
    }
}

impl vstd::std_specs::cmp::PartialEqSpecImpl for InternValue {
    open spec fn obeys_eq_spec() -> bool {
        true
    }

    open spec fn eq_spec(&self, other: &InternValue) -> bool {
        self.by_identity == other.by_identity && ov_eq(view_obj(*self.value), view_obj(*other.value))
    }
}

impl PartialEq for Int {
    fn eq(&self, other: &Int) -> (r: bool) {
        int_eq(self, other)
    }
}

impl vstd::std_specs::cmp::PartialEqSpecImpl for Int {
    open spec fn obeys_eq_spec() -> bool {
        true
    }

    open spec fn eq_spec(&self, other: &Int) -> bool {
        self.as_int() == other.as_int()
    }
}

impl PartialEq for NamespaceRef {
    fn eq(&self, other: &NamespaceRef) -> (r: bool) {
        ns_ref_eq(self, other)
    }
}

impl vstd::std_specs::cmp::PartialEqSpecImpl for NamespaceRef {
    open spec fn obeys_eq_spec() -> bool {
        true
    }

    open spec fn eq_spec(&self, other: &NamespaceRef) -> bool {
        self@ == other@
    }
}

impl PartialEq for EncodedCustomType {
    fn eq(&self, other: &EncodedCustomType) -> (r: bool) {
        ns_ref_eq(&self.namespace, &other.namespace) && self.type_id == other.type_id
            && bytes_eq(&self.data, &other.data)
    }
}

impl vstd::std_specs::cmp::PartialEqSpecImpl for EncodedCustomType {
    open spec fn obeys_eq_spec() -> bool {
        true
    }

    open spec fn eq_spec(&self, other: &EncodedCustomType) -> bool {
        self.namespace@ == other.namespace@ && self.type_id == other.type_id
            && self.data@ == other.data@
    }
}

fn clone_bytes(v: &Vec<u8>) -> (r: Vec<u8>)
    ensures
        r@ == v@,
{
    let r = v.clone();
    proof {
        assert(r@ =~= v@);
    }
    r
}

impl Clone for NamespaceRef {
    fn clone(&self) -> (r: Self)
        ensures
            r@ == self@,
    {
        match self {
            NamespaceRef::Name(s) => NamespaceRef::Name(s.clone()),
            NamespaceRef::Id(v) => NamespaceRef::Id(*v),
        }
    }
}

impl Clone for EncodedCustomType {
    fn clone(&self) -> (r: Self)
        ensures
            r.namespace@ == self.namespace@,
            r.type_id == self.type_id,
            r.data@ == self.data@,
    {
        EncodedCustomType {
            namespace: self.namespace.clone(),
            type_id: self.type_id,
            data: clone_bytes(&self.data),
        }
    }
}

impl Clone for InternValue {
    /// The clone shares the same allocation, so it dedups together with
    /// the original.
    fn clone(&self) -> (r: Self)
        ensures
            *r.value == *self.value,
            r.by_identity == self.by_identity,
            r.addr == self.addr,
    {
        InternValue {
            value: self.arc_clone(),
            by_identity: self.by_identity,
            addr: self.addr,
        }
    }
}

/// A deep copy whose model is exactly the model of the input.
pub fn clone_obj(o: &Object) -> (r: Object)
    ensures
        r@ == o@,
    decreases o,
{
    match o {
        Object::Nil => Object::Nil,
        Object::Boolean(b) => Object::Boolean(*b),
        Object::Integer(v) => Object::Integer(*v),
        Object::F32(bits) => Object::F32(*bits),
        Object::F64(bits) => Object::F64(*bits),
        Object::String(s) => Object::String(s.clone()),
        Object::Binary(b) => Object::Binary(clone_bytes(b)),
        Object::Array(v) => Object::Array(clone_objs(v)),
        Object::Dict(v) => Object::Dict(clone_pairs(v)),
        Object::Ext(code, data) => Object::Ext(*code, clone_bytes(data)),
        Object::Custom(c) => Object::Custom(c.clone()),
        Object::Intern(iv) => Object::Intern(iv.clone()),
    }
}

fn clone_objs(v: &Vec<Object>) -> (r: Vec<Object>)
    ensures
        view_objs(r@) == view_objs(v@),
        r@.len() == v@.len(),
    decreases v,
{
    let n = v.len();
    let mut out: Vec<Object> = Vec::new();
    let mut i: usize = 0;
    while i < n
        invariant
            n == v@.len(),
            i <= n,
            out@.len() == i,
            forall|j: int| 0 <= j < i ==> view_obj(out@[j]) == view_obj(v@[j]),
        decreases n - i,
    {
        out.push(clone_obj(&v[i]));
        i += 1;
    }
    proof {
        lemma_view_objs(out@);
        lemma_view_objs(v@);
        assert(view_objs(out@) =~= view_objs(v@));
    }
    out
}

fn clone_pairs(v: &Vec<(Object, Object)>) -> (r: Vec<(Object, Object)>)
    ensures
        view_pairs(r@) == view_pairs(v@),
        r@.len() == v@.len(),
    decreases v,
{
    let n = v.len();
    let mut out: Vec<(Object, Object)> = Vec::new();
    let mut i: usize = 0;
    while i < n
        invariant
            n == v@.len(),
            i <= n,
            out@.len() == i,
            forall|j: int| 0 <= j < i ==> view_obj(out@[j].0) == view_obj(v@[j].0)
                && view_obj(out@[j].1) == view_obj(v@[j].1),
        decreases n - i,
    {
        let key = clone_obj(&v[i].0);
        let value = clone_obj(&v[i].1);
        out.push((key, value));
        i += 1;
    }
    proof {
        lemma_view_pairs(out@);
        lemma_view_pairs(v@);
        assert(view_pairs(out@) =~= view_pairs(v@));
    }
    out
}

impl Clone for Object {
    fn clone(&self) -> (r: Self)
        ensures
            r@ == self@,
    {
        clone_obj(self)
    }
}

impl From<bool> for Object {
    fn from(value: bool) -> (r: Self) {
        Object::Boolean(value)
    }
}

impl vstd::std_specs::convert::FromSpecImpl<bool> for Object {
    open spec fn obeys_from_spec() -> bool {
        true
    }

    open spec fn from_spec(v: bool) -> Object {
        Object::Boolean(v)
    }
}

impl From<u64> for Object {
    fn from(value: u64) -> (r: Self) {
        Object::Integer(Int::Unsigned(value))
    }
}

impl vstd::std_specs::convert::FromSpecImpl<u64> for Object {
    open spec fn obeys_from_spec() -> bool {
        true
    }

    open spec fn from_spec(v: u64) -> Object {
        Object::Integer(Int::Unsigned(v))
    }
}

impl From<i64> for Object {
    fn from(value: i64) -> (r: Self) {
        if value >= 0 {
            Object::Integer(Int::Unsigned(value as u64))
        } else {
            Object::Integer(Int::Signed(value))
        }
    }
}

impl vstd::std_specs::convert::FromSpecImpl<i64> for Object {
    open spec fn obeys_from_spec() -> bool {
        true
    }

    open spec fn from_spec(v: i64) -> Object {
        if v >= 0 {
            Object::Integer(Int::Unsigned(v as u64))
        } else {
            Object::Integer(Int::Signed(v))
        }
    }
}

impl From<String> for Object {
    fn from(value: String) -> (r: Self) {
        Object::String(value)
    }
}

impl vstd::std_specs::convert::FromSpecImpl<String> for Object {
    open spec fn obeys_from_spec() -> bool {
        true
    }

    open spec fn from_spec(v: String) -> Object {
        Object::String(v)
    }
}

impl From<&str> for Object {
    fn from(value: &str) -> (r: Self) {
        Object::String(<String as vstd::string::StringExecFns>::from_str(value))
    }
}

impl vstd::std_specs::convert::FromSpecImpl<&str> for Object {
    open spec fn obeys_from_spec() -> bool {
        false
    }

    open spec fn from_spec(v: &str) -> Object {
        Object::Nil
    }
}

impl From<Vec<u8>> for Object {
    fn from(value: Vec<u8>) -> (r: Self) {
        Object::Binary(value)
    }
}

impl vstd::std_specs::convert::FromSpecImpl<Vec<u8>> for Object {
    open spec fn obeys_from_spec() -> bool {
        true
    }

    open spec fn from_spec(v: Vec<u8>) -> Object {
        Object::Binary(v)
    }
}

impl Object {
    /// An object holding an ordered list of key/value pairs.
    pub fn map(entries: Vec<(Object, Object)>) -> (r: Self)
        ensures
            r@ == Ov::Dict(view_pairs(entries@)),
    {
        Object::Dict(entries)
    }

    /// An object holding an ordered list of values.
    pub fn array(values: Vec<Object>) -> (r: Self)
        ensures
            r@ == Ov::Array(view_objs(values@)),
    {
        Object::Array(values)
    }
}

} // verus!
