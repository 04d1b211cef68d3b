//! Identity and tagging primitives shared by every replica structure.
use vstd::prelude::*;

verus! {

/// Abstract identity of a replica: its port and the characters of its address.
pub type IdV = (i64, Seq<char>);

/// Abstract dot: the originating replica and the update counter.
pub type DotV = (IdV, i64);

/// Values that can be stored in the replicated set.
///
/// Equality of elements is equality of their views, and copies keep the view.
pub trait Element: Sized + View {
    fn same(&self, other: &Self) -> (r: bool)
        ensures
            r == (self@ == other@),
    ;

    fn duplicate(&self) -> (r: Self)
        ensures
            r@ == self@,
    ;
}

impl Element for i32 {
    fn same(&self, other: &Self) -> (r: bool) {
        *self == *other
    }

    fn duplicate(&self) -> (r: Self) {
        *self
    }
}

impl Element for i64 {
    fn same(&self, other: &Self) -> (r: bool) {
        *self == *other
    }

    fn duplicate(&self) -> (r: Self) {
        *self
    }
}

impl Element for u32 {
    fn same(&self, other: &Self) -> (r: bool) {
        *self == *other
    }

    fn duplicate(&self) -> (r: Self) {
        *self
    }
}

impl Element for u64 {
    fn same(&self, other: &Self) -> (r: bool) {
        *self == *other
    }

    fn duplicate(&self) -> (r: Self) {
        *self
    }
}

impl Element for String {
    fn same(&self, other: &Self) -> (r: bool) {
        *self == *other
    }

    fn duplicate(&self) -> (r: Self) {
        self.clone()
    }
}

/// The size in bytes of one `i64`.
pub const I64_BYTES: usize = 8;

/// Replica identity: totally ordered, hashable, immutable.
#[derive(Clone, Debug, PartialEq, Eq, Hash, PartialOrd, Ord)]
pub struct NodeId {
    pub port: i64,
    pub addr: String,
}

impl View for NodeId {
    type V = IdV;

    open spec fn view(&self) -> IdV {
        (self.port, self.addr@)
    }
}

impl NodeId {
    pub fn new(port: i64, addr: String) -> (r: NodeId)
        ensures
            r.port == port,
            r.addr@ == addr@,
    {
        NodeId { port, addr }
    }

    /// Compares two identities by port and address.
    pub fn same_id(&self, other: &NodeId) -> (r: bool)
        ensures
            r == (self@ == other@),
    {
        self.port == other.port && self.addr == other.addr
    }

    /// A copy with the same port and address.
    pub fn copy_id(&self) -> (r: NodeId)
        ensures
            r@ == self@,
    {
        NodeId { port: self.port, addr: self.addr.clone() }
    }

    pub open spec fn num_bytes(&self) -> int {
        vstd::utf8::encode_utf8(self.addr@).len() + I64_BYTES
    }

    /// Bytes of the address plus those of the port.
    pub fn get_num_bytes(&self) -> (r: usize)
        requires
            self.num_bytes() <= usize::MAX,
        ensures
            r as int == self.num_bytes(),
    {
        self.addr.as_str().len() + I64_BYTES
    }
}

/// Causal identifier: the `n`-th update originated at `id`.
#[derive(Clone, Debug, PartialEq, Eq, Hash)]
pub struct Dot {
    pub id: NodeId,
    pub n: i64,
}

impl View for Dot {
    type V = DotV;

    open spec fn view(&self) -> DotV {
        (self.id@, self.n)
    }
}

impl Dot {
    pub fn new(id: NodeId, n: i64) -> (r: Dot)
        ensures
            r@ == (id@, n),
    {
        Dot { id, n }
    }

    pub fn copy_dot(&self) -> (r: Dot)
        ensures
            r@ == self@,
    {
        Dot { id: self.id.copy_id(), n: self.n }
    }

    /// Tags `elem` with this dot's counter.
    pub fn to_tag<E: Element>(&self, elem: &E) -> (r: Payload<E>)
        ensures
            r.n == self.n,
            r.elem@ == elem@,
    {
        Payload { n: self.n, elem: elem.duplicate() }
    }

    pub open spec fn num_bytes(&self) -> int {
        self.id.num_bytes() + I64_BYTES
    }

    /// Bytes of the identity plus those of the counter.
    pub fn get_num_bytes(&self) -> (r: usize)
        requires
            self.num_bytes() <= usize::MAX,
        ensures
            r as int == self.num_bytes(),
    {
        self.id.get_num_bytes() + I64_BYTES
    }
}

/// An element tagged with the counter of the dot that created it; its origin is
/// the key it is stored under.
#[derive(Clone, Debug, PartialEq, Eq, Hash)]
pub struct Payload<E> {
    pub n: i64,
    pub elem: E,
}

impl<E: Element> View for Payload<E> {
    type V = (i64, E::V);

    open spec fn view(&self) -> (i64, E::V) {
        (self.n, self.elem@)
    }
}

impl<E: Element> Payload<E> {
    pub fn new(n: i64, elem: E) -> (r: Payload<E>)
        ensures
            r.n == n,
            r.elem@ == elem@,
    {
        Payload { n, elem }
    }

    pub fn copy_payload(&self) -> (r: Payload<E>)
        ensures
            r@ == self@,
    {
        Payload { n: self.n, elem: self.elem.duplicate() }
    }

    /// The dot of this payload when it originated at `id`.
    pub fn to_dot(&self, id: &NodeId) -> (r: Dot)
        ensures
            r@ == (id@, self.n),
    {
        Dot { id: id.copy_id(), n: self.n }
    }

    pub open spec fn num_bytes() -> int {
        I64_BYTES + vstd::layout::size_of::<E>()
    }

    /// Bytes of the counter and of the element value.
    pub fn get_num_bytes(&self) -> (r: usize)
        requires
            Self::num_bytes() <= usize::MAX,
        ensures
            r as int == Self::num_bytes(),
    {
        I64_BYTES + core::mem::size_of::<E>()
    }
}

/// The clock pair that correlates slots, tokens and translations: `sck` counts
/// the hand-offs sent downward, `dck` the hand-offs reserved for incoming batches.
#[derive(Clone, Copy, Debug, PartialEq, Eq, Structural, Hash)]
pub struct Ck {
    pub sck: i64,
    pub dck: i64,
}

impl Ck {
    pub fn new(sck: i64, dck: i64) -> (r: Ck)
        ensures
            r.sck == sck,
            r.dck == dck,
    {
        Ck { sck, dck }
    }

    pub fn get_num_bytes(&self) -> (r: usize)
        ensures
            r == 2 * I64_BYTES,
    {
        I64_BYTES + I64_BYTES
    }
}

/// A dot that also carries the sender clock under which it was produced.
#[derive(Clone, Debug, PartialEq, Eq, Hash)]
pub struct TDot {
    pub id: NodeId,
    pub sck: i64,
    pub n: i64,
}

impl TDot {
    pub fn new(id: NodeId, sck: i64, n: i64) -> (r: TDot)
        ensures
            r.id@ == id@,
            r.sck == sck,
            r.n == n,
    {
        TDot { id, sck, n }
    }

    /// The plain dot, without the sender clock.
    pub fn to_dot(&self) -> (r: Dot)
        ensures
            r@ == (self.id@, self.n),
    {
        Dot { id: self.id.copy_id(), n: self.n }
    }

    pub open spec fn num_bytes(&self) -> int {
        self.id.num_bytes() + 2 * I64_BYTES
    }

    pub fn get_num_bytes(&self) -> (r: usize)
        requires
            self.num_bytes() <= usize::MAX,
        ensures
            r as int == self.num_bytes(),
    {
        self.id.get_num_bytes() + I64_BYTES + I64_BYTES
    }
}

} // verus!
