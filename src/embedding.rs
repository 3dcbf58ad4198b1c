//! Fixed-length embeddings and the byte layout in which the metadata store
//! keeps them.
//!
//! An embedding is a vector of `NUM_DIMENSIONS` single-precision numbers. The
//! library never does arithmetic on them, so it holds each one as its IEEE-754
//! bit pattern (`f32::to_bits`).
use vstd::prelude::*;

verus! {

/// Number of coefficients in every embedding.
pub const NUM_DIMENSIONS: usize = 13;

/// The little-endian bytes of `x`, `n` of them (higher bytes are dropped).
pub open spec fn le_bytes(x: nat, n: nat) -> Seq<u8>
    decreases n,
{
    if n == 0 {
        Seq::empty()
    } else {
        seq![(x % 256) as u8] + le_bytes(x / 256, (n - 1) as nat)
    }
}

/// Each value of `v` as four little-endian bytes, one after the other.
pub open spec fn u32s_le(v: Seq<u32>) -> Seq<u8>
    decreases v.len(),
{
    if v.len() == 0 {
        Seq::empty()
    } else {
        u32s_le(v.drop_last()) + le_bytes(v.last() as nat, 4)
    }
}

/// The bytes that bincode's default configuration writes for a sequence of
/// `u32`: the length as a little-endian `u64`, then the values.
pub open spec fn bincode_u32s(v: Seq<u32>) -> Seq<u8> {
    le_bytes(v.len(), 8) + u32s_le(v)
}

/// `256` to the power `n`.
pub open spec fn pow256(n: nat) -> nat
    decreases n,
{
    if n == 0 {
        1
    } else {
        256 * pow256((n - 1) as nat)
    }
}

proof fn lemma_pow256_small()
    ensures
        pow256(4) == 0x1_0000_0000,
        pow256(8) == 0x1_0000_0000_0000_0000,
{
    assert(pow256(1) == 256 * pow256(0));
    assert(pow256(2) == 256 * pow256(1));
    assert(pow256(3) == 256 * pow256(2));
    assert(pow256(4) == 256 * pow256(3));
    assert(pow256(5) == 256 * pow256(4));
    assert(pow256(6) == 256 * pow256(5));
    assert(pow256(7) == 256 * pow256(6));
    assert(pow256(8) == 256 * pow256(7));
}

proof fn lemma_le_bytes_len(x: nat, n: nat)
    ensures
        le_bytes(x, n).len() == n,
    decreases n,
{
    if n > 0 {
        lemma_le_bytes_len(x / 256, (n - 1) as nat);
    }
}

/// Two numbers below `256^n` with the same `n` little-endian bytes are equal.
proof fn lemma_le_bytes_injective(x: nat, y: nat, n: nat)
    requires
        x < pow256(n),
        y < pow256(n),
        le_bytes(x, n) == le_bytes(y, n),
    ensures
        x == y,
    decreases n,
{
    if n > 0 {
        let m = (n - 1) as nat;
        let p = pow256(m);
        let bx = le_bytes(x, n);
        let by = le_bytes(y, n);
        assert(bx == seq![(x % 256) as u8] + le_bytes(x / 256, m));
        assert(by == seq![(y % 256) as u8] + le_bytes(y / 256, m));
        assert(bx[0] == (x % 256) as u8);
        assert(by[0] == (y % 256) as u8);
        assert(x % 256 == y % 256);
        lemma_le_bytes_len(x / 256, m);
        lemma_le_bytes_len(y / 256, m);
        assert(le_bytes(x / 256, m) =~= bx.subrange(1, n as int));
        assert(le_bytes(y / 256, m) =~= by.subrange(1, n as int));
        assert(x / 256 < p) by (nonlinear_arith)
            requires
                x < 256 * p,
        ;
        assert(y / 256 < p) by (nonlinear_arith)
            requires
                y < 256 * p,
        ;
        lemma_le_bytes_injective(x / 256, y / 256, m);
        assert(x == 256 * (x / 256) + x % 256);
        assert(y == 256 * (y / 256) + y % 256);
    }
}

proof fn lemma_u32s_le_len(v: Seq<u32>)
    ensures
        u32s_le(v).len() == 4 * v.len(),
    decreases v.len(),
{
    if v.len() > 0 {
        lemma_u32s_le_len(v.drop_last());
        lemma_le_bytes_len(v.last() as nat, 4);
    }
}

proof fn lemma_u32s_le_injective(v: Seq<u32>, w: Seq<u32>)
    requires
        v.len() == w.len(),
        u32s_le(v) == u32s_le(w),
    ensures
        v == w,
    decreases v.len(),
{
    if v.len() > 0 {
        let a = u32s_le(v.drop_last());
        let b = u32s_le(w.drop_last());
        lemma_u32s_le_len(v.drop_last());
        lemma_u32s_le_len(w.drop_last());
        lemma_le_bytes_len(v.last() as nat, 4);
        lemma_le_bytes_len(w.last() as nat, 4);
        assert(a == u32s_le(v).subrange(0, a.len() as int));
        assert(b == u32s_le(w).subrange(0, b.len() as int));
        assert(le_bytes(v.last() as nat, 4) == u32s_le(v).subrange(a.len() as int, u32s_le(v).len() as int));
        assert(le_bytes(w.last() as nat, 4) == u32s_le(w).subrange(b.len() as int, u32s_le(w).len() as int));
        lemma_u32s_le_injective(v.drop_last(), w.drop_last());
        lemma_pow256_small();
        lemma_le_bytes_injective(v.last() as nat, w.last() as nat, 4);
        assert(v == v.drop_last().push(v.last()));
        assert(w == w.drop_last().push(w.last()));
    }
}

/// A `u32` sequence whose encoding starts the encoding of a short sequence `w`
/// is `w` itself.
proof fn lemma_bincode_u32s_prefix(v: Seq<u32>, w: Seq<u32>)
    requires
        bincode_u32s(v).is_prefix_of(bincode_u32s(w)),
        w.len() <= NUM_DIMENSIONS,
    ensures
        v == w,
{
    lemma_le_bytes_len(v.len(), 8);
    lemma_le_bytes_len(w.len(), 8);
    lemma_u32s_le_len(v);
    lemma_u32s_le_len(w);
    let ev = bincode_u32s(v);
    let ew = bincode_u32s(w);
    assert(le_bytes(v.len(), 8) == ev.subrange(0, 8));
    assert(le_bytes(w.len(), 8) == ew.subrange(0, 8));
    assert(ev.subrange(0, 8) == ew.subrange(0, 8));
    lemma_pow256_small();
    lemma_le_bytes_injective(v.len(), w.len(), 8);
    assert(ev =~= ew);
    assert(u32s_le(v) == ev.subrange(8, ev.len() as int));
    assert(u32s_le(w) == ew.subrange(8, ew.len() as int));
    lemma_u32s_le_injective(v, w);
}

/// Relies on `bincode::serialize` (fixed-width integers, little endian, no
/// size limit, written into a `Vec`): a `Vec<u32>` is written as its length as
/// a `u64`, then each value. It fails only for a sequence of unknown length,
/// which a `Vec` never is, so it always succeeds here.
#[verifier::external_body]
fn serialize_u32s(v: &Vec<u32>) -> (r: Option<Vec<u8>>)
    ensures
        r is Some,
        r matches Some(b) ==> b@ == bincode_u32s(v@),
{
    bincode::serialize(v).ok()
}

/// Relies on `bincode::deserialize` (fixed-width integers, little endian,
/// trailing bytes allowed): what it reads is the start of the input, and the
/// bytes that `bincode::serialize` wrote for a `Vec<u32>` read back as that
/// vector.
#[verifier::external_body]
fn deserialize_u32s(b: &Vec<u8>) -> (r: Option<Vec<u32>>)
    ensures
        r matches Some(v) ==> bincode_u32s(v@).is_prefix_of(b@),
        r is None ==> forall|w: Seq<u32>| #[trigger] bincode_u32s(w) != b@,
{
    bincode::deserialize::<Vec<u32>>(b.as_slice()).ok()
}

/// A mean spectral signature: exactly `NUM_DIMENSIONS` values, each held as
/// the bit pattern of an `f32`.
pub struct Embedding {
    bits: Vec<u32>,
}

impl View for Embedding {
    type V = Seq<u32>;

    closed spec fn view(&self) -> Seq<u32> {
        self.bits@
    }
}

impl Embedding {
    #[verifier::type_invariant]
    spec fn has_dimension(&self) -> bool {
        self.bits@.len() == NUM_DIMENSIONS
    }

    /// Takes `bits` as an embedding when it has exactly `NUM_DIMENSIONS` values.
    pub fn from_bits(bits: Vec<u32>) -> (r: Option<Embedding>)
        ensures
            r is Some <==> bits@.len() == NUM_DIMENSIONS,
            r matches Some(e) ==> e@ == bits@,
    {
        if bits.len() == NUM_DIMENSIONS {
            Some(Embedding { bits })
        } else {
            None
        }
    }

    /// The values, as `f32` bit patterns.
    pub fn bits(&self) -> (r: &Vec<u32>)
        ensures
            r@ == self@,
            r@.len() == NUM_DIMENSIONS,
    {
        proof {
            use_type_invariant(self);
        }
        &self.bits
    }

    /// A copy with the same values.
    pub fn duplicate(&self) -> (r: Embedding)
        ensures
            r@ == self@,
            r@.len() == NUM_DIMENSIONS,
    {
        proof {
            use_type_invariant(self);
        }
        Embedding { bits: self.bits.clone() }
    }

    /// The bytes under which the metadata store keeps this embedding.
    pub fn to_blob(&self) -> (r: Vec<u8>)
        ensures
            r@ == bincode_u32s(self@),
    {
        serialize_u32s(&self.bits).unwrap()
    }

    /// Reads an embedding back from the bytes the metadata store keeps.
    /// Bytes written by `to_blob` always read back as the same embedding; what
    /// is read is always an encoding at the start of `blob` of the right length.
    pub fn from_blob(blob: &Vec<u8>) -> (r: Option<Embedding>)
        ensures
            r matches Some(e) ==> bincode_u32s(e@).is_prefix_of(blob@) && e@.len() == NUM_DIMENSIONS,
            forall|w: Seq<u32>|
                #[trigger] bincode_u32s(w) == blob@ && w.len() == NUM_DIMENSIONS ==> (r matches Some(
                    e,
                ) && e@ == w),
    {
        match deserialize_u32s(blob) {
            Some(v) => {
                proof {
                    assert forall|w: Seq<u32>|
                        #[trigger] bincode_u32s(w) == blob@ && w.len() == NUM_DIMENSIONS implies v@
                        == w by {
                        lemma_bincode_u32s_prefix(v@, w);
                    }
                }
                Embedding::from_bits(v)
            },
            None => None,
        }
    }
}

} // verus!
