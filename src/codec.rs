//! Deterministic, fixed-layout byte encoding of the stored values.
//!
//! Integers are little-endian, roots are their 32 bytes, containers are the
//! concatenation of their fields, and a list of integers is the concatenation
//! of its elements.
use vstd::prelude::*;

verus! {

/// Why bytes read back from a table are not a value of the expected type.
#[derive(Debug, Clone, Copy, PartialEq, Eq, Structural)]
pub enum DecodeError {
    /// The byte length is not one the type can have.
    InvalidLength,
    /// A byte holds a value the type does not allow.
    InvalidByte,
}

/// The eight little-endian bytes of `x`.
pub open spec fn u64_bytes(x: u64) -> Seq<u8> {
    seq![
        x as u8,
        (x >> 8u64) as u8,
        (x >> 16u64) as u8,
        (x >> 24u64) as u8,
        (x >> 32u64) as u8,
        (x >> 40u64) as u8,
        (x >> 48u64) as u8,
        (x >> 56u64) as u8,
    ]
}

/// The integer whose little-endian bytes start at `i` in `b`.
pub open spec fn u64_at(b: Seq<u8>, i: int) -> u64 {
    (b[i] as u64) | ((b[i + 1] as u64) << 8u64) | ((b[i + 2] as u64) << 16u64) | ((b[i + 3] as u64)
        << 24u64) | ((b[i + 4] as u64) << 32u64) | ((b[i + 5] as u64) << 40u64) | ((b[i + 6] as u64)
        << 48u64) | ((b[i + 7] as u64) << 56u64)
}

/// Reading back the bytes of `x` gives `x`.
pub proof fn lemma_u64_round_trip(x: u64)
    ensures
        u64_at(u64_bytes(x), 0) == x,
{
    assert(((x as u8) as u64) | (((x >> 8u64) as u8 as u64) << 8u64) | (((x >> 16u64) as u8 as u64)
        << 16u64) | (((x >> 24u64) as u8 as u64) << 24u64) | (((x >> 32u64) as u8 as u64) << 32u64)
        | (((x >> 40u64) as u8 as u64) << 40u64) | (((x >> 48u64) as u8 as u64) << 48u64) | (((x
        >> 56u64) as u8 as u64) << 56u64) == x) by (bit_vector);
}

/// Eight bytes are the bytes of the integer read from them.
pub proof fn lemma_u64_canonical(b: Seq<u8>, i: int)
    requires
        0 <= i,
        i + 8 <= b.len(),
    ensures
        u64_bytes(u64_at(b, i)) == b.subrange(i, i + 8),
{
    let (b0, b1, b2, b3, b4, b5, b6, b7) = (b[i], b[i + 1], b[i + 2], b[i + 3], b[i + 4], b[i + 5], b[i + 6], b[i + 7]);
    let x = u64_at(b, i);
    assert(x == (b0 as u64) | ((b1 as u64) << 8u64) | ((b2 as u64) << 16u64) | ((b3 as u64) << 24u64)
        | ((b4 as u64) << 32u64) | ((b5 as u64) << 40u64) | ((b6 as u64) << 48u64) | ((b7 as u64) << 56u64));
    assert(x as u8 == b0 && (x >> 8u64) as u8 == b1 && (x >> 16u64) as u8 == b2 && (x >> 24u64) as u8 == b3
        && (x >> 32u64) as u8 == b4 && (x >> 40u64) as u8 == b5 && (x >> 48u64) as u8 == b6 && (x >> 56u64) as u8 == b7)
        by (bit_vector)
        requires
            x == (b0 as u64) | ((b1 as u64) << 8u64) | ((b2 as u64) << 16u64) | ((b3 as u64) << 24u64)
                | ((b4 as u64) << 32u64) | ((b5 as u64) << 40u64) | ((b6 as u64) << 48u64) | ((b7 as u64) << 56u64),
    ;
    assert(u64_bytes(x) =~= b.subrange(i, i + 8));
}

/// Appends the little-endian bytes of `x` to `out`.
pub fn put_u64(out: &mut Vec<u8>, x: u64)
    ensures
        final(out)@ == old(out)@ + u64_bytes(x),
{
    out.push(x as u8);
    out.push((x >> 8u64) as u8);
    out.push((x >> 16u64) as u8);
    out.push((x >> 24u64) as u8);
    out.push((x >> 32u64) as u8);
    out.push((x >> 40u64) as u8);
    out.push((x >> 48u64) as u8);
    out.push((x >> 56u64) as u8);
    assert(final(out)@ =~= old(out)@ + u64_bytes(x));
}

/// Reads the integer whose little-endian bytes start at `i`.
pub fn get_u64(b: &[u8], i: usize) -> (r: u64)
    requires
        i + 8 <= b@.len(),
    ensures
        r == u64_at(b@, i as int),
{
    (b[i] as u64) | ((b[i + 1] as u64) << 8u64) | ((b[i + 2] as u64) << 16u64) | ((b[i + 3] as u64)
        << 24u64) | ((b[i + 4] as u64) << 32u64) | ((b[i + 5] as u64) << 40u64) | ((b[i + 6] as u64)
        << 48u64) | ((b[i + 7] as u64) << 56u64)
}

/// What `decode` promises on bytes `b`: a value comes back exactly when some
/// value has `b` as its encoding, and then it is one whose encoding is `b`.
pub open spec fn decodes_to<T: Codec>(b: Seq<u8>, r: Result<T, DecodeError>) -> bool {
    match r {
        Ok(v) => v.encoding() == b,
        Err(_) => forall|v: T| #[trigger] v.encoding() != b,
    }
}

/// A value that has one byte encoding, fixed by its contents alone.
pub trait Codec: Sized {
    /// The bytes that stand for the value.
    spec fn encoding(&self) -> Seq<u8>;

    fn encode(&self) -> (r: Vec<u8>)
        ensures
            r@ == self.encoding(),
    ;

    /// Gives back the value whose encoding is `b`, and fails exactly when
    /// there is none.
    fn decode(b: &[u8]) -> (r: Result<Self, DecodeError>)
        ensures
            r matches Ok(v) ==> v.encoding() == b@,
            r is Err ==> forall|v: Self| #[trigger] v.encoding() != b@,
    ;
}

/// Whatever `decode` returns on the bytes of a value holds a value with those
/// same bytes.
pub proof fn lemma_decode_of_encoding<T: Codec>(v: T, r: Result<T, DecodeError>)
    requires
        decodes_to(v.encoding(), r),
    ensures
        r is Ok,
        r->Ok_0.encoding() == v.encoding(),
{
    if r is Err {
        assert(v.encoding() != v.encoding());
    }
}

impl Codec for u64 {
    open spec fn encoding(&self) -> Seq<u8> {
        u64_bytes(*self)
    }

    fn encode(&self) -> (r: Vec<u8>) {
        let mut out: Vec<u8> = Vec::new();
        put_u64(&mut out, *self);
        assert(out@ =~= u64_bytes(*self));
        out
    }

    fn decode(b: &[u8]) -> (r: Result<u64, DecodeError>) {
        if b.len() != 8 {
            return Err(DecodeError::InvalidLength);
        }
        let x = get_u64(b, 0);
        proof {
            lemma_u64_canonical(b@, 0);
            assert(b@.subrange(0, 8) =~= b@);
        }
        Ok(x)
    }
}

/// Decoding the bytes of an integer gives that integer back.
pub proof fn lemma_u64_codec_round_trip(v: u64, r: Result<u64, DecodeError>)
    requires
        decodes_to(v.encoding(), r),
    ensures
        r == Ok::<u64, DecodeError>(v),
{
    lemma_decode_of_encoding(v, r);
    let w = r->Ok_0;
    lemma_u64_round_trip(v);
    lemma_u64_round_trip(w);
}

impl Codec for bool {
    open spec fn encoding(&self) -> Seq<u8> {
        seq![if *self { 1u8 } else { 0u8 }]
    }

    fn encode(&self) -> (r: Vec<u8>) {
        let mut out: Vec<u8> = Vec::new();
        out.push(if *self { 1u8 } else { 0u8 });
        assert(out@ =~= self.encoding());
        out
    }

    fn decode(b: &[u8]) -> (r: Result<bool, DecodeError>) {
        if b.len() != 1 {
            return Err(DecodeError::InvalidLength);
        }
        if b[0] == 0 {
            assert(b@ =~= false.encoding());
            Ok(false)
        } else if b[0] == 1 {
            assert(b@ =~= true.encoding());
            Ok(true)
        } else {
            assert forall|v: bool| #[trigger] v.encoding() != b@ by {
                assert(v.encoding()[0] != b@[0]);
            }
            Err(DecodeError::InvalidByte)
        }
    }
}

/// Decoding the byte of a flag gives that flag back.
pub proof fn lemma_bool_codec_round_trip(v: bool, r: Result<bool, DecodeError>)
    requires
        decodes_to(v.encoding(), r),
    ensures
        r == Ok::<bool, DecodeError>(v),
{
    lemma_decode_of_encoding(v, r);
    let w = r->Ok_0;
    assert(w.encoding()[0] == v.encoding()[0]);
}

/// A 32-byte digest that names a block or a state by its contents.
#[derive(Debug, Clone, Copy, PartialEq, Eq)]
pub struct Root {
    pub bytes: [u8; 32],
}

/// Copies the `N` bytes that start at `i` into an array.
pub fn get_array<const N: usize>(b: &[u8], i: usize) -> (r: [u8; N])
    requires
        i + N <= b@.len(),
    ensures
        r@ == b@.subrange(i as int, i + N),
{
    let mut a: [u8; N] = [0u8; N];
    let n: usize = b.len();
    let mut k: usize = 0;
    while k < N
        invariant
            k <= N,
            n == b@.len(),
            i + N <= b@.len(),
            a@.len() == N,
            forall|j: int| 0 <= j < k ==> a@[j] == b@[i + j],
        decreases N - k,
    {
        a[k] = b[i + k];
        k = k + 1;
    }
    assert(a@ =~= b@.subrange(i as int, i + N));
    a
}

/// Appends the bytes of `a` to `out`.
pub fn put_bytes(out: &mut Vec<u8>, a: &[u8])
    ensures
        final(out)@ == old(out)@ + a@,
{
    let mut k: usize = 0;
    while k < a.len()
        invariant
            k <= a@.len(),
            out@ == old(out)@ + a@.subrange(0, k as int),
        decreases a@.len() - k,
    {
        out.push(a[k]);
        assert(a@.subrange(0, k + 1) =~= a@.subrange(0, k as int).push(a@[k as int]));
        k = k + 1;
    }
    assert(a@.subrange(0, a@.len() as int) =~= a@);
}

impl Codec for Root {
    open spec fn encoding(&self) -> Seq<u8> {
        self.bytes@
    }

    fn encode(&self) -> (r: Vec<u8>) {
        let mut out: Vec<u8> = Vec::new();
        put_bytes(&mut out, &self.bytes);
        assert(out@ =~= self.bytes@);
        out
    }

    fn decode(b: &[u8]) -> (r: Result<Root, DecodeError>) {
        if b.len() != 32 {
            return Err(DecodeError::InvalidLength);
        }
        let bytes: [u8; 32] = get_array(b, 0);
        assert(b@.subrange(0, 32) =~= b@);
        Ok(Root { bytes })
    }
}

/// Decoding the bytes of a root gives that root back.
pub proof fn lemma_root_codec_round_trip(v: Root, r: Result<Root, DecodeError>)
    requires
        decodes_to(v.encoding(), r),
    ensures
        r == Ok::<Root, DecodeError>(v),
{
    broadcast use vstd::array::group_array_axioms;

    lemma_decode_of_encoding(v, r);
    assert(r->Ok_0.bytes =~= v.bytes);
}

/// A consensus marker: an epoch and the root of the block it names.
#[derive(Debug, Clone, Copy, PartialEq, Eq)]
pub struct Checkpoint {
    pub epoch: u64,
    pub root: Root,
}

impl Codec for Checkpoint {
    open spec fn encoding(&self) -> Seq<u8> {
        u64_bytes(self.epoch) + self.root.bytes@
    }

    fn encode(&self) -> (r: Vec<u8>) {
        let mut out: Vec<u8> = Vec::new();
        put_u64(&mut out, self.epoch);
        put_bytes(&mut out, &self.root.bytes);
        assert(out@ =~= self.encoding());
        out
    }

    fn decode(b: &[u8]) -> (r: Result<Checkpoint, DecodeError>) {
        if b.len() != 40 {
            return Err(DecodeError::InvalidLength);
        }
        let epoch = get_u64(b, 0);
        let bytes: [u8; 32] = get_array(b, 8);
        let v = Checkpoint { epoch, root: Root { bytes } };
        proof {
            lemma_u64_canonical(b@, 0);
            assert(b@ =~= b@.subrange(0, 8) + b@.subrange(8, 40));
        }
        Ok(v)
    }
}

/// Decoding the bytes of a checkpoint gives that checkpoint back.
pub proof fn lemma_checkpoint_codec_round_trip(v: Checkpoint, r: Result<Checkpoint, DecodeError>)
    requires
        decodes_to(v.encoding(), r),
    ensures
        r == Ok::<Checkpoint, DecodeError>(v),
{
    broadcast use vstd::array::group_array_axioms;

    lemma_decode_of_encoding(v, r);
    let w = r->Ok_0;
    let e = v.encoding();
    assert(w.encoding().subrange(0, 8) =~= u64_bytes(w.epoch));
    assert(e.subrange(0, 8) =~= u64_bytes(v.epoch));
    assert(w.encoding().subrange(8, 40) =~= w.root.bytes@);
    assert(e.subrange(8, 40) =~= v.root.bytes@);
    lemma_u64_round_trip(v.epoch);
    lemma_u64_round_trip(w.epoch);
    assert(w.root.bytes =~= v.root.bytes);
}

/// The summary of a block that a proposer signs.
#[derive(Debug, Clone, Copy, PartialEq, Eq)]
pub struct BeaconBlockHeader {
    pub slot: u64,
    pub proposer_index: u64,
    pub parent_root: Root,
    pub state_root: Root,
    pub body_root: Root,
}

impl Codec for BeaconBlockHeader {
    open spec fn encoding(&self) -> Seq<u8> {
        u64_bytes(self.slot) + u64_bytes(self.proposer_index) + self.parent_root.bytes@
            + self.state_root.bytes@ + self.body_root.bytes@
    }

    fn encode(&self) -> (r: Vec<u8>) {
        let mut out: Vec<u8> = Vec::new();
        put_u64(&mut out, self.slot);
        put_u64(&mut out, self.proposer_index);
        put_bytes(&mut out, &self.parent_root.bytes);
        put_bytes(&mut out, &self.state_root.bytes);
        put_bytes(&mut out, &self.body_root.bytes);
        assert(out@ =~= self.encoding());
        out
    }

    fn decode(b: &[u8]) -> (r: Result<BeaconBlockHeader, DecodeError>) {
        if b.len() != 112 {
            return Err(DecodeError::InvalidLength);
        }
        let slot = get_u64(b, 0);
        let proposer_index = get_u64(b, 8);
        let parent: [u8; 32] = get_array(b, 16);
        let state: [u8; 32] = get_array(b, 48);
        let body: [u8; 32] = get_array(b, 80);
        let v = BeaconBlockHeader {
            slot,
            proposer_index,
            parent_root: Root { bytes: parent },
            state_root: Root { bytes: state },
            body_root: Root { bytes: body },
        };
        proof {
            lemma_u64_canonical(b@, 0);
            lemma_u64_canonical(b@, 8);
            assert(b@ =~= b@.subrange(0, 8) + b@.subrange(8, 16) + b@.subrange(16, 48) + b@.subrange(
                48,
                80,
            ) + b@.subrange(80, 112));
        }
        Ok(v)
    }
}

/// Decoding the bytes of a block header gives that header back.
pub proof fn lemma_header_codec_round_trip(
    v: BeaconBlockHeader,
    r: Result<BeaconBlockHeader, DecodeError>,
)
    requires
        decodes_to(v.encoding(), r),
    ensures
        r == Ok::<BeaconBlockHeader, DecodeError>(v),
{
    broadcast use vstd::array::group_array_axioms;

    lemma_decode_of_encoding(v, r);
    let w = r->Ok_0;
    let e = v.encoding();
    let f = w.encoding();
    assert(f.subrange(0, 8) =~= u64_bytes(w.slot));
    assert(e.subrange(0, 8) =~= u64_bytes(v.slot));
    assert(f.subrange(8, 16) =~= u64_bytes(w.proposer_index));
    assert(e.subrange(8, 16) =~= u64_bytes(v.proposer_index));
    assert(f.subrange(16, 48) =~= w.parent_root.bytes@);
    assert(e.subrange(16, 48) =~= v.parent_root.bytes@);
    assert(f.subrange(48, 80) =~= w.state_root.bytes@);
    assert(e.subrange(48, 80) =~= v.state_root.bytes@);
    assert(f.subrange(80, 112) =~= w.body_root.bytes@);
    assert(e.subrange(80, 112) =~= v.body_root.bytes@);
    lemma_u64_round_trip(v.slot);
    lemma_u64_round_trip(w.slot);
    lemma_u64_round_trip(v.proposer_index);
    lemma_u64_round_trip(w.proposer_index);
    assert(w.parent_root.bytes =~= v.parent_root.bytes);
    assert(w.state_root.bytes =~= v.state_root.bytes);
    assert(w.body_root.bytes =~= v.body_root.bytes);
}

/// A 96-byte BLS signature.
#[derive(Debug, Clone, Copy, PartialEq, Eq)]
pub struct BlsSignature {
    pub bytes: [u8; 96],
}

/// A block header with its proposer's signature.
#[derive(Debug, Clone, Copy, PartialEq, Eq)]
pub struct SignedBeaconBlockHeader {
    pub message: BeaconBlockHeader,
    pub signature: BlsSignature,
}

impl Codec for SignedBeaconBlockHeader {
    open spec fn encoding(&self) -> Seq<u8> {
        self.message.encoding() + self.signature.bytes@
    }

    fn encode(&self) -> (r: Vec<u8>) {
        let mut out = self.message.encode();
        put_bytes(&mut out, &self.signature.bytes);
        out
    }

    fn decode(b: &[u8]) -> (r: Result<SignedBeaconBlockHeader, DecodeError>) {
        if b.len() != 208 {
            return Err(DecodeError::InvalidLength);
        }
        let head: [u8; 112] = get_array(b, 0);
        let sig: [u8; 96] = get_array(b, 112);
        let message = match BeaconBlockHeader::decode(&head) {
            Ok(m) => m,
            Err(e) => {
                assert forall|v: SignedBeaconBlockHeader| #[trigger] v.encoding() != b@ by {
                    if v.encoding() == b@ {
                        assert(v.message.encoding() =~= head@);
                    }
                }
                return Err(e);
            },
        };
        assert(b@ =~= b@.subrange(0, 112) + b@.subrange(112, 208));
        Ok(SignedBeaconBlockHeader { message, signature: BlsSignature { bytes: sig } })
    }
}

/// Decoding the bytes of a signed header gives that signed header back.
pub proof fn lemma_signed_header_codec_round_trip(
    v: SignedBeaconBlockHeader,
    r: Result<SignedBeaconBlockHeader, DecodeError>,
)
    requires
        decodes_to(v.encoding(), r),
    ensures
        r == Ok::<SignedBeaconBlockHeader, DecodeError>(v),
{
    broadcast use vstd::array::group_array_axioms;

    lemma_decode_of_encoding(v, r);
    let w = r->Ok_0;
    assert(w.encoding().subrange(0, 112) =~= w.message.encoding());
    assert(v.encoding().subrange(0, 112) =~= v.message.encoding());
    assert(w.encoding().subrange(112, 208) =~= w.signature.bytes@);
    assert(v.encoding().subrange(112, 208) =~= v.signature.bytes@);
    lemma_header_codec_round_trip(v.message, Ok(w.message));
    assert(w.signature.bytes =~= v.signature.bytes);
}

/// The concatenated little-endian bytes of a list of integers.
pub open spec fn u64s_bytes(s: Seq<u64>) -> Seq<u8>
    decreases s.len(),
{
    if s.len() == 0 {
        Seq::empty()
    } else {
        u64s_bytes(s.drop_last()) + u64_bytes(s.last())
    }
}

proof fn lemma_u64s_bytes_len(s: Seq<u64>)
    ensures
        u64s_bytes(s).len() == 8 * s.len(),
    decreases s.len(),
{
    if s.len() > 0 {
        lemma_u64s_bytes_len(s.drop_last());
    }
}

proof fn lemma_u64s_bytes_injective(s: Seq<u64>, t: Seq<u64>)
    requires
        u64s_bytes(s) == u64s_bytes(t),
    ensures
        s == t,
    decreases s.len(),
{
    lemma_u64s_bytes_len(s);
    lemma_u64s_bytes_len(t);
    if s.len() > 0 {
        let n = 8 * (s.len() - 1);
        lemma_u64s_bytes_len(s.drop_last());
        lemma_u64s_bytes_len(t.drop_last());
        assert(u64s_bytes(s).subrange(0, n) =~= u64s_bytes(s.drop_last()));
        assert(u64s_bytes(t).subrange(0, n) =~= u64s_bytes(t.drop_last()));
        assert(u64s_bytes(s).subrange(n, n + 8) =~= u64_bytes(s.last()));
        assert(u64s_bytes(t).subrange(n, n + 8) =~= u64_bytes(t.last()));
        lemma_u64s_bytes_injective(s.drop_last(), t.drop_last());
        lemma_u64_round_trip(s.last());
        lemma_u64_round_trip(t.last());
        assert(s =~= s.drop_last().push(s.last()));
        assert(t =~= t.drop_last().push(t.last()));
    } else {
        assert(s =~= t);
    }
}

impl Codec for Vec<u64> {
    open spec fn encoding(&self) -> Seq<u8> {
        u64s_bytes(self@)
    }

    fn encode(&self) -> (r: Vec<u8>) {
        let mut out: Vec<u8> = Vec::new();
        let mut i: usize = 0;
        while i < self.len()
            invariant
                i <= self@.len(),
                out@ == u64s_bytes(self@.subrange(0, i as int)),
            decreases self@.len() - i,
        {
            put_u64(&mut out, self[i]);
            assert(self@.subrange(0, i + 1).drop_last() =~= self@.subrange(0, i as int));
            i = i + 1;
        }
        assert(self@.subrange(0, self@.len() as int) =~= self@);
        out
    }

    fn decode(b: &[u8]) -> (r: Result<Vec<u64>, DecodeError>) {
        if b.len() % 8 != 0 {
            assert forall|v: Vec<u64>| #[trigger] v.encoding() != b@ by {
                lemma_u64s_bytes_len(v@);
            }
            return Err(DecodeError::InvalidLength);
        }
        let len: usize = b.len();
        let n: usize = len / 8;
        let mut out: Vec<u64> = Vec::new();
        let mut i: usize = 0;
        while i < n
            invariant
                i <= n,
                len == b@.len(),
                n * 8 == b@.len(),
                out@.len() == i,
                u64s_bytes(out@) == b@.subrange(0, 8 * i),
            decreases n - i,
        {
            assert(8 * i + 8 <= 8 * n) by (nonlinear_arith)
                requires
                    i < n,
            ;
            let x = get_u64(b, 8 * i);
            proof {
                lemma_u64_canonical(b@, 8 * i);
            }
            let ghost before = out@;
            out.push(x);
            assert(out@.drop_last() =~= before);
            assert(b@.subrange(0, 8 * (i + 1)) =~= b@.subrange(0, 8 * i) + b@.subrange(
                8 * i,
                8 * i + 8,
            ));
            i = i + 1;
        }
        assert(b@.subrange(0, 8 * n) =~= b@);
        Ok(out)
    }
}

/// Decoding the bytes of a list of integers gives that list back.
pub proof fn lemma_u64s_codec_round_trip(v: Vec<u64>, r: Result<Vec<u64>, DecodeError>)
    requires
        decodes_to(v.encoding(), r),
    ensures
        r is Ok,
        r->Ok_0@ == v@,
{
    lemma_decode_of_encoding(v, r);
    lemma_u64s_bytes_injective(r->Ok_0@, v@);
}

/// Bytes that another component has already encoded (a block, a state, a
/// blob bundle), stored as they are.
#[derive(Debug, Clone, PartialEq, Eq)]
pub struct Payload {
    pub bytes: Vec<u8>,
}

impl Codec for Payload {
    open spec fn encoding(&self) -> Seq<u8> {
        self.bytes@
    }

    fn encode(&self) -> (r: Vec<u8>) {
        let mut out: Vec<u8> = Vec::new();
        put_bytes(&mut out, self.bytes.as_slice());
        out
    }

    fn decode(b: &[u8]) -> (r: Result<Payload, DecodeError>) {
        let mut bytes: Vec<u8> = Vec::new();
        put_bytes(&mut bytes, b);
        Ok(Payload { bytes })
    }
}

/// Decoding the bytes of a payload gives back a payload with those bytes.
pub proof fn lemma_payload_codec_round_trip(v: Payload, r: Result<Payload, DecodeError>)
    requires
        decodes_to(v.encoding(), r),
    ensures
        r is Ok,
        r->Ok_0.bytes@ == v.bytes@,
{
    lemma_decode_of_encoding(v, r);
}

} // verus!
