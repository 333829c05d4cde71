//! The chunk codec: a pure transform from a byte stream to an ordered,
//! size-bounded, transport-safe sequence of chunks and back.

use vstd::prelude::*;
use vstd::arithmetic::div_mod::{lemma_basic_div, lemma_div_is_ordered, lemma_div_plus_one};
use vstd::slice::{slice_subrange, slice_to_vec};

use crate::StoreError;

verus! {

/// Upper bound on a chunk's raw payload, sized so that the Base64 form
/// (4 bytes of text for every 3 raw bytes) never exceeds the platform's
/// single-attachment limit: 18 MiB of raw bytes encode to 24 MiB of text.
pub const MAX_RAW_CHUNK_SIZE: usize = 18_874_368;

/// One bounded slice of an object's raw bytes, tagged with its position.
/// For a given object the indices are contiguous and start at zero.
pub struct Chunk {
    pub index: usize,
    pub payload: Vec<u8>,
}

/// The payload bytes of each chunk, in sequence order.
pub open spec fn payloads(chunks: Seq<Chunk>) -> Seq<Seq<u8>> {
    chunks.map_values(|c: Chunk| c.payload@)
}

/// How many chunks a `len`-byte object yields under a `bound`-byte cap:
/// `ceil(len / bound)`, which is zero exactly for the empty object.
pub open spec fn chunk_count(len: int, bound: int) -> int {
    (len + bound - 1) / bound
}

/// The chunk payloads of `b` under a `bound`-byte cap: full `bound`-byte
/// slices in order, then whatever remains.
pub open spec fn split_bytes(b: Seq<u8>, bound: int) -> Seq<Seq<u8>>
    decreases b.len(),
{
    if bound <= 0 || b.len() == 0 {
        Seq::empty()
    } else if b.len() <= bound {
        seq![b]
    } else {
        seq![b.take(bound)] + split_bytes(b.skip(bound), bound)
    }
}

/// Splitting yields `ceil(len / bound)` chunks.
pub proof fn lemma_split_bytes_count(b: Seq<u8>, bound: int)
    requires
        bound > 0,
    ensures
        split_bytes(b, bound).len() == chunk_count(b.len() as int, bound),
    decreases b.len(),
{
    if b.len() == 0 {
        lemma_basic_div(bound - 1, bound);
    } else if b.len() <= bound {
        lemma_basic_div(b.len() - 1, bound);
        lemma_div_plus_one(b.len() - 1, bound);
    } else {
        lemma_split_bytes_count(b.skip(bound), bound);
        lemma_div_plus_one(b.len() - bound + bound - 1, bound);
    }
}

/// Splitting loses no byte and keeps their order: the payloads flatten
/// back to the original sequence.
pub proof fn lemma_split_bytes_flatten(b: Seq<u8>, bound: int)
    requires
        bound > 0,
    ensures
        split_bytes(b, bound).flatten() == b,
    decreases b.len(),
{
    if b.len() == 0 {
        assert(split_bytes(b, bound).flatten() =~= b);
    } else if b.len() <= bound {
        seq![b].lemma_flatten_one_element();
        assert(split_bytes(b, bound).flatten() =~= b);
    } else {
        let s = split_bytes(b, bound);
        let rest = split_bytes(b.skip(bound), bound);
        lemma_split_bytes_flatten(b.skip(bound), bound);
        assert(s.first() == b.take(bound));
        assert(s.drop_first() =~= rest);
        assert(s.flatten() == b.take(bound) + rest.flatten());
        assert(b.take(bound) + b.skip(bound) =~= b);
    }
}

/// Every chunk stays within the cap, and all but the last are full.
pub proof fn lemma_split_bytes_sizes(b: Seq<u8>, bound: int)
    requires
        bound > 0,
    ensures
        forall|i: int|
            0 <= i < split_bytes(b, bound).len() ==> #[trigger] split_bytes(b, bound)[i].len()
                <= bound,
        forall|i: int|
            0 <= i < split_bytes(b, bound).len() - 1 ==> #[trigger] split_bytes(b, bound)[i].len()
                == bound,
    decreases b.len(),
{
    if b.len() == 0 {
    } else if b.len() <= bound {
    } else {
        lemma_split_bytes_sizes(b.skip(bound), bound);
        let s = split_bytes(b, bound);
        let rest = split_bytes(b.skip(bound), bound);
        assert forall|i: int| 0 <= i < s.len() implies #[trigger] s[i].len() <= bound by {
            if i > 0 {
                assert(s[i] == rest[i - 1]);
            }
        }
        assert forall|i: int| 0 <= i < s.len() - 1 implies #[trigger] s[i].len() == bound by {
            if i > 0 {
                assert(s[i] == rest[i - 1]);
            }
        }
    }
}

/// Cut `bytes` into chunks of at most `bound` bytes, numbered from zero in
/// the order the bytes appear.  The empty input yields no chunks.
pub fn split(bytes: &Vec<u8>, bound: usize) -> (r: Vec<Chunk>)
    requires
        bound > 0,
    ensures
        payloads(r@) == split_bytes(bytes@, bound as int),
        r@.len() == chunk_count(bytes@.len() as int, bound as int),
        forall|i: int| 0 <= i < r@.len() ==> (#[trigger] r@[i]).index == i,
{
    let len: usize = bytes.len();
    let mut chunks: Vec<Chunk> = Vec::new();
    let mut off: usize = 0;
    proof {
        assert(bytes@.skip(0) =~= bytes@);
    }
    while off < len
        invariant
            off <= len,
            len == bytes@.len(),
            bound > 0,
            payloads(chunks@) + split_bytes(bytes@.skip(off as int), bound as int) =~= split_bytes(
                bytes@,
                bound as int,
            ),
            forall|i: int| 0 <= i < chunks@.len() ==> (#[trigger] chunks@[i]).index == i,
        decreases len - off,
    {
        let ghost prev = chunks@;
        let ghost rest = bytes@.skip(off as int);
        let take: usize = if len - off < bound {
            len - off
        } else {
            bound
        };
        let payload: Vec<u8> = slice_to_vec(slice_subrange(bytes.as_slice(), off, off + take));
        let index: usize = chunks.len();
        chunks.push(Chunk { index, payload });
        proof {
            assert(payloads(chunks@) =~= payloads(prev).push(chunks@.last().payload@));
            if rest.len() <= bound {
                assert(chunks@.last().payload@ =~= rest);
                assert(split_bytes(rest, bound as int) == seq![rest]);
            } else {
                assert(chunks@.last().payload@ =~= rest.take(bound as int));
                assert(rest.skip(bound as int) =~= bytes@.skip(off as int + bound as int));
                assert(split_bytes(rest, bound as int) == seq![rest.take(bound as int)]
                    + split_bytes(bytes@.skip(off as int + bound as int), bound as int));
            }
        }
        off = off + take;
    }
    proof {
        assert(bytes@.skip(len as int) =~= Seq::<u8>::empty());
        assert(payloads(chunks@) =~= split_bytes(bytes@, bound as int));
        lemma_split_bytes_count(bytes@, bound as int);
    }
    chunks
}

/// The Base64 text, as bytes, of `b`: standard alphabet, canonical padding.
pub uninterp spec fn base64_of(b: Seq<u8>) -> Seq<u8>;

/// The error type base64's decoder reports; opaque to this crate, which
/// maps it to `StoreError::CodecError`.
#[verifier::external_type_specification]
#[verifier::external_body]
pub struct ExDecodeError(base64::DecodeError);

/// Relies on base64's `STANDARD` engine: `Engine::encode` returns the
/// padded standard-alphabet encoding of its input, four text bytes for
/// every three raw bytes, and depends on the input bytes alone.
#[verifier::external_body]
fn base64_encode(b: &Vec<u8>) -> (r: Vec<u8>)
    requires
        4 * ((b@.len() as int + 2) / 3) <= usize::MAX as int,
    ensures
        r@ == base64_of(b@),
        r@.len() == 4 * ((b@.len() as int + 2) / 3),
{
    base64::Engine::encode(&base64::engine::general_purpose::STANDARD, b).into_bytes()
}

/// Relies on base64's `STANDARD` engine: `Engine::decode` requires
/// canonical padding and rejects set trailing bits, so it accepts exactly
/// the canonical encodings and inverts `Engine::encode`.
#[verifier::external_body]
fn base64_decode(text: &Vec<u8>) -> (r: Result<Vec<u8>, base64::DecodeError>)
    ensures
        r matches Ok(v) ==> text@ == base64_of(v@) && (forall|b: Seq<u8>|
            text@ == base64_of(b) ==> v@ == b),
        r is Err ==> forall|b: Seq<u8>| text@ != base64_of(b),
{
    base64::Engine::decode(&base64::engine::general_purpose::STANDARD, text)
}

/// The transport-safe form of one chunk: the Base64 text of its payload,
/// still tagged with the chunk's position.
pub struct EncodedChunk {
    pub index: usize,
    pub body: Vec<u8>,
}

/// Transform one chunk into its transport-safe form.  Deterministic and
/// reversible; the text grows by exactly the 4:3 Base64 ratio.
pub fn encode(c: &Chunk) -> (r: EncodedChunk)
    requires
        4 * ((c.payload@.len() as int + 2) / 3) <= usize::MAX as int,
    ensures
        r.index == c.index,
        r.body@ == base64_of(c.payload@),
        r.body@.len() == 4 * ((c.payload@.len() as int + 2) / 3),
{
    EncodedChunk { index: c.index, body: base64_encode(&c.payload) }
}

/// Recover a chunk from its transport-safe form.  Returns `CodecError`
/// exactly when the text is not a canonical encoding of any byte
/// sequence, which a well-formed round trip never produces.
pub fn decode(e: &EncodedChunk) -> (r: Result<Chunk, StoreError>)
    ensures
        r matches Ok(c) ==> c.index == e.index && e.body@ == base64_of(c.payload@),
        forall|b: Seq<u8>|
            e.body@ == base64_of(b) ==> (r matches Ok(c) && c.payload@ == b && c.index == e.index),
        r matches Err(err) ==> err == StoreError::CodecError && !(exists|b: Seq<u8>|
            e.body@ == base64_of(b)),
{
    match base64_decode(&e.body) {
        Ok(payload) => Ok(Chunk { index: e.index, payload }),
        Err(_) => Err(StoreError::CodecError),
    }
}

/// Recover raw bytes from Base64 text.  Returns `CodecError` exactly
/// when the text is not a canonical encoding of any byte sequence.
pub fn decode_bytes(text: &Vec<u8>) -> (r: Result<Vec<u8>, StoreError>)
    ensures
        r matches Ok(v) ==> text@ == base64_of(v@) && (forall|b: Seq<u8>|
            text@ == base64_of(b) ==> v@ == b),
        forall|b: Seq<u8>| text@ == base64_of(b) ==> r is Ok,
        r matches Err(err) ==> err == StoreError::CodecError && !(exists|b: Seq<u8>|
            text@ == base64_of(b)),
{
    match base64_decode(text) {
        Ok(payload) => Ok(payload),
        Err(_) => Err(StoreError::CodecError),
    }
}

/// The idempotence law of decoding, executed: decoding one encoded
/// chunk twice succeeds or fails the same way, and on success both runs
/// yield identical bytes, because the result is pinned by the text
/// alone.
pub fn decode_twice(e: &EncodedChunk) -> (r: (Result<Chunk, StoreError>, Result<Chunk, StoreError>))
    ensures
        r.0 is Ok <==> r.1 is Ok,
        r.0 matches Ok(c1) ==> (r.1 matches Ok(c2) && c1.payload@ == c2.payload@ && c1.index
            == c2.index),
{
    (decode(e), decode(e))
}

/// Whether the chunks sit in ascending sequence order with no gap and no
/// duplicate: the chunk at position `i` carries index `i`.
pub open spec fn indices_sequential(chunks: Seq<Chunk>) -> bool {
    forall|i: int| 0 <= i < chunks.len() ==> (#[trigger] chunks[i]).index == i
}

/// Concatenate the payloads in ascending sequence-index order.  Returns
/// `OrderError` exactly when the indices are not contiguous from zero.
pub fn join(chunks: &Vec<Chunk>) -> (r: Result<Vec<u8>, StoreError>)
    ensures
        indices_sequential(chunks@) ==> (r matches Ok(v) && v@ == payloads(chunks@).flatten()),
        !indices_sequential(chunks@) ==> (r matches Err(e) && e == StoreError::OrderError),
{
    let n: usize = chunks.len();
    let mut out: Vec<u8> = Vec::new();
    let mut i: usize = 0;
    proof {
        assert(payloads(chunks@.take(0)).flatten() =~= Seq::<u8>::empty());
    }
    while i < n
        invariant
            i <= n,
            n == chunks@.len(),
            out@ == payloads(chunks@.take(i as int)).flatten(),
            forall|j: int| 0 <= j < i ==> (#[trigger] chunks@[j]).index == j,
        decreases n - i,
    {
        let c = &chunks[i];
        if c.index != i {
            return Err(StoreError::OrderError);
        }
        let ghost prev = out@;
        out.extend_from_slice(c.payload.as_slice());
        proof {
            assert forall|k: int| 0 <= k < out@.len() implies out@[k] == (prev
                + c.payload@)[k] by {
                if k >= prev.len() {
                    assert(cloned::<u8>(c.payload@[k - prev.len()], out@[k]));
                }
            }
            assert(out@ =~= prev + c.payload@);
            payloads(chunks@.take(i as int)).lemma_flatten_push(c.payload@);
            assert(payloads(chunks@.take(i as int)).push(c.payload@) =~= payloads(
                chunks@.take(i as int + 1),
            ));
        }
        i = i + 1;
    }
    proof {
        assert(chunks@.take(n as int) =~= chunks@);
    }
    Ok(out)
}

/// The round-trip law, executed: splitting, encoding, decoding and
/// joining hands back exactly the input bytes, for every input and every
/// positive chunk-size bound.
pub fn codec_round_trip(bytes: &Vec<u8>, bound: usize) -> (r: Vec<u8>)
    requires
        bound > 0,
        4 * ((bound as int + 2) / 3) <= usize::MAX as int,
    ensures
        r@ == bytes@,
{
    let chunks = split(bytes, bound);
    proof {
        lemma_split_bytes_sizes(bytes@, bound as int);
        assert forall|j: int| 0 <= j < chunks@.len() implies (#[trigger] chunks@[j]).payload@.len()
            <= bound by {
            assert(chunks@[j].payload@ == payloads(chunks@)[j]);
        }
    }
    let n: usize = chunks.len();
    let mut rebuilt: Vec<Chunk> = Vec::new();
    let mut i: usize = 0;
    while i < n
        invariant
            i <= n,
            n == chunks@.len(),
            bound > 0,
            4 * ((bound as int + 2) / 3) <= usize::MAX as int,
            forall|j: int|
                0 <= j < n ==> (#[trigger] chunks@[j]).payload@.len() <= bound && chunks@[j].index
                    == j,
            rebuilt@.len() == i,
            forall|j: int|
                0 <= j < i ==> (#[trigger] rebuilt@[j]).payload@ == chunks@[j].payload@
                    && rebuilt@[j].index == j,
        decreases n - i,
    {
        let c = &chunks[i];
        proof {
            lemma_div_is_ordered(c.payload@.len() as int + 2, bound as int + 2, 3);
        }
        let e = encode(c);
        match decode(&e) {
            Ok(back) => {
                rebuilt.push(back);
            },
            Err(_) => {
                return unreached();
            },
        }
        i = i + 1;
    }
    proof {
        assert(payloads(rebuilt@) =~= payloads(chunks@));
        assert(indices_sequential(rebuilt@));
        lemma_split_bytes_flatten(bytes@, bound as int);
    }
    match join(&rebuilt) {
        Ok(v) => v,
        Err(_) => unreached(),
    }
}

} // verus!
