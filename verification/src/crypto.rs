//! Digests, public keys and signatures.
use ed25519_dalek::Digest as _;
use vstd::prelude::*;

use crate::keys::Key;

verus! {

/// The first bytes of a hash, which name a header, a vote or a certificate.
#[derive(Clone, Copy, Debug, PartialEq, Eq, PartialOrd, Ord, Hash)]
pub struct Digest(pub [u8; 32]);

/// The ed25519 public key of an authority.
#[derive(Clone, Copy, Debug, PartialEq, Eq, PartialOrd, Ord, Hash)]
pub struct PublicKey(pub [u8; 32]);

/// An ed25519 signature, in two halves.
#[derive(Clone, Copy, Debug, PartialEq, Eq, Hash)]
pub struct Signature {
    pub part1: [u8; 32],
    pub part2: [u8; 32],
}

/// Thirty-two zero bytes.
pub open spec fn zero_bytes() -> Seq<u8> {
    Seq::new(32, |i: int| 0u8)
}

impl Digest {
    /// The digest made of the first 32 bytes of `bytes`.
    pub open spec fn of_bytes(bytes: Seq<u8>) -> Digest {
        choose|d: Digest| d.0@ == bytes.take(32)
    }

    /// Keeps the first 32 bytes of a hash.
    pub fn truncated(output: &Vec<u8>) -> (r: Digest)
        requires
            output@.len() >= 32,
        ensures
            r == Digest::of_bytes(output@),
            r.0@ == output@.take(32),
    {
        let mut bytes: [u8; 32] = [0u8; 32];
        let mut i: usize = 0;
        while i < 32
            invariant
                i <= 32,
                output@.len() >= 32,
                forall|j: int| 0 <= j < i ==> bytes@[j] == output@[j],
            decreases 32 - i,
        {
            bytes[i] = output[i];
            i = i + 1;
        }
        let r = Digest(bytes);
        proof {
            assert(r.0@ =~= output@.take(32));
            let d = Digest::of_bytes(output@);
            assert(d.0@ == output@.take(32));
            lemma_digest_bytes(r, d);
        }
        r
    }

    /// The number of bytes of a digest.
    pub fn size(&self) -> (r: usize)
        ensures
            r == 32,
    {
        32
    }

    /// The bytes of the digest, as the key under which the store keeps what it names.
    pub fn to_vec(&self) -> (r: Vec<u8>)
        ensures
            r@ == self.0@,
    {
        let mut r: Vec<u8> = Vec::new();
        extend_bytes(&mut r, &self.0);
        assert(r@ =~= self.0@);
        r
    }
}

/// The digest of zeros, which is the id of the genesis headers.
pub open spec fn zero_digest() -> Digest {
    choose|d: Digest| d.0@ == zero_bytes()
}

/// The key of zeros.
pub open spec fn zero_key() -> PublicKey {
    choose|k: PublicKey| k.0@ == zero_bytes()
}

/// The signature of zeros.
pub open spec fn zero_signature() -> Signature {
    choose|s: Signature| s.part1@ == zero_bytes() && s.part2@ == zero_bytes()
}

impl Default for Digest {
    fn default() -> (r: Self)
        ensures
            r == zero_digest(),
            r.0@ == zero_bytes(),
    {
        let r = Digest([0u8; 32]);
        proof {
            assert(r.0@ =~= zero_bytes());
            lemma_digest_bytes(r, zero_digest());
        }
        r
    }
}

impl Default for PublicKey {
    fn default() -> (r: Self)
        ensures
            r == zero_key(),
            r.0@ == zero_bytes(),
    {
        let r = PublicKey([0u8; 32]);
        proof {
            assert(r.0@ =~= zero_bytes());
            lemma_key_bytes(r, zero_key());
        }
        r
    }
}

impl Default for Signature {
    fn default() -> (r: Self)
        ensures
            r == zero_signature(),
            signature_bytes(r) == zero_bytes() + zero_bytes(),
    {
        let r = Signature { part1: [0u8; 32], part2: [0u8; 32] };
        proof {
            assert(r.part1@ =~= zero_bytes());
            assert(r.part2@ =~= zero_bytes());
            let z = zero_signature();
            assert(z.part1@ == zero_bytes() && z.part2@ == zero_bytes());
            lemma_array_bytes(r.part1, z.part1);
            lemma_array_bytes(r.part2, z.part2);
        }
        r
    }
}

/// Two digests with the same bytes are equal.
pub proof fn lemma_digest_bytes(a: Digest, b: Digest)
    requires
        a.0@ == b.0@,
    ensures
        a == b,
{
    lemma_array_bytes(a.0, b.0);
}

/// Two keys with the same bytes are equal.
pub proof fn lemma_key_bytes(a: PublicKey, b: PublicKey)
    requires
        a.0@ == b.0@,
    ensures
        a == b,
{
    lemma_array_bytes(a.0, b.0);
}

proof fn lemma_array_bytes(a: [u8; 32], b: [u8; 32])
    requires
        a@ == b@,
    ensures
        a == b,
{
    assert forall|i: int| 0 <= i < 32 implies a[i] == b[i] by {
        assert(a@[i] == b@[i]);
    }
    assert(a =~= b);
}

/// Lexicographic order of two byte strings of the same length.
pub open spec fn bytes_below(a: Seq<u8>, b: Seq<u8>) -> bool {
    exists|i: int| #[trigger] first_difference(a, b, i) && a[i] < b[i]
}

/// `a` and `b` agree before place `i` and differ there.
pub open spec fn first_difference(a: Seq<u8>, b: Seq<u8>, i: int) -> bool {
    &&& 0 <= i < a.len()
    &&& i < b.len()
    &&& a.take(i) == b.take(i)
    &&& a[i] != b[i]
}

proof fn lemma_first_difference_unique(a: Seq<u8>, b: Seq<u8>, i: int, j: int)
    requires
        first_difference(a, b, i),
        first_difference(a, b, j),
    ensures
        i == j,
{
    if i < j {
        assert(a.take(j)[i] == b.take(j)[i]);
    }
    if j < i {
        assert(a.take(i)[j] == b.take(i)[j]);
    }
}

proof fn lemma_bytes_transitive(a: Seq<u8>, b: Seq<u8>, c: Seq<u8>)
    requires
        bytes_below(a, b),
        bytes_below(b, c),
    ensures
        bytes_below(a, c),
{
    let i = choose|i: int| #[trigger] first_difference(a, b, i) && a[i] < b[i];
    let j = choose|j: int| #[trigger] first_difference(b, c, j) && b[j] < c[j];
    let k = if i < j { i } else { j };
    assert(a.take(k) =~= c.take(k)) by {
        assert forall|p: int| 0 <= p < k implies a[p] == c[p] by {
            assert(a.take(i)[p] == b.take(i)[p]);
            assert(b.take(j)[p] == c.take(j)[p]);
        }
    }
    if i < j {
        assert(b.take(j)[i] == c.take(j)[i]);
    }
    if j < i {
        assert(a.take(i)[j] == b.take(i)[j]);
    }
    assert(first_difference(a, c, k));
}

proof fn lemma_bytes_irreflexive(a: Seq<u8>)
    ensures
        !bytes_below(a, a),
{
}

/// Where two byte strings of the same length differ at all, one is below the other.
proof fn lemma_bytes_total(a: Seq<u8>, b: Seq<u8>, n: int)
    requires
        a.len() == b.len(),
        0 <= n <= a.len(),
        a.take(a.len() - n) == b.take(a.len() - n),
    ensures
        bytes_below(a, b) || a == b || bytes_below(b, a),
    decreases n,
{
    if n == 0 {
        assert(a.take(a.len() as int) =~= a);
        assert(b.take(a.len() as int) =~= b);
    } else {
        let i = a.len() - n;
        if a[i] == b[i] {
            assert(a.take(i + 1) =~= a.take(i).push(a[i]));
            assert(b.take(i + 1) =~= b.take(i).push(b[i]));
            lemma_bytes_total(a, b, n - 1);
        } else {
            assert(first_difference(a, b, i));
            assert(first_difference(b, a, i));
        }
    }
}

/// Compares two keys byte by byte.
fn is_bytes_below(a: &[u8; 32], b: &[u8; 32]) -> (r: bool)
    ensures
        r == bytes_below(a@, b@),
{
    let mut i: usize = 0;
    while i < 32
        invariant
            i <= 32,
            a@.take(i as int) == b@.take(i as int),
        decreases 32 - i,
    {
        if a[i] != b[i] {
            assert(first_difference(a@, b@, i as int));
            proof {
                if bytes_below(a@, b@) {
                    let j = choose|j: int|
                        #[trigger] first_difference(a@, b@, j) && a@[j] < b@[j];
                    lemma_first_difference_unique(a@, b@, i as int, j);
                }
            }
            return a[i] < b[i];
        }
        proof {
            assert(a@.take(i + 1) =~= a@.take(i as int).push(a@[i as int]));
            assert(b@.take(i + 1) =~= b@.take(i as int).push(b@[i as int]));
        }
        i = i + 1;
    }
    proof {
        assert(a@.take(32) =~= a@);
        assert(b@.take(32) =~= b@);
    }
    false
}

fn is_same_bytes(a: &[u8; 32], b: &[u8; 32]) -> (r: bool)
    ensures
        r == (*a == *b),
{
    let mut i: usize = 0;
    while i < 32
        invariant
            i <= 32,
            a@.take(i as int) == b@.take(i as int),
        decreases 32 - i,
    {
        if a[i] != b[i] {
            return false;
        }
        proof {
            assert(a@.take(i + 1) =~= a@.take(i as int).push(a@[i as int]));
            assert(b@.take(i + 1) =~= b@.take(i as int).push(b@[i as int]));
        }
        i = i + 1;
    }
    proof {
        assert(a@.take(32) =~= a@);
        assert(b@.take(32) =~= b@);
        lemma_array_bytes(*a, *b);
    }
    true
}

impl Key for Digest {
    open spec fn below(self, other: Self) -> bool {
        bytes_below(self.0@, other.0@)
    }

    proof fn below_irreflexive(a: Self) {
        lemma_bytes_irreflexive(a.0@);
    }

    proof fn below_transitive(a: Self, b: Self, c: Self) {
        lemma_bytes_transitive(a.0@, b.0@, c.0@);
    }

    proof fn below_total(a: Self, b: Self) {
        assert(a.0@.take(0) =~= b.0@.take(0));
        lemma_bytes_total(a.0@, b.0@, 32);
        if a.0@ == b.0@ {
            lemma_digest_bytes(a, b);
        }
    }

    fn is_below(&self, other: &Self) -> (r: bool) {
        is_bytes_below(&self.0, &other.0)
    }

    fn same(&self, other: &Self) -> (r: bool) {
        is_same_bytes(&self.0, &other.0)
    }
}

impl Key for PublicKey {
    open spec fn below(self, other: Self) -> bool {
        bytes_below(self.0@, other.0@)
    }

    proof fn below_irreflexive(a: Self) {
        lemma_bytes_irreflexive(a.0@);
    }

    proof fn below_transitive(a: Self, b: Self, c: Self) {
        lemma_bytes_transitive(a.0@, b.0@, c.0@);
    }

    proof fn below_total(a: Self, b: Self) {
        assert(a.0@.take(0) =~= b.0@.take(0));
        lemma_bytes_total(a.0@, b.0@, 32);
        if a.0@ == b.0@ {
            lemma_key_bytes(a, b);
        }
    }

    fn is_below(&self, other: &Self) -> (r: bool) {
        is_bytes_below(&self.0, &other.0)
    }

    fn same(&self, other: &Self) -> (r: bool) {
        is_same_bytes(&self.0, &other.0)
    }
}

/// Appends 32 bytes to a buffer.
pub(crate) fn extend_bytes(buffer: &mut Vec<u8>, bytes: &[u8; 32])
    ensures
        final(buffer)@ == old(buffer)@ + bytes@,
{
    let ghost before = buffer@;
    let mut i: usize = 0;
    while i < 32
        invariant
            i <= 32,
            buffer@ == before + bytes@.take(i as int),
        decreases 32 - i,
    {
        buffer.push(bytes[i]);
        i = i + 1;
        assert(buffer@ =~= before + bytes@.take(i as int));
    }
    assert(bytes@.take(32) =~= bytes@);
}

/// Appends a list of bytes to a buffer.
pub(crate) fn extend_list(buffer: &mut Vec<u8>, bytes: &Vec<u8>)
    ensures
        final(buffer)@ == old(buffer)@ + bytes@,
{
    let ghost before = buffer@;
    let mut i: usize = 0;
    while i < bytes.len()
        invariant
            i <= bytes@.len(),
            buffer@ == before + bytes@.take(i as int),
        decreases bytes@.len() - i,
    {
        buffer.push(bytes[i]);
        i = i + 1;
        assert(buffer@ =~= before + bytes@.take(i as int));
    }
    assert(bytes@.take(i as int) =~= bytes@);
}

/// What `ed25519_dalek::Sha512` gives for a message.
pub uninterp spec fn sha512_of(message: Seq<u8>) -> Seq<u8>;

/// Hashes a message with `ed25519_dalek::Sha512`: a fresh hasher, fed with the message, finalized.
/// Claims that the output is a function of the message alone and is 64 bytes long.
#[verifier::external_body]
fn sha512(message: &Vec<u8>) -> (r: Vec<u8>)
    ensures
        r@ == sha512_of(message@),
        r@.len() == 64,
{
    let mut hasher = ed25519_dalek::Sha512::new();
    hasher.update(message);
    hasher.finalize().to_vec()
}

/// The digest of a message: the first half of its SHA-512 hash.
pub open spec fn digest_of(message: Seq<u8>) -> Digest {
    Digest::of_bytes(sha512_of(message))
}

/// Computes the digest of a message.
pub fn hash(message: &Vec<u8>) -> (r: Digest)
    ensures
        r == digest_of(message@),
        r.0@ == sha512_of(message@).take(32),
{
    Digest::truncated(&sha512(message))
}

/// The bytes of a signature.
pub open spec fn signature_bytes(signature: Signature) -> Seq<u8> {
    signature.part1@ + signature.part2@
}

impl Signature {
    /// The two halves as one byte string.
    fn flatten(&self) -> (r: Vec<u8>)
        ensures
            r@ == signature_bytes(*self),
    {
        let mut r: Vec<u8> = Vec::new();
        extend_bytes(&mut r, &self.part1);
        extend_bytes(&mut r, &self.part2);
        assert(r@ =~= signature_bytes(*self));
        r
    }

    /// Says whether this is a signature of `digest` by the holder of `public_key`.
    pub fn verify(&self, digest: &Digest, public_key: &PublicKey) -> (r: bool)
        ensures
            r == ed25519_accepts(public_key.0@, digest.0@, signature_bytes(*self)),
    {
        verify_strict(&public_key.to_vec(), &digest.to_vec(), &self.flatten())
    }

    /// Checks many signatures of one digest at once. The check is a random linear combination of
    /// the single checks, so its verdict on a batch that holds a bad signature rests on what is
    /// drawn; a key or a signature that does not decode always fails it, and a batch without
    /// signatures always passes.
    pub fn verify_batch(digest: &Digest, votes: &Vec<(PublicKey, Signature)>) -> (r: bool)
        ensures
            exists|draw: Seq<u8>| r == #[trigger] votes_accepted(*digest, votes@, draw),
            votes@.len() == 0 ==> r,
    {
        let mut signatures: Vec<Vec<u8>> = Vec::new();
        let mut keys: Vec<Vec<u8>> = Vec::new();
        let mut i: usize = 0;
        while i < votes.len()
            invariant
                i <= votes@.len(),
                signatures@.len() == i,
                keys@.len() == i,
                forall|j: int| 0 <= j < i ==> #[trigger] vote_decodes(votes@[j]),
                forall|j: int|
                    0 <= j < i ==> (#[trigger] signatures@[j])@ == signature_bytes(votes@[j].1),
                forall|j: int| 0 <= j < i ==> (#[trigger] keys@[j])@ == votes@[j].0.0@,
            decreases votes@.len() - i,
        {
            let signature: Vec<u8> = votes[i].1.flatten();
            let key: Vec<u8> = votes[i].0.to_vec();
            if !is_signature(&signature) || !is_key(&key) {
                proof {
                    assert(!vote_decodes(votes@[i as int]));
                    assert(false == votes_accepted(*digest, votes@, seq![]));
                }
                return false;
            }
            assert(vote_decodes(votes@[i as int]));
            signatures.push(signature);
            keys.push(key);
            i = i + 1;
        }
        let message: Vec<u8> = digest.to_vec();
        let r: bool = verify_all(&message, &signatures, &keys);
        proof {
            let draw = choose|draw: Seq<u8>|
                r == #[trigger] ed25519_batch_accepts(
                    message@,
                    byte_strings(signatures@),
                    byte_strings(keys@),
                    draw,
                );
            assert(byte_strings(signatures@) =~= votes@.map_values(
                |vote: (PublicKey, Signature)| signature_bytes(vote.1),
            ));
            assert(byte_strings(keys@) =~= votes@.map_values(
                |vote: (PublicKey, Signature)| vote.0.0@,
            ));
            assert(r == votes_accepted(*digest, votes@, draw));
        }
        r
    }
}

impl PublicKey {
    /// The bytes of the key.
    fn to_vec(&self) -> (r: Vec<u8>)
        ensures
            r@ == self.0@,
    {
        let mut r: Vec<u8> = Vec::new();
        extend_bytes(&mut r, &self.0);
        assert(r@ =~= self.0@);
        r
    }
}

/// The key and the signature of a vote are both well-formed encodings.
pub open spec fn vote_decodes(vote: (PublicKey, Signature)) -> bool {
    &&& key_decodes(vote.0.0@)
    &&& signature_decodes(signature_bytes(vote.1))
}

/// Whether `ed25519_dalek::PublicKey::from_bytes` accepts the bytes.
pub uninterp spec fn key_decodes(bytes: Seq<u8>) -> bool;

/// Tries to decode a key with `ed25519_dalek::PublicKey::from_bytes`. Claims that whether this
/// succeeds is a function of the bytes alone.
#[verifier::external_body]
fn is_key(bytes: &Vec<u8>) -> (r: bool)
    ensures
        r == key_decodes(bytes@),
{
    ed25519_dalek::PublicKey::from_bytes(bytes).is_ok()
}

/// A signature is 64 bytes, of which the last has its three highest bits clear.
pub open spec fn signature_decodes(bytes: Seq<u8>) -> bool {
    bytes.len() == 64 && bytes[63] < 32
}

/// Tries to decode a signature with `ed25519_dalek::Signature::from_bytes`. Claims that this succeeds
/// exactly on 64 bytes of which the last has its three highest bits clear.
#[verifier::external_body]
fn is_signature(bytes: &Vec<u8>) -> (r: bool)
    ensures
        r == signature_decodes(bytes@),
{
    ed25519_dalek::Signature::from_bytes(bytes).is_ok()
}

/// Whether the key and the signature decode and `ed25519_dalek::PublicKey::verify_strict` accepts
/// the signature of the message under the key.
pub uninterp spec fn ed25519_accepts(key: Seq<u8>, message: Seq<u8>, signature: Seq<u8>) -> bool;

/// Checks one signature with `ed25519_dalek::PublicKey::verify_strict`, on a key and a signature
/// decoded from bytes. Claims that the verdict is a function of the three byte strings alone.
#[verifier::external_body]
fn verify_strict(key: &Vec<u8>, message: &Vec<u8>, signature: &Vec<u8>) -> (r: bool)
    ensures
        r == ed25519_accepts(key@, message@, signature@),
{
    let key = ed25519_dalek::PublicKey::from_bytes(key);
    let signature = ed25519_dalek::Signature::from_bytes(signature);
    match (key, signature) {
        (Ok(key), Ok(signature)) => key.verify_strict(message, &signature).is_ok(),
        _ => false,
    }
}

/// The byte strings of a list.
pub open spec fn byte_strings(list: Seq<Vec<u8>>) -> Seq<Seq<u8>> {
    list.map_values(|bytes: Vec<u8>| bytes@)
}

/// All votes decode, and the batch check accepts the signatures of the digest under the keys with
/// what it has drawn.
pub open spec fn votes_accepted(
    digest: Digest,
    votes: Seq<(PublicKey, Signature)>,
    draw: Seq<u8>,
) -> bool {
    &&& forall|i: int| 0 <= i < votes.len() ==> #[trigger] vote_decodes(votes[i])
    &&& ed25519_batch_accepts(
        digest.0@,
        votes.map_values(|vote: (PublicKey, Signature)| signature_bytes(vote.1)),
        votes.map_values(|vote: (PublicKey, Signature)| vote.0.0@),
        draw,
    )
}

/// Whether there is a key for each signature, all of them decode, and `ed25519_dalek::verify_batch`
/// accepts the signatures of the message under the keys when it draws these random bytes.
pub uninterp spec fn ed25519_batch_accepts(
    message: Seq<u8>,
    signatures: Seq<Seq<u8>>,
    keys: Seq<Seq<u8>>,
    draw: Seq<u8>,
) -> bool;

/// Checks signatures of one message together with `ed25519_dalek::verify_batch`, on keys and
/// signatures decoded from bytes. That function weighs the signatures by random scalars. Claims that
/// the outcome is a function of the arguments and of what is drawn; that it accepts an empty batch,
/// whose weighted sum is zero; and that it accepts a batch only if there is a key for each signature
/// and all of them decode. Which bytes are drawn is left open.
#[verifier::external_body]
fn verify_all(message: &Vec<u8>, signatures: &Vec<Vec<u8>>, keys: &Vec<Vec<u8>>) -> (r: bool)
    ensures
        exists|draw: Seq<u8>|
            r == #[trigger] ed25519_batch_accepts(
                message@,
                byte_strings(signatures@),
                byte_strings(keys@),
                draw,
            ),
        signatures@.len() == 0 && keys@.len() == 0 ==> r,
        r ==> signatures@.len() == keys@.len(),
        r ==> forall|i: int| 0 <= i < keys@.len() ==> key_decodes((#[trigger] keys@[i])@),
        r ==> forall|i: int|
            0 <= i < signatures@.len() ==> signature_decodes((#[trigger] signatures@[i])@),
{
    let messages = vec![message.as_slice(); keys.len()];
    let keys: Result<Vec<_>, _> =
        keys.iter().map(|key| ed25519_dalek::PublicKey::from_bytes(key)).collect();
    let signatures: Result<Vec<_>, _> =
        signatures.iter().map(|signature| ed25519_dalek::Signature::from_bytes(signature)).collect();
    match (signatures, keys) {
        (Ok(signatures), Ok(keys)) => {
            ed25519_dalek::verify_batch(&messages, &signatures, &keys).is_ok()
        },
        _ => false,
    }
}

} // verus!
