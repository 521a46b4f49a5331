//! Sealing sensitive database records with AES-256-GCM.
//!
//! A sealed record is an envelope: the four bytes `DAE1`, the 12-byte
//! nonce, then the AES-GCM ciphertext with its 16-byte tag. The associated
//! data binds the envelope to its table (`domain`) and its record key, so
//! that a record moved to another key does not open. A value that does not
//! start with `DAE1` is a record from before encryption and opens as itself.
use vstd::prelude::*;
use aes_gcm::aead::{Aead, AeadCore, KeyInit, OsRng, Payload};
use aes_gcm::{Aes256Gcm, Key, Nonce};

verus! {

/// Length of the envelope marker.
pub const MAGIC_BYTES: usize = 4;

/// Length of an AES-GCM nonce.
pub const NONCE_BYTES: usize = 12;

/// Length of an AES-GCM tag.
pub const TAG_BYTES: usize = 16;

/// The envelope marker, `DAE1`.
pub open spec fn envelope_magic() -> Seq<u8> {
    seq![68u8, 65u8, 69u8, 49u8]
}

/// The prefix of every associated-data string:
/// `disaster-alert:encrypted-record:v1` and a zero byte.
pub open spec fn aad_prefix() -> Seq<u8> {
    seq![
        100u8, 105u8, 115u8, 97u8, 115u8, 116u8, 101u8, 114u8, 45u8, 97u8, 108u8, 101u8, 114u8,
        116u8, 58u8, 101u8, 110u8, 99u8, 114u8, 121u8, 112u8, 116u8, 101u8, 100u8, 45u8, 114u8,
        101u8, 99u8, 111u8, 114u8, 100u8, 58u8, 118u8, 49u8, 0u8,
    ]
}

/// The associated data of a record: the prefix, the domain, a zero byte,
/// the record key.
pub open spec fn record_aad(domain: Seq<u8>, record_key: Seq<u8>) -> Seq<u8> {
    aad_prefix() + domain + seq![0u8] + record_key
}

/// Most bytes AES-GCM seals, and most bytes of associated data it takes.
pub open spec fn gcm_max() -> int {
    0x10_0000_0000
}

/// The ciphertext and tag that AES-256-GCM makes of `msg` under `key`,
/// `nonce` and `aad`.
pub uninterp spec fn gcm_seal(key: Seq<u8>, nonce: Seq<u8>, aad: Seq<u8>, msg: Seq<u8>) -> Seq<u8>;

/// What AES-256-GCM decryption of `sealed` under `key`, `nonce` and `aad`
/// gives; `None` when the tag does not check.
pub uninterp spec fn gcm_open(key: Seq<u8>, nonce: Seq<u8>, aad: Seq<u8>, sealed: Seq<u8>) -> Option<
    Seq<u8>,
>;

/// `aes_gcm::Aes256Gcm::new` on the key, then `Aead::encrypt` with a
/// payload of `msg` and `aad`. It fails exactly when the message or the
/// associated data is longer than 2^36 bytes (the limits `P_MAX` and
/// `A_MAX` of the crate); otherwise it returns the named ciphertext, which
/// is the message's length plus the 16-byte tag.
#[verifier::external_body]
fn gcm_encrypt(key: &[u8; 32], nonce: &[u8; 12], aad: &[u8], msg: &[u8]) -> (r: Option<Vec<u8>>)
    ensures
        r is None <==> (msg@.len() > gcm_max() || aad@.len() > gcm_max()),
        r matches Some(c) ==> c@ == gcm_seal(key@, nonce@, aad@, msg@) && c@.len() == msg@.len()
            + TAG_BYTES,
{
    let cipher = Aes256Gcm::new(Key::<Aes256Gcm>::from_slice(key));
    cipher.encrypt(Nonce::from_slice(nonce), Payload { msg, aad }).ok()
}

/// `aes_gcm::Aes256Gcm::new` on the key, then `Aead::decrypt` with a
/// payload of `sealed` and `aad`. The result is named; the contract also
/// states what the crate's code shows of a ciphertext that its own
/// `encrypt` made under the same key, nonce and associated data: it
/// decrypts to the message. (That a changed ciphertext or associated data
/// fails is a matter of probability, and is not stated.)
#[verifier::external_body]
fn gcm_decrypt(key: &[u8; 32], nonce: &[u8], aad: &[u8], sealed: &[u8]) -> (r: Option<Vec<u8>>)
    requires
        nonce@.len() == NONCE_BYTES,
    ensures
        r matches Some(p) ==> gcm_open(key@, nonce@, aad@, sealed@) == Some(p@),
        r is None ==> gcm_open(key@, nonce@, aad@, sealed@) is None,
        r is Some || forall|m: Seq<u8>|
            !(m.len() <= gcm_max() && aad@.len() <= gcm_max() && sealed@ == #[trigger] gcm_seal(
                key@,
                nonce@,
                aad@,
                m,
            )),
        r matches Some(p) ==> forall|m: Seq<u8>|
            m.len() <= gcm_max() && aad@.len() <= gcm_max() && sealed@ == #[trigger] gcm_seal(
                key@,
                nonce@,
                aad@,
                m,
            ) ==> p@ == m,
{
    let cipher = Aes256Gcm::new(Key::<Aes256Gcm>::from_slice(key));
    cipher.decrypt(Nonce::from_slice(nonce), Payload { msg: sealed, aad }).ok()
}

/// `AeadCore::generate_nonce` with the operating system's generator. The
/// bytes are random: nothing is stated of them.
#[verifier::external_body]
fn random_nonce() -> (r: [u8; 12]) {
    Aes256Gcm::generate_nonce(&mut OsRng).into()
}

/// Why a record does not seal or open.
#[derive(Debug, Clone, Copy, PartialEq, Eq)]
pub enum CipherError {
    /// The value or its associated data is too long to seal.
    EncryptFailed,
    /// The envelope is shorter than marker, nonce and tag.
    Truncated,
    /// The tag does not check: another key, another record, or damage.
    DecryptFailed,
}

/// The bytes of `a` followed by those of `b`.
fn append_bytes(v: &mut Vec<u8>, b: &[u8])
    ensures
        final(v)@ == old(v)@ + b@,
{
    let mut i: usize = 0;
    let ghost start = v@;
    while i < b.len()
        invariant
            i <= b@.len(),
            v@ =~= start + b@.take(i as int),
        decreases b@.len() - i,
    {
        v.push(b[i]);
        i = i + 1;
    }
    assert(b@.take(b@.len() as int) =~= b@);
}

/// Bytes `from..to` of a slice.
fn sub_bytes(b: &[u8], from: usize, to: usize) -> (r: Vec<u8>)
    requires
        from <= to <= b@.len(),
    ensures
        r@ == b@.subrange(from as int, to as int),
{
    let mut r: Vec<u8> = Vec::new();
    let mut i = from;
    while i < to
        invariant
            from <= i <= to <= b@.len(),
            r@ =~= b@.subrange(from as int, i as int),
        decreases to - i,
    {
        r.push(b[i]);
        i = i + 1;
    }
    r
}

/// The associated data of a record (see `record_aad`).
pub fn associated_data(domain: &[u8], record_key: &[u8]) -> (r: Vec<u8>)
    ensures
        r@ == record_aad(domain@, record_key@),
{
    let prefix: [u8; 35] = [
        100, 105, 115, 97, 115, 116, 101, 114, 45, 97, 108, 101, 114, 116, 58, 101, 110, 99, 114,
        121, 112, 116, 101, 100, 45, 114, 101, 99, 111, 114, 100, 58, 118, 49, 0,
    ];
    let mut aad: Vec<u8> = Vec::new();
    append_bytes(&mut aad, &prefix);
    assert(aad@ =~= aad_prefix());
    append_bytes(&mut aad, domain);
    aad.push(0);
    append_bytes(&mut aad, record_key);
    assert(aad@ =~= record_aad(domain@, record_key@));
    aad
}

/// A value is an envelope when it starts with the marker.
pub open spec fn is_envelope(value: Seq<u8>) -> bool {
    value.len() >= MAGIC_BYTES && value.take(MAGIC_BYTES as int) == envelope_magic()
}

/// What opening a stored value gives: a value without the marker is
/// returned as it is; an envelope too short for nonce and tag is
/// `Truncated`; otherwise the ciphertext after the nonce is decrypted under
/// the record's associated data, `DecryptFailed` when the tag does not check.
pub open spec fn open_result(key: Seq<u8>, domain: Seq<u8>, record_key: Seq<u8>, value: Seq<u8>) -> Result<
    Seq<u8>,
    CipherError,
> {
    if !is_envelope(value) {
        Ok(value)
    } else if value.len() < MAGIC_BYTES + NONCE_BYTES + TAG_BYTES {
        Err(CipherError::Truncated)
    } else {
        match gcm_open(
            key,
            value.subrange(MAGIC_BYTES as int, (MAGIC_BYTES + NONCE_BYTES) as int),
            record_aad(domain, record_key),
            value.skip((MAGIC_BYTES + NONCE_BYTES) as int),
        ) {
            Some(p) => Ok(p),
            None => Err(CipherError::DecryptFailed),
        }
    }
}

/// The envelope of `value` sealed under `key` with `nonce`.
pub open spec fn sealed_envelope(
    key: Seq<u8>,
    nonce: Seq<u8>,
    domain: Seq<u8>,
    record_key: Seq<u8>,
    value: Seq<u8>,
) -> Seq<u8> {
    envelope_magic() + nonce + gcm_seal(key, nonce, record_aad(domain, record_key), value)
}

/// The sealing key of the database's sensitive records.
pub struct RecordCipher {
    key: [u8; 32],
}

impl View for RecordCipher {
    type V = Seq<u8>;

    closed spec fn view(&self) -> Seq<u8> {
        self.key@
    }
}

impl RecordCipher {
    /// A cipher for a 32-byte key (AES-256).
    pub fn new(key: [u8; 32]) -> (r: Result<RecordCipher, CipherError>)
        ensures
            r matches Ok(c) && c@ == key@,
    {
        Ok(RecordCipher { key })
    }

    /// Whether a stored value is an envelope (starts with the marker).
    pub fn is_encrypted(value: &[u8]) -> (b: bool)
        ensures
            b == is_envelope(value@),
    {
        if value.len() < MAGIC_BYTES {
            return false;
        }
        let r = value[0] == 68 && value[1] == 65 && value[2] == 69 && value[3] == 49;
        assert(r == (value@.take(4) =~= envelope_magic()));
        r
    }

    /// Seals `value` for record `record_key` of table `domain` under a fresh
    /// random nonce. The envelope starts with the marker, so it reads as
    /// encrypted; and it opens under the same key, domain and record key to
    /// `value`.
    pub fn seal(&self, domain: &[u8], record_key: &[u8], value: &[u8]) -> (r: Result<
        Vec<u8>,
        CipherError,
    >)
        ensures
            r is Err <==> (value@.len() > gcm_max() || record_aad(domain@, record_key@).len()
                > gcm_max()),
            r matches Err(e) ==> e == CipherError::EncryptFailed,
            r matches Ok(envelope) ==> {
                &&& exists|nonce: Seq<u8>|
                    nonce.len() == NONCE_BYTES && envelope@ == #[trigger] sealed_envelope(
                        self@,
                        nonce,
                        domain@,
                        record_key@,
                        value@,
                    )
                &&& is_envelope(envelope@)
                &&& envelope@.len() == MAGIC_BYTES + NONCE_BYTES + value@.len() + TAG_BYTES
            },
    {
        let nonce = random_nonce();
        let aad = associated_data(domain, record_key);
        let ciphertext = match gcm_encrypt(&self.key, &nonce, aad.as_slice(), value) {
            Some(c) => c,
            None => return Err(CipherError::EncryptFailed),
        };
        let mut envelope: Vec<u8> = Vec::new();
        let magic: [u8; 4] = [68, 65, 69, 49];
        append_bytes(&mut envelope, &magic);
        append_bytes(&mut envelope, &nonce);
        append_bytes(&mut envelope, ciphertext.as_slice());
        proof {
            assert(magic@ =~= envelope_magic());
            assert(envelope@ == sealed_envelope(self@, nonce@, domain@, record_key@, value@));
            assert(envelope@.take(MAGIC_BYTES as int) =~= envelope_magic());
        }
        Ok(envelope)
    }

    /// Opens a stored value for record `record_key` of table `domain` (see
    /// `open_result`). An envelope that `seal` made under the same key,
    /// domain and record key opens to the sealed value; a value without the
    /// marker opens to itself.
    pub fn open(&self, domain: &[u8], record_key: &[u8], value: &[u8]) -> (r: Result<
        Vec<u8>,
        CipherError,
    >)
        ensures
            match r {
                Ok(v) => open_result(self@, domain@, record_key@, value@) == Ok::<
                    Seq<u8>,
                    CipherError,
                >(v@),
                Err(e) => open_result(self@, domain@, record_key@, value@) == Err::<
                    Seq<u8>,
                    CipherError,
                >(e),
            },
            forall|nonce: Seq<u8>, m: Seq<u8>|
                nonce.len() == NONCE_BYTES && m.len() <= gcm_max() && record_aad(
                    domain@,
                    record_key@,
                ).len() <= gcm_max() && value@.len() == MAGIC_BYTES + NONCE_BYTES + m.len()
                    + TAG_BYTES && value@ == #[trigger] sealed_envelope(
                    self@,
                    nonce,
                    domain@,
                    record_key@,
                    m,
                ) ==> (r matches Ok(v) && v@ == m),
    {
        if !Self::is_encrypted(value) {
            let copy = sub_bytes(value, 0, value.len());
            assert(copy@ =~= value@);
            proof {
                assert forall|n: Seq<u8>, m: Seq<u8>|
                    n.len() == NONCE_BYTES implies value@ != #[trigger] sealed_envelope(
                        self@,
                        n,
                        domain@,
                        record_key@,
                        m,
                    ) by {
                    let e = sealed_envelope(self@, n, domain@, record_key@, m);
                    assert(e.take(MAGIC_BYTES as int) =~= envelope_magic());
                }
            }
            return Ok(copy);
        }
        if value.len() < MAGIC_BYTES + NONCE_BYTES + TAG_BYTES {
            return Err(CipherError::Truncated);
        }
        let nonce = sub_bytes(value, MAGIC_BYTES, MAGIC_BYTES + NONCE_BYTES);
        let sealed = sub_bytes(value, MAGIC_BYTES + NONCE_BYTES, value.len());
        let aad = associated_data(domain, record_key);
        assert(sealed@ =~= value@.skip((MAGIC_BYTES + NONCE_BYTES) as int));
        let opened = gcm_decrypt(&self.key, nonce.as_slice(), aad.as_slice(), sealed.as_slice());
        proof {
            assert forall|n: Seq<u8>, m: Seq<u8>|
                n.len() == NONCE_BYTES && m.len() <= gcm_max() && record_aad(
                    domain@,
                    record_key@,
                ).len() <= gcm_max() && value@.len() == MAGIC_BYTES + NONCE_BYTES + m.len()
                    + TAG_BYTES && value@ == #[trigger] sealed_envelope(
                    self@,
                    n,
                    domain@,
                    record_key@,
                    m,
                ) implies (opened matches Some(p) && p@ == m) by {
                let body = gcm_seal(self@, n, record_aad(domain@, record_key@), m);
                assert(value@ =~= envelope_magic() + n + body);
                assert(nonce@ =~= n);
                assert(sealed@ =~= body);
            }
        }
        match opened {
            Some(p) => Ok(p),
            None => Err(CipherError::DecryptFailed),
        }
    }
}

} // verus!
