//! Public keys, signatures, and what a signature covers.

use vstd::prelude::*;
use vstd::utf8::*;

use crate::strmap::Value;
use crate::text;

verus! {

/// The key type and signature scheme that every configured key has.
pub const KEY_TYPE: &'static str = "ecdsa";

pub const SCHEME: &'static str = "ecdsa-sha2-nistp256";

/// A public key: its id, and its definition as metadata writes it.
#[derive(Debug)]
pub struct PublicKey {
    pub id: String,
    pub definition: String,
}

/// A public key as contracts speak of it.
pub struct KeyView {
    pub id: Seq<char>,
    pub definition: Seq<char>,
}

impl View for PublicKey {
    type V = KeyView;

    open spec fn view(&self) -> KeyView {
        KeyView { id: self.id@, definition: self.definition@ }
    }
}

impl Value for PublicKey {
    fn dup(&self) -> (r: Self) {
        PublicKey { id: self.id.clone(), definition: self.definition.clone() }
    }

    fn same_as(&self, other: &Self) -> (r: bool) {
        self.id == other.id && self.definition == other.definition
    }
}

/// A signature by the key with the id `key_id`.
#[derive(Debug)]
pub struct Signature {
    pub key_id: String,
    pub value: Vec<u8>,
}

/// A signature as contracts speak of it.
pub struct SignatureView {
    pub key_id: Seq<char>,
    pub value: Seq<u8>,
}

impl View for Signature {
    type V = SignatureView;

    open spec fn view(&self) -> SignatureView {
        SignatureView { key_id: self.key_id@, value: self.value@ }
    }
}

impl Value for Signature {
    fn dup(&self) -> (r: Self) {
        Signature { key_id: self.key_id.clone(), value: self.value.dup() }
    }

    fn same_as(&self, other: &Self) -> (r: bool) {
        self.key_id == other.key_id && self.value.same_as(&other.value)
    }
}

/// The parts of a PEM encoded public key: the object identifiers of its algorithm and of the
/// algorithm's parameter, the key itself, and the same PEM in its standard layout.
#[derive(Debug)]
pub struct PemKey {
    pub algorithm: String,
    pub parameter: String,
    pub point: Vec<u8>,
    pub pem: String,
}

/// A PEM encoded public key as contracts speak of it.
pub struct PemKeyView {
    pub algorithm: Seq<char>,
    pub parameter: Seq<char>,
    pub point: Seq<u8>,
    pub pem: Seq<char>,
}

impl View for PemKey {
    type V = PemKeyView;

    open spec fn view(&self) -> PemKeyView {
        PemKeyView {
            algorithm: self.algorithm@,
            parameter: self.parameter@,
            point: self.point@,
            pem: self.pem@,
        }
    }
}

/// What the parts of a PEM encoded public key are, if it is one whose algorithm has an object
/// identifier as its parameter.
pub uninterp spec fn pem_key(pem: Seq<char>) -> Option<PemKeyView>;

/// Calls `from_pem` and `to_pem` of `x509_cert::spki::SubjectPublicKeyInfoOwned`: the contract
/// only names the parts, which depend on the text alone.
#[verifier::external_body]
fn read_pem(pem: &str) -> (r: Option<PemKey>)
    ensures
        r is Some <==> pem_key(pem@) is Some,
        r matches Some(k) ==> pem_key(pem@) == Some(k@),
{
    let info = <x509_cert::spki::SubjectPublicKeyInfoOwned as x509_cert::der::DecodePem>::from_pem(pem).ok()?;
    let parameter = info.algorithm.parameters.as_ref()?;
    let oid = parameter.decode_as::<x509_cert::der::oid::ObjectIdentifier>().ok()?;
    Some(PemKey {
        algorithm: info.algorithm.oid.to_string(),
        parameter: oid.to_string(),
        point: info.subject_public_key.raw_bytes().to_vec(),
        pem: x509_cert::der::EncodePem::to_pem(&info, x509_cert::der::pem::LineEnding::LF).ok()?,
    })
}

/// Whether the parts are those of an elliptic curve key on the curve P-256.
pub open spec fn on_p256(k: PemKeyView) -> bool {
    k.algorithm == "1.2.840.10045.2.1"@ && k.parameter == "1.2.840.10045.3.1.7"@
}

/// The parts of a key's definition, with the definition in its standard layout.
#[derive(Debug)]
pub struct KeyParts {
    pub id: String,
    pub key_type: String,
    pub scheme: String,
    pub public: Vec<u8>,
    pub definition: String,
}

/// The parts of a key's definition as contracts speak of them.
pub struct KeyPartsView {
    pub id: Seq<char>,
    pub key_type: Seq<char>,
    pub scheme: Seq<char>,
    pub public: Seq<u8>,
    pub definition: Seq<char>,
}

impl View for KeyParts {
    type V = KeyPartsView;

    open spec fn view(&self) -> KeyPartsView {
        KeyPartsView {
            id: self.id@,
            key_type: self.key_type@,
            scheme: self.scheme@,
            public: self.public@,
            definition: self.definition@,
        }
    }
}

/// The parts of the key that `definition` defines, if it defines one.
pub uninterp spec fn key_parts(definition: Seq<char>) -> Option<KeyPartsView>;

/// Reads a definition as a `tuf::crypto::PublicKey` and calls `key_id`, `typ`, `scheme` and
/// `as_bytes` on it: the contract only names the parts, which depend on the definition alone.
#[verifier::external_body]
fn read_definition(definition: &str) -> (r: Option<KeyParts>)
    ensures
        r is Some <==> key_parts(definition@) is Some,
        r matches Some(k) ==> key_parts(definition@) == Some(k@),
{
    let key: tuf::crypto::PublicKey = serde_json::from_str(definition).ok()?;
    Some(KeyParts {
        id: key.key_id().to_string(),
        key_type: key.typ().to_string(),
        scheme: key.scheme().to_string(),
        public: key.as_bytes().to_vec(),
        definition: serde_json::to_string(&key).ok()?,
    })
}

/// The key with the given type, scheme and value.
pub uninterp spec fn defined_key(
    key_type: Seq<char>,
    scheme: Seq<char>,
    public: Seq<char>,
) -> Option<KeyView>;

/// Makes a `tuf::crypto::PublicKey` of its type, scheme and value, and calls `key_id` on it: the
/// contract names the key, and says of one that is not of the type `ed25519` that its definition
/// has the parts that it was made of.
#[verifier::external_body]
fn define_key(key_type: &str, scheme: &str, public: &str) -> (r: Option<PublicKey>)
    ensures
        r is Some <==> defined_key(key_type@, scheme@, public@) is Some,
        r matches Some(k) ==> defined_key(key_type@, scheme@, public@) == Some(k@) && (key_type@
            != "ed25519"@ ==> key_parts(k.definition@) == Some(
            KeyPartsView {
                id: k.id@,
                key_type: key_type@,
                scheme: scheme@,
                public: encode_utf8(public@),
                definition: k.definition@,
            },
        )),
{
    let value: serde_json::Value = [("public", public)].into_iter().collect();
    let fields = [("keytype", key_type.into()), ("scheme", scheme.into()), ("keyval", value)];
    let whole: serde_json::Value = fields.into_iter().collect();
    let key: tuf::crypto::PublicKey = serde_json::from_value(whole).ok()?;
    let definition = serde_json::to_string(&key).ok()?;
    Some(PublicKey { id: key.key_id().to_string(), definition })
}

/// The key that a PEM encoded ECDSA P-256 public key is.
pub open spec fn key_from_pem(pem: Seq<char>) -> Option<KeyView> {
    match pem_key(pem) {
        Some(k) => if on_p256(k) {
            defined_key(KEY_TYPE@, SCHEME@, k.pem)
        } else {
            None
        },
        None => None,
    }
}

/// Whether the key's id is the one that its definition has, and the definition is in its standard
/// layout.
pub open spec fn key_sound(k: KeyView) -> bool {
    key_parts(k.definition) matches Some(p) && p.id == k.id && p.definition == k.definition
}

/// Whether `sig` is an ECDSA signature in ASN.1 of `message` by the P-256 key `point`, with
/// SHA-256 as the digest.
pub uninterp spec fn p256_accepts(point: Seq<u8>, message: Seq<u8>, sig: Seq<u8>) -> bool;

/// Calls `ring::signature::UnparsedPublicKey::verify` with `ECDSA_P256_SHA256_ASN1`: the contract
/// only names the answer, which depends on the three byte strings alone.
#[verifier::external_body]
fn p256_verify(point: &Vec<u8>, message: &Vec<u8>, sig: &Vec<u8>) -> (r: bool)
    ensures
        r == p256_accepts(point@, message@, sig@),
{
    let key = ring::signature::UnparsedPublicKey::new(
        &ring::signature::ECDSA_P256_SHA256_ASN1,
        point.as_slice(),
    );
    key.verify(message.as_slice(), sig.as_slice()).is_ok()
}

/// The SHA-256 digest of the bytes.
pub uninterp spec fn sha256_of(bytes: Seq<u8>) -> Seq<u8>;

/// Calls `sha2::Sha256::digest`: the contract only names the digest, which depends on the bytes alone.
#[verifier::external_body]
fn sha256(bytes: &Vec<u8>) -> (r: Vec<u8>)
    ensures
        r@ == sha256_of(bytes@),
{
    <sha2::Sha256 as sha2::Digest>::digest(bytes).to_vec()
}

/// What an ECDSA P-256 key is asked to sign in place of `message`: its SHA-256 digest.
pub fn signing_digest(message: &Vec<u8>) -> (r: Vec<u8>)
    ensures
        r@ == sha256_of(message@),
{
    sha256(message)
}

/// Whether the key that `definition` defines accepts `sig` as its signature of `message`, if its
/// scheme is one that the format knows by itself.
pub uninterp spec fn known_scheme_accepts(
    definition: Seq<char>,
    message: Seq<u8>,
    sig: Seq<u8>,
) -> bool;

/// Reads a definition as a `tuf::crypto::PublicKey` and calls `verify` on it, which knows Ed25519
/// alone: the contract only names the answer, which depends on the definition and the two byte
/// strings alone.
#[verifier::external_body]
fn verify_known_scheme(definition: &str, message: &Vec<u8>, sig: &Vec<u8>) -> (r: Option<()>)
    ensures
        r is Some <==> known_scheme_accepts(definition@, message@, sig@),
{
    let key: tuf::crypto::PublicKey = serde_json::from_str(definition).ok()?;
    let value = serde_json::to_value(tuf::crypto::SignatureValue::new(sig.clone())).ok()?;
    let fields = [("keyid", serde_json::to_value(key.key_id()).ok()?), ("sig", value)];
    let whole = fields.into_iter().collect::<serde_json::Value>();
    let signature: tuf::crypto::Signature = serde_json::from_value(whole).ok()?;
    key.verify(&tuf::metadata::MetadataPath::root(), message, &signature).ok()
}

/// The PEM text that the key with the given definition has as its value, if it is text.
pub open spec fn pem_of(definition: Seq<char>) -> Option<Seq<char>> {
    match key_parts(definition) {
        Some(p) => if p.key_type == KEY_TYPE@ && p.scheme == SCHEME@ && valid_utf8(p.public) {
            Some(decode_utf8(p.public))
        } else {
            None
        },
        None => None,
    }
}

/// Whether the key accepts `sig` as its signature of `message`: as an ECDSA P-256 key, or else as one
/// of a scheme that the format knows by itself.
pub open spec fn accepts(key: KeyView, message: Seq<u8>, sig: Seq<u8>) -> bool {
    match pem_of(key.definition) {
        Some(pem) => match pem_key(pem) {
            Some(k) => on_p256(k) && p256_accepts(k.point, message, sig),
            None => false,
        },
        None => known_scheme_accepts(key.definition, message, sig),
    }
}

impl PublicKey {
    /// Reads a PEM encoded ECDSA P-256 public key.
    pub fn from_pem(pem: &str) -> (r: Option<PublicKey>)
        ensures
            r is Some <==> key_from_pem(pem@) is Some,
            r matches Some(k) ==> key_from_pem(pem@) == Some(k@) && key_sound(k@),
    {
        let parts = read_pem(pem)?;
        if parts.algorithm != "1.2.840.10045.2.1".to_owned() || parts.parameter
            != "1.2.840.10045.3.1.7".to_owned() {
            return None;
        }
        proof {
            reveal_strlit("ecdsa");
            reveal_strlit("ed25519");
            assert("ecdsa"@[1] != "ed25519"@[1]);
        }
        define_key(KEY_TYPE, SCHEME, parts.pem.as_str())
    }

    /// The key as PEM, in its standard layout, if it is an ECDSA P-256 key.
    pub fn to_pem(&self) -> (r: Option<String>)
        ensures
            r is Some <==> pem_of(self@.definition) is Some,
            r matches Some(p) ==> pem_of(self@.definition) == Some(p@),
    {
        let parts = read_definition(self.definition.as_str())?;
        if parts.key_type != KEY_TYPE.to_owned() || parts.scheme != SCHEME.to_owned() {
            return None;
        }
        text::utf8_text(parts.public)
    }

    /// Whether the key accepts `sig` as its signature of `message`.
    pub fn verify(&self, message: &Vec<u8>, sig: &Vec<u8>) -> (r: bool)
        ensures
            r == accepts(self@, message@, sig@),
    {
        match self.to_pem() {
            Some(pem) => match read_pem(pem.as_str()) {
                Some(k) => k.algorithm == "1.2.840.10045.2.1".to_owned() && k.parameter
                    == "1.2.840.10045.3.1.7".to_owned() && p256_verify(&k.point, message, sig),
                None => false,
            },
            None => verify_known_scheme(
                self.definition.as_str(),
                message,
                sig,
            ).is_some(),
        }
    }
}

} // verus!
