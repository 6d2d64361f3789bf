//! Keys and signatures of the sharing service: a passphrase becomes an
//! Ed25519 secret key, the public key is published in hexadecimal, and
//! messages travel as the Base64 of the signature followed by the payload.
//! Hub addresses are normalised to WebSocket URLs.
use vstd::prelude::*;
use vstd::string::StringSliceAdditionalSpecFns;
use base64::Engine;
use ed25519_dalek::Signer;
use sha2::Digest;
use crate::fonts::base64_spec;
use crate::text::{
    append_chars, append_str, chars_of, contains_chars, contains_seq, starts_with,
    starts_with_str, string_of, sub_vec,
};

verus! {

broadcast use vstd::string::group_string_axioms;

// ───────────────────────────── outside functions ─────────────────────────────

/// The 32 bytes that PBKDF2 with HMAC-SHA-256 derives from a password, a
/// salt and a round count.
pub uninterp spec fn pbkdf2_sha256(password: Seq<u8>, salt: Seq<u8>, rounds: u32) -> Seq<u8>;

/// The SHA-256 digest of the data.
pub uninterp spec fn sha256(data: Seq<u8>) -> Seq<u8>;

/// The Ed25519 public key of a 32-byte secret key.
pub uninterp spec fn ed25519_public_key(secret: Seq<u8>) -> Seq<u8>;

/// The Ed25519 signature (RFC 8032, deterministic) of a message under a
/// 32-byte secret key.
pub uninterp spec fn ed25519_signature(secret: Seq<u8>, message: Seq<u8>) -> Seq<u8>;

/// `pbkdf2::pbkdf2::<Hmac<Sha256>>` filling 32 bytes. HMAC accepts keys of
/// any length, so the call does not fail; the bytes are named, not stated.
#[verifier::external_body]
fn pbkdf2_hmac_sha256(password: &[u8], salt: &[u8], rounds: u32) -> (r: [u8; 32])
    ensures
        r@ == pbkdf2_sha256(password@, salt@, rounds),
{
    let mut seed = [0u8;32];
    pbkdf2::pbkdf2::<hmac::Hmac<sha2::Sha256>>(password, salt, rounds, &mut seed).expect(
        "HMAC can be initialized with any key length",
    );
    seed
}

/// `sha2::Sha256::digest`: the digest is named, not stated.
#[verifier::external_body]
fn sha256_digest(data: &[u8]) -> (r: [u8; 32])
    ensures
        r@ == sha256(data@),
{
    sha2::Sha256::digest(data).into()
}

/// `ed25519_dalek::SigningKey::from_bytes(..).verifying_key()`, as bytes:
/// the public key is named, not stated.
#[verifier::external_body]
fn public_key_of(secret: &[u8; 32]) -> (r: [u8; 32])
    ensures
        r@ == ed25519_public_key(secret@),
{
    ed25519_dalek::SigningKey::from_bytes(secret).verifying_key().to_bytes()
}

/// `Signer::sign` of `ed25519_dalek::SigningKey`, as the 64 signature
/// bytes: the signature is named, not stated.
#[verifier::external_body]
fn sign_bytes(secret: &[u8; 32], message: &[u8]) -> (r: [u8; 64])
    ensures
        r@ == ed25519_signature(secret@, message@),
{
    ed25519_dalek::SigningKey::from_bytes(secret).sign(message).to_bytes()
}

/// `base64::engine::general_purpose::STANDARD.encode`: the standard
/// alphabet with `=` padding.
#[verifier::external_body]
fn base64_standard(data: &[u8]) -> (r: String)
    ensures
        r@ == base64_spec(data@),
{
    base64::engine::general_purpose::STANDARD.encode(data)
}

// ───────────────────────────── keys ─────────────────────────────

/// The salt of the key derivation: the bytes of `https://blit.sh`.
pub open spec fn key_salt() -> Seq<u8> {
    seq![104u8, 116, 116, 112, 115, 58, 47, 47, 98, 108, 105, 116, 46, 115, 104]
}

/// The number of PBKDF2 rounds of the key derivation.
pub const KEY_ROUNDS: u32 = 100000;

/// The Ed25519 secret key of a passphrase: PBKDF2-HMAC-SHA-256 of its
/// UTF-8 bytes with the salt `https://blit.sh` and 100000 rounds.
pub fn derive_signing_key(passphrase: &str) -> (r: [u8; 32])
    ensures
        r@ == pbkdf2_sha256(passphrase.spec_bytes(), key_salt(), KEY_ROUNDS),
{
    let salt: [u8; 15] = [104u8, 116, 116, 112, 115, 58, 47, 47, 98, 108, 105, 116, 46, 115, 104];
    assert(salt@ =~= key_salt());
    pbkdf2_hmac_sha256(passphrase.as_bytes(), &salt, KEY_ROUNDS)
}

/// The Ed25519 secret key that a shared terminal derives from its
/// passphrase: the SHA-256 digest of its UTF-8 bytes.
pub fn derive_share_key(passphrase: &str) -> (r: [u8; 32])
    ensures
        r@ == sha256(passphrase.spec_bytes()),
{
    sha256_digest(passphrase.as_bytes())
}

/// The public key of a secret key.
pub fn public_key(secret: &[u8; 32]) -> (r: [u8; 32])
    ensures
        r@ == ed25519_public_key(secret@),
{
    public_key_of(secret)
}

// ───────────────────────────── hexadecimal ─────────────────────────────

/// The lowercase hexadecimal digit of `d < 16`.
pub open spec fn hex_digit(d: int) -> char {
    if d < 10 {
        (48 + d) as char
    } else {
        (87 + d) as char
    }
}

/// Two lowercase hexadecimal digits per byte, most significant first.
pub open spec fn hex_spec(b: Seq<u8>) -> Seq<char>
    decreases b.len(),
{
    if b.len() == 0 {
        seq![]
    } else {
        hex_spec(b.drop_last()) + seq![hex_digit(b.last() as int / 16), hex_digit(b.last() as int % 16)]
    }
}

fn hex_digit_exec(d: u8) -> (r: char)
    requires
        d < 16,
    ensures
        r == hex_digit(d as int),
{
    if d < 10 {
        (48 + d) as char
    } else {
        (87 + d) as char
    }
}

/// Bytes as lowercase hexadecimal, two digits each.
pub fn hex_encode(bytes: &[u8]) -> (r: String)
    ensures
        r@ == hex_spec(bytes@),
{
    let mut out: Vec<char> = Vec::new();
    let mut i: usize = 0;
    while i < bytes.len()
        invariant
            i <= bytes@.len(),
            out@ == hex_spec(bytes@.take(i as int)),
        decreases bytes.len() - i,
    {
        let b = bytes[i];
        out.push(hex_digit_exec(b / 16));
        out.push(hex_digit_exec(b % 16));
        assert(bytes@.take(i + 1).drop_last() =~= bytes@.take(i as int));
        assert(out@ =~= hex_spec(bytes@.take(i + 1)));
        i += 1;
    }
    assert(bytes@.take(bytes@.len() as int) =~= bytes@);
    string_of(out.as_slice())
}

/// The hexadecimal public key that names a channel of the hub.
pub fn public_key_hex(secret: &[u8; 32]) -> (r: String)
    ensures
        r@ == hex_spec(ed25519_public_key(secret@)),
{
    let pk = public_key_of(secret);
    hex_encode(&pk)
}

// ───────────────────────────── signed messages ─────────────────────────────

/// A signed message: the Base64 of the 64-byte signature of the payload
/// followed by the payload.
pub fn sign_payload(secret: &[u8; 32], payload: &[u8]) -> (r: String)
    ensures
        r@ == base64_spec(ed25519_signature(secret@, payload@) + payload@),
{
    let sig = sign_bytes(secret, payload);
    let mut envelope: Vec<u8> = Vec::new();
    let mut i: usize = 0;
    while i < 64
        invariant
            i <= 64,
            envelope@ == sig@.take(i as int),
        decreases 64 - i,
    {
        envelope.push(sig[i]);
        assert(sig@.take(i + 1) =~= sig@.take(i as int).push(sig@[i as int]));
        i += 1;
    }
    assert(sig@.take(64) =~= sig@);
    let mut j: usize = 0;
    while j < payload.len()
        invariant
            j <= payload@.len(),
            envelope@ == sig@ + payload@.take(j as int),
        decreases payload.len() - j,
    {
        envelope.push(payload[j]);
        assert(payload@.take(j + 1) =~= payload@.take(j as int).push(payload@[j as int]));
        j += 1;
    }
    assert(payload@.take(payload@.len() as int) =~= payload@);
    base64_standard(envelope.as_slice())
}

// ───────────────────────────── hub messages ─────────────────────────────

/// How `serde_json` writes one character inside a JSON string: a quote or
/// backslash with a backslash before it; backspace, tab, line feed, form
/// feed and carriage return as `\b \t \n \f \r`; any other control
/// character below U+0020 as `\u00` and two lowercase hexadecimal digits;
/// every other character as it is.
pub open spec fn json_char(c: char) -> Seq<char> {
    let u = c as u32;
    if c == '"' {
        seq!['\\', '"']
    } else if c == '\\' {
        seq!['\\', '\\']
    } else if u == 8 {
        seq!['\\', 'b']
    } else if u == 9 {
        seq!['\\', 't']
    } else if u == 10 {
        seq!['\\', 'n']
    } else if u == 12 {
        seq!['\\', 'f']
    } else if u == 13 {
        seq!['\\', 'r']
    } else if u < 32 {
        seq!['\\', 'u', '0', '0', hex_digit(u as int / 16), hex_digit(u as int % 16)]
    } else {
        seq![c]
    }
}

/// The characters of a text as `serde_json` escapes them.
pub open spec fn json_chars(s: Seq<char>) -> Seq<char>
    decreases s.len(),
{
    if s.len() == 0 {
        seq![]
    } else {
        json_chars(s.drop_last()) + json_char(s.last())
    }
}

/// `serde_json::to_string` of a string: the JSON string literal, the
/// characters escaped as `json_char` says between double quotes. Writing
/// a string into memory cannot fail.
#[verifier::external_body]
fn json_string(s: &str) -> (r: String)
    ensures
        r@ == seq!['"'] + json_chars(s@) + seq!['"'],
{
    match serde_json::to_string(s) {
        Ok(t) => t,
        Err(_) => String::new(),
    }
}

/// The JSON object `{"signed":…,"target":…}`.
pub open spec fn envelope(signed: Seq<char>, target: Seq<char>) -> Seq<char> {
    "{\"signed\":"@ + seq!['"'] + json_chars(signed) + seq!['"'] + ",\"target\":"@ + seq!['"'] + json_chars(target)
        + seq!['"'] + "}"@
}

/// The message that carries a signed payload to the hub session `target`:
/// the JSON object with the signed payload (as `sign_payload` writes it)
/// and the target.
pub fn build_signed_message(secret: &[u8; 32], target: &str, payload: &[u8]) -> (r: String)
    ensures
        r@ == envelope(base64_spec(ed25519_signature(secret@, payload@) + payload@), target@),
{
    let signed = sign_payload(secret, payload);
    let mut out = chars_of("{\"signed\":");
    let a = json_string(signed.as_str());
    append_str(&mut out, a.as_str());
    append_str(&mut out, ",\"target\":");
    let b = json_string(target);
    append_str(&mut out, b.as_str());
    append_str(&mut out, "}");
    proof {
        reveal_strlit("{\"signed\":");
        reveal_strlit(",\"target\":");
        reveal_strlit("}");
    }
    assert(out@ =~= envelope(signed@, target@));
    string_of(out.as_slice())
}

/// The letters of a generated passphrase.
pub const PASSPHRASE_ALPHABET: &'static str = "abcdefghijklmnopqrstuvwxyz234567";

/// The passphrase letter of a random byte: its low five bits index
/// `a`–`z` then `2`–`7`.
pub open spec fn passphrase_char(b: u8) -> char {
    let i = (b % 32) as int;
    if i < 26 {
        (97 + i) as char
    } else {
        (24 + i) as char
    }
}

/// A passphrase made of random bytes, one letter per byte.
pub fn passphrase_of(bytes: &[u8]) -> (r: String)
    ensures
        r@ == bytes@.map_values(|b: u8| passphrase_char(b)),
{
    let mut out: Vec<char> = Vec::new();
    let mut i: usize = 0;
    while i < bytes.len()
        invariant
            i <= bytes@.len(),
            out@ == bytes@.take(i as int).map_values(|b: u8| passphrase_char(b)),
        decreases bytes.len() - i,
    {
        let b = bytes[i];
        let v = b & 0x1f;
        assert(v == b % 32) by (bit_vector)
            requires
                v == b & 0x1f,
        ;
        let c = if v < 26 {
            (97 + v) as char
        } else {
            (24 + v) as char
        };
        out.push(c);
        assert(out@ =~= bytes@.take(i + 1).map_values(|b: u8| passphrase_char(b)));
        i += 1;
    }
    assert(bytes@.take(bytes@.len() as int) =~= bytes@);
    string_of(out.as_slice())
}

// ───────────────────────────── hub addresses ─────────────────────────────

/// `s` without the `/` characters at its end.
pub open spec fn trim_end_slashes(s: Seq<char>) -> Seq<char>
    decreases s.len(),
{
    if s.len() > 0 && s.last() == '/' {
        trim_end_slashes(s.drop_last())
    } else {
        s
    }
}

/// The WebSocket URL of a hub address: without trailing slashes; kept if
/// it is already `wss://` or `ws://`; `https://` becomes `wss://` and
/// `http://` becomes `ws://`; a bare local address (naming `localhost`,
/// `127.0.0.1` or `[::1]`) gets `ws://`, any other bare address `wss://`.
pub open spec fn hub_url(raw: Seq<char>) -> Seq<char> {
    let t = trim_end_slashes(raw);
    if starts_with(t, "wss://"@) || starts_with(t, "ws://"@) {
        t
    } else if starts_with(t, "https://"@) {
        "wss://"@ + t.skip(8)
    } else if starts_with(t, "http://"@) {
        "ws://"@ + t.skip(7)
    } else if contains_seq(t, "localhost"@) || contains_seq(t, "127.0.0.1"@) || contains_seq(
        t,
        "[::1]"@,
    ) {
        "ws://"@ + t
    } else {
        "wss://"@ + t
    }
}

/// The characters of `raw` without the `/` characters at its end.
fn trimmed_slashes(raw: &str) -> (r: Vec<char>)
    ensures
        r@ == trim_end_slashes(raw@),
{
    let cs = chars_of(raw);
    let mut end = cs.len();
    assert(cs@.take(cs@.len() as int) =~= cs@);
    while end > 0 && cs[end - 1] == '/'
        invariant
            end <= cs@.len(),
            trim_end_slashes(raw@) == trim_end_slashes(cs@.take(end as int)),
        decreases end,
    {
        assert(cs@.take(end as int).drop_last() =~= cs@.take(end - 1));
        end -= 1;
    }
    let t = sub_vec(cs.as_slice(), 0, end);
    assert(t@ =~= cs@.take(end as int));
    assert(trim_end_slashes(t@) == t@);
    t
}

/// The address at which a consumer waits on the hub for the sharer whose
/// public key is `key_hex`: the hub's address without trailing slashes,
/// then `/channel/`, the key and `/consumer`.
pub fn consumer_url(signal_url: &str, key_hex: &str) -> (r: String)
    ensures
        r@ == trim_end_slashes(signal_url@) + "/channel/"@ + key_hex@ + "/consumer"@,
{
    let mut out = trimmed_slashes(signal_url);
    append_str(&mut out, "/channel/");
    append_str(&mut out, key_hex);
    append_str(&mut out, "/consumer");
    string_of(out.as_slice())
}

/// Normalises a hub address to a WebSocket URL.
pub fn normalize_hub(raw: &str) -> (r: String)
    ensures
        r@ == hub_url(raw@),
{
    let t = trimmed_slashes(raw);
    proof {
        reveal_strlit("https://");
        reveal_strlit("http://");
    }
    let mut out: Vec<char> = Vec::new();
    if starts_with_str(t.as_slice(), "wss://") || starts_with_str(t.as_slice(), "ws://") {
        append_chars(&mut out, t.as_slice());
    } else if starts_with_str(t.as_slice(), "https://") {
        append_str(&mut out, "wss://");
        let rest = sub_vec(t.as_slice(), 8, t.len());
        append_chars(&mut out, rest.as_slice());
        assert(rest@ =~= t@.skip(8));
    } else if starts_with_str(t.as_slice(), "http://") {
        append_str(&mut out, "ws://");
        let rest = sub_vec(t.as_slice(), 7, t.len());
        append_chars(&mut out, rest.as_slice());
        assert(rest@ =~= t@.skip(7));
    } else {
        let local = contains_chars(t.as_slice(), chars_of("localhost").as_slice())
            || contains_chars(t.as_slice(), chars_of("127.0.0.1").as_slice()) || contains_chars(
            t.as_slice(),
            chars_of("[::1]").as_slice(),
        );
        if local {
            append_str(&mut out, "ws://");
        } else {
            append_str(&mut out, "wss://");
        }
        append_chars(&mut out, t.as_slice());
    }
    string_of(out.as_slice())
}

/// A text whose last character is not `/` keeps all of it.
proof fn lemma_no_trailing_slash(t: Seq<char>)
    requires
        t.len() == 0 || t.last() != '/',
    ensures
        trim_end_slashes(t) == t,
{
}

/// What is left after dropping trailing slashes ends with no slash.
proof fn lemma_trim_end_slashes_shape(s: Seq<char>)
    ensures
        trim_end_slashes(s).len() == 0 || trim_end_slashes(s).last() != '/',
    decreases s.len(),
{
    if s.len() > 0 && s.last() == '/' {
        lemma_trim_end_slashes_shape(s.drop_last());
    }
}

/// A prefix put before a text starts the result.
proof fn lemma_starts_concat(p: Seq<char>, t: Seq<char>)
    ensures
        starts_with(p + t, p),
{
    assert((p + t).subrange(0, p.len() as int) =~= p);
}

/// Normalising is done once for all: a hub address that is more than
/// slashes becomes a `ws://` or `wss://` URL without a trailing slash,
/// which normalises to itself.
pub proof fn hub_url_settles(raw: Seq<char>)
    requires
        trim_end_slashes(raw).len() > 0,
    ensures
        starts_with(hub_url(raw), "ws://"@) || starts_with(hub_url(raw), "wss://"@),
        hub_url(raw).len() > 0 && hub_url(raw).last() != '/',
        hub_url(hub_url(raw)) == hub_url(raw),
{
    reveal_strlit("ws://");
    reveal_strlit("wss://");
    reveal_strlit("http://");
    reveal_strlit("https://");
    let t = trim_end_slashes(raw);
    lemma_trim_end_slashes_shape(raw);
    let h = hub_url(raw);
    if starts_with(t, "wss://"@) || starts_with(t, "ws://"@) {
        assert(h == t);
    } else if starts_with(t, "https://"@) {
        assert(t.len() > 8) by {
            if t.len() == 8 {
                assert(t.subrange(0, 8) =~= t);
                assert(t.last() == '/');
            }
        }
        lemma_starts_concat("wss://"@, t.skip(8));
        assert(h.last() == t.last());
    } else if starts_with(t, "http://"@) {
        assert(t.len() > 7) by {
            if t.len() == 7 {
                assert(t.subrange(0, 7) =~= t);
                assert(t.last() == '/');
            }
        }
        lemma_starts_concat("ws://"@, t.skip(7));
        assert(h.last() == t.last());
    } else if contains_seq(t, "localhost"@) || contains_seq(t, "127.0.0.1"@) || contains_seq(t, "[::1]"@) {
        lemma_starts_concat("ws://"@, t);
        assert(h.last() == t.last());
    } else {
        lemma_starts_concat("wss://"@, t);
        assert(h.last() == t.last());
    }
    lemma_no_trailing_slash(h);
}

} // verus!
