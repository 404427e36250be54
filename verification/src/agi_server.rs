//! Challenge authentication and routing-query handling for the telephony
//! engine's request/response protocol.
//!
//! Before any routing query is answered, the peer must prove that it holds
//! the pre-shared secret: the server sends a fresh nonce, the peer returns
//! `SHA1(secret ":" nonce)` as a hex string, and the server compares it with
//! its own computation. Authenticated queries are answered by first-match
//! resolution over the rule store.

use vstd::prelude::*;
use vstd::string::StringExecFns;

use sha1::{Digest, Sha1};

use crate::db::RuleStore;
use crate::types::{ctx_names_contain, str_eq, CallForward, HasId};

verus! {

// ---------------------------------------------------------------------------
// Hex encoding and decoding, as the `hex` crate performs them.
// ---------------------------------------------------------------------------
/// The lowercase hex digit for a value below 16.
pub open spec fn hex_digit(n: int) -> char {
    seq!['0', '1', '2', '3', '4', '5', '6', '7', '8', '9', 'a', 'b', 'c', 'd', 'e', 'f'][n]
}

/// The lowercase hex encoding of a byte sequence: two digits per byte, high
/// nibble first.
pub open spec fn hex_of(bytes: Seq<u8>) -> Seq<char> {
    Seq::new(
        bytes.len() * 2,
        |i: int|
            if i % 2 == 0 {
                hex_digit((bytes[i / 2] >> 4) as int)
            } else {
                hex_digit((bytes[i / 2] & 0x0f) as int)
            },
    )
}

/// Whether `c` is a hex digit, in either case.
pub open spec fn is_hex_digit(c: char) -> bool {
    ||| ('0' as u32) <= (c as u32) <= ('9' as u32)
    ||| ('a' as u32) <= (c as u32) <= ('f' as u32)
    ||| ('A' as u32) <= (c as u32) <= ('F' as u32)
}

/// The value of a hex digit, in either case.
pub open spec fn hex_val(c: char) -> int {
    if ('0' as u32) <= (c as u32) <= ('9' as u32) {
        (c as u32) as int - ('0' as u32) as int
    } else if ('a' as u32) <= (c as u32) <= ('f' as u32) {
        (c as u32) as int - ('a' as u32) as int + 10
    } else {
        (c as u32) as int - ('A' as u32) as int + 10
    }
}

/// Whether a string decodes as hex: an even number of digits.
pub open spec fn hex_decode_ok(s: Seq<char>) -> bool {
    s.len() % 2 == 0 && (forall|i: int| 0 <= i < s.len() ==> is_hex_digit(#[trigger] s[i]))
}

/// The bytes a hex string decodes to, one per digit pair.
pub open spec fn spec_hex_decode(s: Seq<char>) -> Seq<u8> {
    Seq::new(s.len() / 2, |i: int| (hex_val(s[2 * i]) * 16 + hex_val(s[2 * i + 1])) as u8)
}

/// Relies on `hex::encode`: every byte becomes two lowercase hex digits,
/// high nibble first.
#[verifier::external_body]
fn hex_encode(data: &[u8]) -> (r: String)
    ensures
        r@ == hex_of(data@),
{
    hex::encode(data)
}

/// Declares `hex::FromHexError`, the error of `hex::decode`; it is carried
/// opaquely and mapped to this crate's own error kinds.
#[verifier::external_type_specification]
#[verifier::external_body]
pub struct ExFromHexError(hex::FromHexError);

/// Relies on `hex::decode`: an even-length string of hex digits (either
/// case) decodes to its byte values, pairwise; anything else is rejected.
#[verifier::external_body]
fn hex_decode(s: &str) -> (r: Result<Vec<u8>, hex::FromHexError>)
    ensures
        match r {
            Ok(v) => hex_decode_ok(s@) && v@ == spec_hex_decode(s@),
            Err(_) => !hex_decode_ok(s@),
        },
{
    hex::decode(s)
}

/// Every entry of the digit table is a hex digit and decodes back to its
/// index.
proof fn lemma_hex_digit_props(n: int)
    requires
        0 <= n < 16,
    ensures
        is_hex_digit(hex_digit(n)),
        hex_val(hex_digit(n)) == n,
{
    if n < 10 {
        assert(is_hex_digit(hex_digit(n)) && hex_val(hex_digit(n)) == n) by {
            if n == 0 {
                assert(hex_digit(0) == '0');
            } else if n == 1 {
                assert(hex_digit(1) == '1');
            } else if n == 2 {
                assert(hex_digit(2) == '2');
            } else if n == 3 {
                assert(hex_digit(3) == '3');
            } else if n == 4 {
                assert(hex_digit(4) == '4');
            } else if n == 5 {
                assert(hex_digit(5) == '5');
            } else if n == 6 {
                assert(hex_digit(6) == '6');
            } else if n == 7 {
                assert(hex_digit(7) == '7');
            } else if n == 8 {
                assert(hex_digit(8) == '8');
            } else {
                assert(hex_digit(9) == '9');
            }
        }
    } else {
        assert(is_hex_digit(hex_digit(n)) && hex_val(hex_digit(n)) == n) by {
            if n == 10 {
                assert(hex_digit(10) == 'a');
            } else if n == 11 {
                assert(hex_digit(11) == 'b');
            } else if n == 12 {
                assert(hex_digit(12) == 'c');
            } else if n == 13 {
                assert(hex_digit(13) == 'd');
            } else if n == 14 {
                assert(hex_digit(14) == 'e');
            } else {
                assert(hex_digit(15) == 'f');
            }
        }
    }
}

/// Hex round trip: the encoding of any byte sequence decodes, and decodes
/// back to exactly that sequence.
pub proof fn lemma_hex_roundtrip(b: Seq<u8>)
    ensures
        hex_decode_ok(hex_of(b)),
        spec_hex_decode(hex_of(b)) == b,
{
    let s = hex_of(b);
    assert forall|i: int| 0 <= i < s.len() implies is_hex_digit(#[trigger] s[i]) by {
        let x = b[i / 2];
        assert(x >> 4 < 16 && x & 0x0f < 16) by (bit_vector);
        if i % 2 == 0 {
            lemma_hex_digit_props((x >> 4) as int);
        } else {
            lemma_hex_digit_props((x & 0x0f) as int);
        }
    }
    assert forall|i: int| 0 <= i < b.len() implies spec_hex_decode(s)[i] == b[i] by {
        let x = b[i];
        assert(x >> 4 < 16 && x & 0x0f < 16) by (bit_vector);
        lemma_hex_digit_props((x >> 4) as int);
        lemma_hex_digit_props((x & 0x0f) as int);
        assert(s[2 * i] == hex_digit((x >> 4) as int));
        assert(s[2 * i + 1] == hex_digit((x & 0x0f) as int));
        assert(((x >> 4) * 16 + (x & 0x0f)) == x) by (bit_vector);
    }
    assert(spec_hex_decode(s) =~= b);
}

// ---------------------------------------------------------------------------
// Nonce generation.
// ---------------------------------------------------------------------------
/// Relies on `std::time::SystemTime::now` and `Duration`'s accessors: the
/// wall-clock time since the Unix epoch as whole seconds and the millisecond
/// part, which is below 1000. A wall clock that reads before the epoch stops
/// the process: no nonce may be issued from such a clock.
#[verifier::external_body]
fn clock_now() -> (r: (u64, u32))
    ensures
        r.1 < 1000,
{
    let d = std::time::SystemTime::now()
        .duration_since(std::time::UNIX_EPOCH)
        .expect("Should be after the epoch");
    (d.as_secs(), d.subsec_millis())
}

/// Relies on `rand::random`: eight bytes from the thread-local
/// cryptographically seeded generator. Nothing is assumed of their values.
#[verifier::external_body]
fn random_bytes() -> (r: Vec<u8>)
    ensures
        r@.len() == 8,
{
    rand::random::<[u8; 8]>().to_vec()
}

/// The 20 nonce bytes: seconds since the epoch (little-endian, against reuse
/// across restarts), the millisecond part (little-endian, against reuse
/// within a second), then eight random bytes (against predictability).
fn nonce_bytes(secs: u64, millis: u32, rand8: &Vec<u8>) -> (r: Vec<u8>)
    requires
        rand8@.len() == 8,
    ensures
        r@ == vstd::bytes::spec_u64_to_le_bytes(secs) + vstd::bytes::spec_u32_to_le_bytes(millis)
            + rand8@,
        r@.len() == 20,
{
    proof {
        vstd::bytes::lemma_auto_spec_u64_to_from_le_bytes();
        vstd::bytes::lemma_auto_spec_u32_to_from_le_bytes();
    }
    let mut b = vstd::bytes::u64_to_le_bytes(secs);
    let mut m = vstd::bytes::u32_to_le_bytes(millis);
    b.append(&mut m);
    b.extend_from_slice(rand8.as_slice());
    b
}

/// The layout of a nonce: the hex encoding of a second count (little-endian),
/// a millisecond part below 1000 (little-endian) and eight further bytes.
pub open spec fn nonce_layout(s: Seq<char>) -> bool {
    exists|secs: u64, millis: u32, rnd: Seq<u8>|
        {
            &&& millis < 1000
            &&& rnd.len() == 8
            &&& s == hex_of(
                vstd::bytes::spec_u64_to_le_bytes(secs) + vstd::bytes::spec_u32_to_le_bytes(millis)
                    + rnd,
            )
        }
}

/// A fresh authentication nonce: the hex encoding of 20 bytes — the current
/// Unix time in seconds, the millisecond part, and eight random bytes.
pub fn create_nonce() -> (r: String)
    ensures
        r@.len() == 40,
        nonce_layout(r@),
{
    let (secs, millis) = clock_now();
    let rnd = random_bytes();
    let bytes = nonce_bytes(secs, millis, &rnd);
    let r = hex_encode(bytes.as_slice());
    proof {
        assert(bytes@.len() == 20 && r@ == hex_of(bytes@));
        assert(millis < 1000 && rnd@.len() == 8 && r@ == hex_of(
            vstd::bytes::spec_u64_to_le_bytes(secs) + vstd::bytes::spec_u32_to_le_bytes(millis)
                + rnd@,
        ));
        assert(nonce_layout(r@));
    }
    r
}

// ---------------------------------------------------------------------------
// The challenge digest.
// ---------------------------------------------------------------------------
/// The SHA-1 digest of a byte sequence, as the `sha1` crate computes it.
pub uninterp spec fn sha1_of(data: Seq<u8>) -> Seq<u8>;

/// Relies on `sha1::Sha1` through the `Digest` interface: the digest is 20
/// bytes and depends on the input bytes alone.
#[verifier::external_body]
fn sha1_digest(data: &[u8]) -> (r: Vec<u8>)
    ensures
        r@ == sha1_of(data@),
        r@.len() == 20,
{
    let mut hasher = Sha1::new();
    hasher.update(data);
    let digest: [u8; 20] = hasher.finalize().into();
    digest.to_vec()
}

/// The bytes the peer must hash: the secret, a colon, and the nonce, each as
/// UTF-8.
pub open spec fn auth_message(secret: Seq<char>, nonce: Seq<char>) -> Seq<u8> {
    vstd::utf8::encode_utf8(secret) + seq![(':' as u8)] + vstd::utf8::encode_utf8(nonce)
}

/// Byte-for-byte comparison of two byte vectors.
fn bytes_eq(a: &Vec<u8>, b: &Vec<u8>) -> (r: bool)
    ensures
        r == (a@ == b@),
{
    if a.len() != b.len() {
        proof {
            assert(a@.len() != b@.len());
        }
        return false;
    }
    let n = a.len();
    let mut i: usize = 0;
    while i < n
        invariant
            i <= n,
            n == a.len() == b.len(),
            forall|j: int| 0 <= j < i ==> a@[j] == b@[j],
        decreases n - i,
    {
        if a[i] != b[i] {
            return false;
        }
        i += 1;
    }
    proof {
        assert(a@ =~= b@);
    }
    true
}

/// How the peer answered the challenge query: a success response carrying
/// the digest text, a success response without a payload, or a failure
/// status.
#[derive(Debug, PartialEq)]
pub enum ChallengeReply {
    SuccessWithValue(String),
    SuccessEmpty,
    FailureStatus,
}

/// Why an authentication attempt was rejected. `MalformedDigest`: the reply
/// text is not valid hex of the expected length. `AuthenticationFailed`: the
/// digest decodes but does not match. `ProtocolError`: the challenge
/// response had a failure status or carried no payload.
#[derive(Debug, PartialEq)]
pub enum AuthError {
    MalformedDigest,
    AuthenticationFailed,
    ProtocolError,
}

/// The authentication verdict on a reply, given the expected digest bytes.
pub open spec fn spec_digest_verdict(expected: Seq<u8>, reply: ChallengeReply) -> Result<
    (),
    AuthError,
> {
    match reply {
        ChallengeReply::FailureStatus => Err(AuthError::ProtocolError),
        ChallengeReply::SuccessEmpty => Err(AuthError::ProtocolError),
        ChallengeReply::SuccessWithValue(v) => if !(hex_decode_ok(v@) && spec_hex_decode(v@).len()
            == expected.len()) {
            Err(AuthError::MalformedDigest)
        } else if spec_hex_decode(v@) == expected {
            Ok(())
        } else {
            Err(AuthError::AuthenticationFailed)
        },
    }
}

/// Decide an authentication attempt: accept exactly when the reply is a
/// success response whose payload decodes as hex to the expected digest.
pub fn evaluate_digest_response(expected: &Vec<u8>, reply: &ChallengeReply) -> (r: Result<
    (),
    AuthError,
>)
    ensures
        r == spec_digest_verdict(expected@, *reply),
{
    match reply {
        ChallengeReply::FailureStatus => Err(AuthError::ProtocolError),
        ChallengeReply::SuccessEmpty => Err(AuthError::ProtocolError),
        ChallengeReply::SuccessWithValue(v) => {
            match hex_decode(v.as_str()) {
                Err(_) => Err(AuthError::MalformedDigest),
                Ok(bytes) => {
                    if bytes.len() != expected.len() {
                        Err(AuthError::MalformedDigest)
                    } else if bytes_eq(&bytes, expected) {
                        Ok(())
                    } else {
                        Err(AuthError::AuthenticationFailed)
                    }
                },
            }
        },
    }
}

/// The challenge authenticator: it holds the pre-shared secret and accepts a
/// connection only when the peer derives the same digest from the nonce.
#[derive(Debug)]
pub struct SHA1DigestOverAGI {
    secret: String,
}

impl SHA1DigestOverAGI {
    /// The pre-shared secret this authenticator checks against.
    pub closed spec fn spec_secret(&self) -> Seq<char> {
        self.secret@
    }

    pub fn new(secret: &str) -> (r: Self)
        ensures
            r.spec_secret() == secret@,
    {
        Self { secret: secret.to_owned() }
    }

    /// The digest the peer is expected to return for `nonce`:
    /// `SHA1(secret ":" nonce)`.
    pub fn expected_digest(&self, nonce: &str) -> (r: Vec<u8>)
        ensures
            r@ == sha1_of(auth_message(self.spec_secret(), nonce@)),
            r@.len() == 20,
    {
        let mut msg: Vec<u8> = Vec::new();
        msg.extend_from_slice(self.secret.as_str().as_bytes());
        msg.push(':' as u8);
        msg.extend_from_slice(nonce.as_bytes());
        proof {
            assert(msg@ =~= auth_message(self.spec_secret(), nonce@));
        }
        sha1_digest(msg.as_slice())
    }

    /// Decide one authentication attempt: compute the expected digest for
    /// `nonce` and hold the peer's reply against it.
    pub fn verify_response(&self, nonce: &str, reply: &ChallengeReply) -> (r: Result<
        (),
        AuthError,
    >)
        ensures
            r == spec_digest_verdict(sha1_of(auth_message(self.spec_secret(), nonce@)), *reply),
    {
        let expected = self.expected_digest(nonce);
        evaluate_digest_response(&expected, reply)
    }
}

/// The challenge query sent to the peer: it evaluates the keyed hash of the
/// nonce with the peer's own copy of the secret and returns the digest.
pub fn challenge_query(nonce: &str) -> (r: String)
    ensures
        r@ == "${SHA1(${BLAZING_AGI_DIGEST_SECRET}:"@ + nonce@ + ")}"@,
{
    let mut s: String = "${SHA1(${BLAZING_AGI_DIGEST_SECRET}:".to_owned();
    s.append(nonce);
    s.append(")}");
    s
}

/// Digest correctness: the authenticator accepts exactly a success reply
/// whose payload decodes as hex to `SHA1(secret ":" nonce)`; in particular a
/// reply whose decoded bytes differ anywhere from that digest is rejected.
pub proof fn lemma_digest_correctness(secret: Seq<char>, nonce: Seq<char>, reply: ChallengeReply)
    ensures
        spec_digest_verdict(sha1_of(auth_message(secret, nonce)), reply) is Ok <==> match reply {
            ChallengeReply::SuccessWithValue(v) => hex_decode_ok(v@) && spec_hex_decode(v@)
                == sha1_of(auth_message(secret, nonce)),
            _ => false,
        },
{
}

// ---------------------------------------------------------------------------
// Routing resolution and the per-connection query handler.
// ---------------------------------------------------------------------------
/// First-match resolution: the destination of the first rule whose source is
/// `src` and whose contexts include `ctx`; without a match, `src` itself (no
/// forwarding).
pub open spec fn spec_resolve(rules: Seq<CallForward<HasId>>, src: Seq<char>, ctx: Seq<char>) -> Seq<
    char,
>
    decreases rules.len(),
{
    if rules.len() == 0 {
        src
    } else if rules[0].from.extension@ == src && ctx_names_contain(rules[0].in_contexts@, ctx) {
        rules[0].to.extension@
    } else {
        spec_resolve(rules.drop_first(), src, ctx)
    }
}

/// Resolve a routing query: scan the persisted rules in store order and
/// forward to the first rule that matches source and context; a call nobody
/// forwards keeps its original destination.
pub fn resolve(store: &RuleStore, initial_dest: &str, context_name: &str) -> (r: String)
    ensures
        r@ == spec_resolve(store@, initial_dest@, context_name@),
{
    proof {
        crate::db::lemma_store_view(store);
    }
    let n = store.rules.len();
    let mut i: usize = 0;
    proof {
        assert(store.rules@.skip(0) =~= store.rules@);
    }
    while i < n
        invariant
            i <= n,
            n == store.rules.len(),
            store@ == store.rules@,
            spec_resolve(store.rules@, initial_dest@, context_name@) == spec_resolve(
                store.rules@.skip(i as int),
                initial_dest@,
                context_name@,
            ),
        decreases n - i,
    {
        proof {
            assert(store.rules@.skip(i as int)[0] == store.rules@[i as int]);
            assert(store.rules@.skip(i as int).drop_first() =~= store.rules@.skip(i as int + 1));
        }
        if str_eq(store.rules[i].from.extension.as_str(), initial_dest) && crate::types::context_name_in(
            &store.rules[i].in_contexts,
            context_name,
        ) {
            return store.rules[i].to.extension.clone();
        }
        i += 1;
    }
    proof {
        assert(store.rules@.skip(n as int) =~= Seq::<CallForward<HasId>>::empty());
    }
    initial_dest.to_owned()
}

/// Resolving with no matching rule returns the source extension unchanged:
/// absence of a forward is a valid outcome, not a failure.
pub proof fn lemma_resolve_no_match(rules: Seq<CallForward<HasId>>, src: Seq<char>, ctx: Seq<char>)
    requires
        forall|i: int|
            0 <= i < rules.len() ==> !(rules[i].from.extension@ == src && ctx_names_contain(
                #[trigger] rules[i].in_contexts@,
                ctx,
            )),
    ensures
        spec_resolve(rules, src, ctx) == src,
    decreases rules.len(),
{
    if rules.len() > 0 {
        assert(forall|i: int|
            0 <= i < rules.drop_first().len() ==> rules.drop_first()[i] == rules[i + 1]);
        lemma_resolve_no_match(rules.drop_first(), src, ctx);
    }
}

/// A malformed routing query: the positional argument at `0` is missing and
/// `1` of them are required.
#[derive(Debug, PartialEq)]
pub enum SessionError {
    MissingArgument(u8, u8),
}

/// Decide one routing query: both positional arguments (source extension id,
/// context name) must be present, and the answer is the name and value of
/// the variable to set on the connection.
pub fn handle_call_forward_query(
    store: &RuleStore,
    initial_dest: Option<&String>,
    context_name: Option<&String>,
) -> (r: Result<(String, String), SessionError>)
    ensures
        match (initial_dest, context_name) {
            (None, _) => r == Err::<(String, String), SessionError>(
                SessionError::MissingArgument(0, 2),
            ),
            (Some(_), None) => r == Err::<(String, String), SessionError>(
                SessionError::MissingArgument(1, 2),
            ),
            (Some(d), Some(c)) => match r {
                Err(_) => false,
                Ok(pair) => pair.0@ == "CALL_FORWARDED_TO"@ && pair.1@ == spec_resolve(
                    store@,
                    d@,
                    c@,
                ),
            },
        },
{
    let dest = match initial_dest {
        None => {
            return Err(SessionError::MissingArgument(0, 2));
        },
        Some(d) => d,
    };
    let ctx = match context_name {
        None => {
            return Err(SessionError::MissingArgument(1, 2));
        },
        Some(c) => c,
    };
    let forwarded_to = resolve(store, dest.as_str(), ctx.as_str());
    Ok(("CALL_FORWARDED_TO".to_owned(), forwarded_to))
}

} // verus!
