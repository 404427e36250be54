use std::collections::HashSet;

use asterconf::agi_server::{
    challenge_query, create_nonce, AuthError, ChallengeReply, SHA1DigestOverAGI,
};

#[test]
fn expected_digest_matches_known_vector() {
    // SHA1("ab:c")
    let auth = SHA1DigestOverAGI::new("ab");
    let digest = auth.expected_digest("c");
    assert_eq!(hex::encode(&digest), "95ef6900ce821321fd42015753a36cce9d52a928");

    // SHA1("s3cret:0123456789abcdef")
    let auth = SHA1DigestOverAGI::new("s3cret");
    let digest = auth.expected_digest("0123456789abcdef");
    assert_eq!(hex::encode(&digest), "43e0713400412c7d8c5a95a513a5f4cf5ead96b0");
}

#[test]
fn correct_digest_is_accepted() {
    let auth = SHA1DigestOverAGI::new("s3cret");
    let nonce = "0123456789abcdef";
    let reply = ChallengeReply::SuccessWithValue(
        "43e0713400412c7d8c5a95a513a5f4cf5ead96b0".to_string(),
    );
    assert_eq!(auth.verify_response(nonce, &reply), Ok(()));

    // Uppercase hex decodes to the same bytes and is accepted too.
    let reply = ChallengeReply::SuccessWithValue(
        "43E0713400412C7D8C5A95A513A5F4CF5EAD96B0".to_string(),
    );
    assert_eq!(auth.verify_response(nonce, &reply), Ok(()));
}

#[test]
fn flipped_digest_bit_is_rejected() {
    let auth = SHA1DigestOverAGI::new("s3cret");
    let nonce = "0123456789abcdef";
    let mut digest = auth.expected_digest(nonce);
    // Flip a single bit anywhere in the digest.
    digest[7] ^= 0x01;
    let reply = ChallengeReply::SuccessWithValue(hex::encode(&digest));
    assert_eq!(
        auth.verify_response(nonce, &reply),
        Err(AuthError::AuthenticationFailed)
    );
}

#[test]
fn malformed_digests_are_rejected_as_malformed() {
    let auth = SHA1DigestOverAGI::new("s3cret");
    let nonce = "0123456789abcdef";
    // Not hex at all.
    let reply = ChallengeReply::SuccessWithValue("zz".repeat(20));
    assert_eq!(auth.verify_response(nonce, &reply), Err(AuthError::MalformedDigest));
    // Valid hex, but not of the digest's length.
    let reply = ChallengeReply::SuccessWithValue("abcd".to_string());
    assert_eq!(auth.verify_response(nonce, &reply), Err(AuthError::MalformedDigest));
    // Odd number of digits.
    let reply = ChallengeReply::SuccessWithValue("abc".to_string());
    assert_eq!(auth.verify_response(nonce, &reply), Err(AuthError::MalformedDigest));
}

#[test]
fn protocol_failures_are_rejected_as_protocol_errors() {
    let auth = SHA1DigestOverAGI::new("s3cret");
    let nonce = "0123456789abcdef";
    assert_eq!(
        auth.verify_response(nonce, &ChallengeReply::SuccessEmpty),
        Err(AuthError::ProtocolError)
    );
    assert_eq!(
        auth.verify_response(nonce, &ChallengeReply::FailureStatus),
        Err(AuthError::ProtocolError)
    );
}

#[test]
fn nonce_is_forty_lowercase_hex_chars() {
    let nonce = create_nonce();
    assert_eq!(nonce.len(), 40);
    assert!(nonce.chars().all(|c| c.is_ascii_hexdigit()));
    assert_eq!(nonce, nonce.to_lowercase());
}

#[test]
fn nonce_generation_does_not_repeat() {
    let mut seen: HashSet<String> = HashSet::new();
    for _ in 0..10_000 {
        seen.insert(create_nonce());
    }
    assert_eq!(seen.len(), 10_000);
}

#[test]
fn challenge_query_embeds_the_nonce() {
    assert_eq!(
        challenge_query("00ff"),
        "${SHA1(${BLAZING_AGI_DIGEST_SECRET}:00ff)}"
    );
}
