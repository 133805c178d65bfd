use zkdtvm_stark_verifier::verify::{
    artifact_verdict, deserialize_vk_bytes, from_artifact_bytes, validate_artifact,
    validate_input_lengths, verify_compressed, verify_compressed_bytes, Checks, Outcome,
    L4_VERIFIER_ARTIFACT_SHA256, MAX_ARTIFACT_BYTES, MAX_PROOF_BYTES, MAX_VK_BYTES,
};

fn failed(reason: &str) -> Outcome {
    Err(reason.to_string())
}

fn good() -> Checks {
    Checks { identity: Ok(()), boundary: Ok(()), owners: Ok(()), root: Ok(()) }
}

#[test]
fn rejects_unpinned_artifacts_before_initialization() {
    assert!(from_artifact_bytes(&[], &Ok(())).is_err());
    let mut corrupt = vec![7u8; 4096];
    let last = corrupt.len() - 1;
    corrupt[last] ^= 1;
    assert!(from_artifact_bytes(&corrupt, &Ok(())).is_err());
    corrupt.push(0);
    assert!(from_artifact_bytes(&corrupt, &Ok(())).is_err());
}

#[test]
fn artifact_is_judged_by_its_digest() {
    let message = "DTV_RELEASE_ARTIFACT_INVALID: artifact does not match the release SHA-256";
    assert_eq!(validate_artifact(&L4_VERIFIER_ARTIFACT_SHA256), failed(message));
    assert_eq!(artifact_verdict(1, &L4_VERIFIER_ARTIFACT_SHA256.to_vec()), Ok(()));
    assert_eq!(artifact_verdict(1, &vec![0; 32]), failed(message));
    assert_eq!(artifact_verdict(1, &vec![]), failed(message));
}

#[test]
fn artifact_size_is_limited() {
    let message = "DTV_RELEASE_ARTIFACT_INVALID: artifact size is outside the release limit";
    let digest = L4_VERIFIER_ARTIFACT_SHA256.to_vec();
    assert_eq!(artifact_verdict(0, &digest), failed(message));
    assert_eq!(artifact_verdict(MAX_ARTIFACT_BYTES, &digest), Ok(()));
    assert_eq!(artifact_verdict(MAX_ARTIFACT_BYTES + 1, &digest), failed(message));
}

#[test]
fn lengths_are_checked_first() {
    let empty = "DTV_EMPTY_INPUT: proof and full VK are required";
    let large = "DTV_INPUT_TOO_LARGE: proof limit=4194304, VK limit=1048576";
    assert_eq!(validate_input_lengths(0, 1), failed(empty));
    assert_eq!(validate_input_lengths(1, 0), failed(empty));
    assert_eq!(validate_input_lengths(MAX_PROOF_BYTES + 1, 1), failed(large));
    assert_eq!(validate_input_lengths(1, MAX_VK_BYTES + 1), failed(large));
    assert_eq!(validate_input_lengths(MAX_PROOF_BYTES, MAX_VK_BYTES), Ok(()));
    let artifact = failed("artifact");
    let outcome = verify_compressed_bytes(&[], &[1], &artifact, &Ok(()), &Ok(1), &good());
    assert_eq!(outcome, failed(empty));
}

#[test]
fn key_bytes_are_taken_to_the_end() {
    assert_eq!(deserialize_vk_bytes(32, &Ok(32)), Ok(()));
    assert_eq!(deserialize_vk_bytes(33, &Ok(32)), failed("DTV_INVALID_VK: trailing bytes"));
    assert_eq!(
        deserialize_vk_bytes(33, &Err("short".to_string())),
        failed("DTV_INVALID_VK: expected full DTVerifyingKey: short"),
    );
    let size = "DTV_INVALID_VK: full VK size is outside the release limit";
    assert_eq!(deserialize_vk_bytes(0, &Ok(0)), failed(size));
    assert_eq!(deserialize_vk_bytes(MAX_VK_BYTES + 1, &Ok(1)), failed(size));
}

#[test]
fn first_failing_check_is_named() {
    assert_eq!(verify_compressed(&good()), Ok(()));
    let mut checks = good();
    checks.root = failed("d");
    assert_eq!(verify_compressed(&checks), failed("DTV_PROOF_INVALID: d"));
    checks.owners = failed("c");
    assert_eq!(verify_compressed(&checks), failed("DTV_INVALID_VK: c"));
    checks.boundary = failed("b");
    assert_eq!(verify_compressed(&checks), failed("DTV_INVALID_VK: b"));
    checks.identity = failed("a");
    assert_eq!(verify_compressed(&checks), failed("DTV_INVALID_VK: a"));
}

#[test]
fn stages_of_the_bytes_are_in_order() {
    let run = |verifier: &Outcome, decoded: &Outcome, vk: &Result<usize, String>| {
        verify_compressed_bytes(&[1, 2], &[3], verifier, decoded, vk, &good())
    };
    assert_eq!(run(&Ok(()), &Ok(()), &Ok(1)), Ok(()));
    assert_eq!(run(&failed("v"), &failed("d"), &Ok(0)), failed("v"));
    assert_eq!(run(&Ok(()), &failed("d"), &Ok(0)), failed("DTV_MALFORMED_PROOF: d"));
    assert_eq!(run(&Ok(()), &Ok(()), &Ok(0)), failed("DTV_INVALID_VK: trailing bytes"));
}
