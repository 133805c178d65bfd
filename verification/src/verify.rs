//! The verdict on a compressed proof: the size limits, the pinned release artifact, and the order
//! in which the parts of a proof and its key are checked.
use vstd::prelude::*;
use sha2::{Digest, Sha256};

verus! {

/// The greatest number of bytes of a proof.
pub const MAX_PROOF_BYTES: usize = 4194304;

/// The greatest number of bytes of a verifying key.
pub const MAX_VK_BYTES: usize = 1048576;

/// The greatest number of bytes of a release artifact.
pub const MAX_ARTIFACT_BYTES: usize = 33554432;

/// The SHA-256 digest of the release artifact.
pub const L4_VERIFIER_ARTIFACT_SHA256: [u8; 32] = [
    0x22, 0x55, 0xd5, 0xe8, 0x01, 0x72, 0x62, 0x79, 0x65, 0x1f, 0x94, 0x0c, 0xb2, 0x20, 0x67, 0x15,
    0x20, 0x0c, 0x7f, 0x73, 0xd9, 0x8c, 0xb0, 0xbf, 0x35, 0x8e, 0x79, 0x1c, 0x49, 0xae, 0x51, 0xb8,
];

/// The SHA-256 digest of the bytes.
pub uninterp spec fn sha256_digest(bytes: Seq<u8>) -> Seq<u8>;

/// The SHA-256 digest, by `sha2::Sha256::digest`. The digest has 32 bytes and depends on the bytes
/// alone.
#[verifier::external_body]
fn sha256(bytes: &[u8]) -> (r: Vec<u8>)
    ensures
        r@ == sha256_digest(bytes@),
        r@.len() == 32,
{
    Sha256::digest(bytes).to_vec()
}

/// The outcome of a step that others perform: nothing, or why it failed.
pub type Outcome = Result<(), String>;

/// A prefix before a reason.
fn prefixed(prefix: &str, reason: &String) -> (r: String)
    ensures
        r@ == prefix@ + reason@,
{
    String::from_str(prefix).concat(reason.as_str())
}

/// Checks the lengths of a proof and a verifying key before their bytes are looked at.
pub fn validate_input_lengths(proof_len: usize, vk_len: usize) -> (r: Result<(), String>)
    ensures
        r is Ok <==> 0 < proof_len <= MAX_PROOF_BYTES && 0 < vk_len <= MAX_VK_BYTES,
        proof_len == 0 || vk_len == 0 ==> r is Err && r->Err_0@
            == "DTV_EMPTY_INPUT: proof and full VK are required"@,
        proof_len > 0 && vk_len > 0 && (proof_len > MAX_PROOF_BYTES || vk_len > MAX_VK_BYTES)
            ==> r is Err && r->Err_0@
            == "DTV_INPUT_TOO_LARGE: proof limit=4194304, VK limit=1048576"@,
{
    if proof_len == 0 || vk_len == 0 {
        return Err(String::from_str("DTV_EMPTY_INPUT: proof and full VK are required"));
    }
    if proof_len > MAX_PROOF_BYTES || vk_len > MAX_VK_BYTES {
        return Err(
            String::from_str("DTV_INPUT_TOO_LARGE: proof limit=4194304, VK limit=1048576"),
        );
    }
    Ok(())
}

/// Whether the bytes are those of the array.
fn same_bytes(a: &Vec<u8>, b: &[u8; 32]) -> (r: bool)
    ensures
        r == (a@ == b@),
{
    if a.len() != 32 {
        return false;
    }
    let mut i: usize = 0;
    while i < 32
        invariant
            i <= 32,
            a@.len() == 32,
            forall|j: int| 0 <= j < i ==> a@[j] == b@[j],
        decreases 32 - i,
    {
        if a[i] != b[i] {
            return false;
        }
        i += 1;
    }
    assert(a@ =~= b@);
    true
}

/// The verdict on an artifact of the given size and digest.
pub fn artifact_verdict(len: usize, digest: &Vec<u8>) -> (r: Result<(), String>)
    ensures
        r is Ok <==> 0 < len <= MAX_ARTIFACT_BYTES && digest@ == L4_VERIFIER_ARTIFACT_SHA256@,
        !(0 < len <= MAX_ARTIFACT_BYTES) ==> r is Err && r->Err_0@
            == "DTV_RELEASE_ARTIFACT_INVALID: artifact size is outside the release limit"@,
        0 < len <= MAX_ARTIFACT_BYTES && digest@ != L4_VERIFIER_ARTIFACT_SHA256@ ==> r is Err
            && r->Err_0@
            == "DTV_RELEASE_ARTIFACT_INVALID: artifact does not match the release SHA-256"@,
{
    if len == 0 || len > MAX_ARTIFACT_BYTES {
        return Err(
            String::from_str(
                "DTV_RELEASE_ARTIFACT_INVALID: artifact size is outside the release limit",
            ),
        );
    }
    let pinned: [u8; 32] = L4_VERIFIER_ARTIFACT_SHA256;
    if !same_bytes(digest, &pinned) {
        return Err(
            String::from_str(
                "DTV_RELEASE_ARTIFACT_INVALID: artifact does not match the release SHA-256",
            ),
        );
    }
    Ok(())
}

/// Checks that the bytes are those of the release artifact.
pub fn validate_artifact(artifact_bytes: &[u8]) -> (r: Result<(), String>)
    ensures
        r is Ok <==> 0 < artifact_bytes@.len() <= MAX_ARTIFACT_BYTES && sha256_digest(
            artifact_bytes@,
        ) == L4_VERIFIER_ARTIFACT_SHA256@,
        !(0 < artifact_bytes@.len() <= MAX_ARTIFACT_BYTES) ==> r is Err && r->Err_0@
            == "DTV_RELEASE_ARTIFACT_INVALID: artifact size is outside the release limit"@,
        0 < artifact_bytes@.len() <= MAX_ARTIFACT_BYTES && sha256_digest(artifact_bytes@)
            != L4_VERIFIER_ARTIFACT_SHA256@ ==> r is Err && r->Err_0@
            == "DTV_RELEASE_ARTIFACT_INVALID: artifact does not match the release SHA-256"@,
{
    let len: usize = artifact_bytes.len();
    let digest: Vec<u8> = if 0 < len && len <= MAX_ARTIFACT_BYTES {
        sha256(artifact_bytes)
    } else {
        Vec::new()
    };
    artifact_verdict(len, &digest)
}

/// What follows the check of the artifact: it is decoded and loaded.
pub fn from_artifact_bytes(artifact_bytes: &[u8], loaded: &Outcome) -> (r: Result<(), String>)
    ensures
        r is Ok <==> 0 < artifact_bytes@.len() <= MAX_ARTIFACT_BYTES && sha256_digest(
            artifact_bytes@,
        ) == L4_VERIFIER_ARTIFACT_SHA256@ && *loaded is Ok,
        !(0 < artifact_bytes@.len() <= MAX_ARTIFACT_BYTES) ==> r is Err && r->Err_0@
            == "DTV_RELEASE_ARTIFACT_INVALID: artifact size is outside the release limit"@,
        0 < artifact_bytes@.len() <= MAX_ARTIFACT_BYTES && sha256_digest(artifact_bytes@)
            != L4_VERIFIER_ARTIFACT_SHA256@ ==> r is Err && r->Err_0@
            == "DTV_RELEASE_ARTIFACT_INVALID: artifact does not match the release SHA-256"@,
        0 < artifact_bytes@.len() <= MAX_ARTIFACT_BYTES && sha256_digest(artifact_bytes@)
            == L4_VERIFIER_ARTIFACT_SHA256@ && *loaded is Err ==> r is Err && r->Err_0@
            == "DTV_RELEASE_ARTIFACT_INVALID: "@ + loaded->Err_0@,
{
    match validate_artifact(artifact_bytes) {
        Err(e) => {
            return Err(e);
        },
        Ok(_) => {},
    }
    match loaded {
        Err(e) => Err(prefixed("DTV_RELEASE_ARTIFACT_INVALID: ", e)),
        Ok(_) => Ok(()),
    }
}

/// The verdict on the bytes of a verifying key: what decoding them gave, and how many of them it
/// took.
pub fn deserialize_vk_bytes(vk_len: usize, decoded: &Result<usize, String>) -> (r: Result<(), String>)
    ensures
        r is Ok <==> 0 < vk_len <= MAX_VK_BYTES && *decoded == Ok::<usize, String>(vk_len),
        !(0 < vk_len <= MAX_VK_BYTES) ==> r is Err && r->Err_0@
            == "DTV_INVALID_VK: full VK size is outside the release limit"@,
        0 < vk_len <= MAX_VK_BYTES && *decoded is Err ==> r is Err && r->Err_0@
            == "DTV_INVALID_VK: expected full DTVerifyingKey: "@ + decoded->Err_0@,
        0 < vk_len <= MAX_VK_BYTES && *decoded is Ok && decoded->Ok_0 != vk_len ==> r is Err
            && r->Err_0@ == "DTV_INVALID_VK: trailing bytes"@,
{
    if vk_len == 0 || vk_len > MAX_VK_BYTES {
        return Err(
            String::from_str("DTV_INVALID_VK: full VK size is outside the release limit"),
        );
    }
    match decoded {
        Err(e) => Err(prefixed("DTV_INVALID_VK: expected full DTVerifyingKey: ", e)),
        Ok(taken) => if *taken != vk_len {
            Err(String::from_str("DTV_INVALID_VK: trailing bytes"))
        } else {
            Ok(())
        },
    }
}

/// What the checks of a proof against its key gave, in the order in which they are made.
pub struct Checks {
    /// The identity of the key is canonical.
    pub identity: Outcome,
    /// The boundary of the program is canonical.
    pub boundary: Outcome,
    /// The owners in the key are registered.
    pub owners: Outcome,
    /// The root proof holds for the statement of the key.
    pub root: Outcome,
}

/// The reason for which a proof is refused, if any.
pub open spec fn refusal(c: Checks) -> Option<Seq<char>> {
    match (c.identity, c.boundary, c.owners, c.root) {
        (Err(e), _, _, _) => Some("DTV_INVALID_VK: "@ + e@),
        (_, Err(e), _, _) => Some("DTV_INVALID_VK: "@ + e@),
        (_, _, Err(e), _) => Some("DTV_INVALID_VK: "@ + e@),
        (_, _, _, Err(e)) => Some("DTV_PROOF_INVALID: "@ + e@),
        _ => None,
    }
}

/// The verdict on a proof and its key. The key is checked before the proof.
pub fn verify_compressed(checks: &Checks) -> (r: Result<(), String>)
    ensures
        match refusal(*checks) {
            Some(text) => r is Err && r->Err_0@ == text,
            None => r is Ok,
        },
{
    match &checks.identity {
        Err(e) => {
            return Err(prefixed("DTV_INVALID_VK: ", e));
        },
        Ok(_) => {},
    }
    match &checks.boundary {
        Err(e) => {
            return Err(prefixed("DTV_INVALID_VK: ", e));
        },
        Ok(_) => {},
    }
    match &checks.owners {
        Err(e) => {
            return Err(prefixed("DTV_INVALID_VK: ", e));
        },
        Ok(_) => {},
    }
    match &checks.root {
        Err(e) => Err(prefixed("DTV_PROOF_INVALID: ", e)),
        Ok(_) => Ok(()),
    }
}

/// The verdict on the bytes of a proof and of its key: the lengths come first, then the verifier's
/// artifact, the proof's bytes, the key's bytes, and the checks.
pub fn verify_compressed_bytes(
    proof_bytes: &[u8],
    vk_bytes: &[u8],
    verifier: &Outcome,
    decoded: &Outcome,
    vk: &Result<usize, String>,
    checks: &Checks,
) -> (r: Result<(), String>)
    ensures
        ({
            let lengths = 0 < proof_bytes@.len() <= MAX_PROOF_BYTES && 0 < vk_bytes@.len()
                <= MAX_VK_BYTES;
            let key = *vk == Ok::<usize, String>(vk_bytes@.len() as usize);
            &&& r is Ok <==> lengths && *verifier is Ok && *decoded is Ok && key && refusal(*checks)
                is None
            &&& !lengths ==> r->Err_0@ == (if proof_bytes@.len() == 0 || vk_bytes@.len() == 0 {
                "DTV_EMPTY_INPUT: proof and full VK are required"@
            } else {
                "DTV_INPUT_TOO_LARGE: proof limit=4194304, VK limit=1048576"@
            })
            &&& lengths && *verifier is Err ==> r->Err_0@ == verifier->Err_0@
            &&& lengths && *verifier is Ok && *decoded is Err ==> r->Err_0@
                == "DTV_MALFORMED_PROOF: "@ + decoded->Err_0@
            &&& lengths && *verifier is Ok && *decoded is Ok && !key ==> r->Err_0@ == (match *vk {
                Err(e) => "DTV_INVALID_VK: expected full DTVerifyingKey: "@ + e@,
                Ok(_) => "DTV_INVALID_VK: trailing bytes"@,
            })
            &&& lengths && *verifier is Ok && *decoded is Ok && key && refusal(*checks) is Some
                ==> r->Err_0@ == refusal(*checks)->0
        }),
{
    match validate_input_lengths(proof_bytes.len(), vk_bytes.len()) {
        Err(e) => {
            return Err(e);
        },
        Ok(_) => {},
    }
    match verifier {
        Err(e) => {
            return Err(String::from_str(e.as_str()));
        },
        Ok(_) => {},
    }
    match decoded {
        Err(e) => {
            return Err(prefixed("DTV_MALFORMED_PROOF: ", e));
        },
        Ok(_) => {},
    }
    match deserialize_vk_bytes(vk_bytes.len(), vk) {
        Err(e) => {
            return Err(e);
        },
        Ok(_) => {},
    }
    verify_compressed(checks)
}

/// Law: a proof is accepted exactly where every check passed. The first check that failed is reported,
/// those of the key before that of the proof.
pub proof fn law_refusal(c: Checks)
    ensures
        refusal(c) is None <==> c.identity is Ok && c.boundary is Ok && c.owners is Ok
            && c.root is Ok,
        c.identity is Err ==> refusal(c) == Some("DTV_INVALID_VK: "@ + c.identity->Err_0@),
        c.identity is Ok && c.boundary is Err ==> refusal(c) == Some(
            "DTV_INVALID_VK: "@ + c.boundary->Err_0@,
        ),
        c.identity is Ok && c.boundary is Ok && c.owners is Err ==> refusal(c) == Some(
            "DTV_INVALID_VK: "@ + c.owners->Err_0@,
        ),
        c.identity is Ok && c.boundary is Ok && c.owners is Ok && c.root is Err ==> refusal(c)
            == Some("DTV_PROOF_INVALID: "@ + c.root->Err_0@),
{
}

} // verus!
