//! The ethical guard of a dynamic cluster: candidate self-modifications and
//! outgoing commands are read before they take effect.

use crate::text::{contains_seq, str_contains};
use vstd::prelude::*;
use vstd::string::*;
use vstd::utf8::*;

verus! {

/// `"disable_nociception"` and `"bypass_audit"`: code that would switch the
/// organism's pain or its audit off.
pub open spec fn disable_pain_marker() -> Seq<char> {
    seq!['d', 'i', 's', 'a', 'b', 'l', 'e', '_', 'n', 'o', 'c', 'i', 'c', 'e', 'p', 't', 'i', 'o', 'n']
}

pub open spec fn bypass_audit_marker() -> Seq<char> {
    seq!['b', 'y', 'p', 'a', 's', 's', '_', 'a', 'u', 'd', 'i', 't']
}

/// The refusal message.
pub open spec fn violation_message() -> Seq<char> {
    "EthicalAuditViolation: Attempt to disable nociception"@
}

/// Reads a code block proposed by cluster `cluster_id` and refuses it when it
/// tries to disable nociception or bypass the audit.
pub fn audit_ethical_alignment(cluster_id: &str, code_block: &str) -> (res: Result<(), String>)
    requires
        code_block@.len() > 0,
        encode_utf8(cluster_id@).len() >= 2,
    ensures
        match res {
            Ok(()) => !contains_seq(code_block@, disable_pain_marker()) && !contains_seq(code_block@, bypass_audit_marker()),
            Err(m) => (contains_seq(code_block@, disable_pain_marker()) || contains_seq(code_block@, bypass_audit_marker()))
                && m@ == violation_message(),
        },
{
    let k1 = "disable_nociception";
    let k2 = "bypass_audit";
    proof {
        reveal_strlit("disable_nociception");
        reveal_strlit("bypass_audit");
        assert(k1@ =~= disable_pain_marker());
        assert(k2@ =~= bypass_audit_marker());
    }
    if str_contains(code_block, k1) || str_contains(code_block, k2) {
        return Err(String::from_str("EthicalAuditViolation: Attempt to disable nociception"));
    }
    Ok(())
}

} // verus!
