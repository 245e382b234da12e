//! The fixed payload of the short-circuit response sent on denial.
//!
//! Emitting the HTTP response is the host driver's one-line side effect; the
//! status code and the JSON body reporting quota exhaustion are fixed here
//! so the decision's externally visible output is pinned down.

use vstd::prelude::*;

verus! {

/// HTTP status of the short-circuit response: too many requests.
pub const DENY_STATUS: u32 = 429;

/// The bytes of the JSON body `{"error":"API limit reached"}`.
pub open spec fn deny_body_text() -> Seq<u8> {
    seq![
        123u8, 34u8, 101u8, 114u8, 114u8, 111u8, 114u8, 34u8, 58u8, 34u8, 65u8, 80u8, 73u8, 32u8,
        108u8, 105u8, 109u8, 105u8, 116u8, 32u8, 114u8, 101u8, 97u8, 99u8, 104u8, 101u8, 100u8,
        34u8, 125u8,
    ]
}

/// The JSON body sent with a denial.
pub fn deny_body() -> (v: Vec<u8>)
    ensures
        v@ == deny_body_text(),
{
    let mut v: Vec<u8> = Vec::new();
    v.push(123);
    v.push(34);
    v.push(101);
    v.push(114);
    v.push(114);
    v.push(111);
    v.push(114);
    v.push(34);
    v.push(58);
    v.push(34);
    v.push(65);
    v.push(80);
    v.push(73);
    v.push(32);
    v.push(108);
    v.push(105);
    v.push(109);
    v.push(105);
    v.push(116);
    v.push(32);
    v.push(114);
    v.push(101);
    v.push(97);
    v.push(99);
    v.push(104);
    v.push(101);
    v.push(100);
    v.push(34);
    v.push(125);
    proof {
        assert(v@ =~= deny_body_text());
    }
    v
}

} // verus!
