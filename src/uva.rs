//! The UVA judge: catalogue numbers and problem links.

use vstd::prelude::*;
use vstd::string::StringExecFns;
use crate::error::BotError;
use crate::text::{decimal, push_decimal};

verus! {

/// The distance between a catalogue number and the judge's internal number.
pub const UVA_OFFSET: u32 = 64;

pub open spec fn uva_base() -> Seq<char> {
    "https://onlinejudge.org/index.php?option=com_onlinejudge&Itemid=8&category=24&page=show_problem&problem="@
}

/// The judge's internal number for catalogue number `n`.
pub fn uva_internal_id(n: u32) -> (r: Result<u32, BotError>)
    ensures
        n < 64 ==> r == Err::<u32, BotError>(BotError::InvalidArgument),
        n >= 64 ==> r == Ok::<u32, BotError>((n - 64) as u32),
{
    if n < UVA_OFFSET {
        Err(BotError::InvalidArgument)
    } else {
        Ok(n - UVA_OFFSET)
    }
}

/// The link to the problem with internal number `id`.
pub fn uva_link(id: u32) -> (r: String)
    ensures
        r@ == uva_base() + decimal(id as nat),
{
    let mut out = String::from_str(
        "https://onlinejudge.org/index.php?option=com_onlinejudge&Itemid=8&category=24&page=show_problem&problem=",
    );
    push_decimal(&mut out, id as u64);
    out
}

/// The reply to the UVA command with catalogue number `n`.
pub fn uva_reply(n: u32) -> (r: Result<String, BotError>)
    ensures
        n < 64 ==> r == Err::<String, BotError>(BotError::InvalidArgument),
        n >= 64 ==> (r matches Ok(s) && s@ == uva_base() + decimal((n - 64) as nat)),
{
    match uva_internal_id(n) {
        Ok(id) => Ok(uva_link(id)),
        Err(e) => Err(e),
    }
}

} // verus!
