//! QUIC transport tuning shared by client and server.

use vstd::prelude::*;

use crate::text;

verus! {

/// Detected signature of the stream-reassembly guard of the QUIC stack. On a
/// lossy path a large receive window lets too many holes accumulate, and the
/// stack aborts the whole connection.
pub const GAP_SIGNATURE: &'static str = "too many gaps";

/// Connection-level receive window, in bytes.
pub const CONN_RECV_WINDOW: u32 = 33_554_432;

/// Bytes in flight without acknowledgement.
pub const SEND_WINDOW: u64 = 33_554_432;

/// Tuning hint to append when a QUIC connection dies from the reassembly
/// guard, so that the log line itself tells the operator what to change.
pub fn gap_hint(reason: &str) -> (r: &'static str)
    ensures
        r@ == gap_hint_spec(reason@),
{
    if text::contains_text(text::chars_of(reason).as_slice(), GAP_SIGNATURE) {
        " — weak-network tuning hint: lower --recv-window to 1..2 (MB) on the lossy side"
    } else {
        ""
    }
}

pub open spec fn gap_hint_spec(reason: Seq<char>) -> Seq<char> {
    if text::has_infix(reason, GAP_SIGNATURE@) {
        " — weak-network tuning hint: lower --recv-window to 1..2 (MB) on the lossy side"@
    } else {
        ""@
    }
}

/// A connection that was lost over too many gaps comes with a hint; any other
/// reason comes with none.
pub proof fn law_gaps_come_with_a_hint(a: Seq<char>, b: Seq<char>, reason: Seq<char>)
    ensures
        gap_hint_spec(a + "too many gaps"@ + b).len() > 0,
        gap_hint_spec(a + "too many gaps"@ + b)
            == " — weak-network tuning hint: lower --recv-window to 1..2 (MB) on the lossy side"@,
        reason.len() < 13 ==> gap_hint_spec(reason).len() == 0,
        CONN_RECV_WINDOW == 32 * 1024 * 1024,
        SEND_WINDOW == 32 * 1024 * 1024,
{
    reveal_strlit("too many gaps");
    reveal_strlit("");
    reveal_strlit(
        " — weak-network tuning hint: lower --recv-window to 1..2 (MB) on the lossy side",
    );
    let s = a + "too many gaps"@ + b;
    let n = a.len() as int;
    assert(s.subrange(n, n + 13) =~= "too many gaps"@);
}

} // verus!
