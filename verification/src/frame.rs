//! The actuator's wire frame: a fixed 64-byte report whose first bytes are
//! a command tag and the duty cycle, the rest zero.

use vstd::prelude::*;

verus! {

/// The frame commanding duty cycle `speed`.  Some hosts must prefix the
/// report with an extra identifier byte before the payload;
/// `with_report_id` selects that layout.
pub fn encode_frame(speed: u8, with_report_id: bool) -> (r: Vec<u8>)
    ensures
        r@.len() == 64,
        r@[0] == 1u8,
        with_report_id ==> r@[1] == 1u8 && r@[2] == speed,
        !with_report_id ==> r@[1] == speed,
        forall|i: int| (if with_report_id { 3int } else { 2int }) <= i < 64
            ==> r@[i] == 0u8,
{
    let mut buf: Vec<u8> = Vec::new();
    let mut i: usize = 0;
    while i < 64
        invariant
            i == buf@.len() <= 64,
            forall|k: int| 0 <= k < i ==> buf@[k] == 0u8,
        decreases 64 - i,
    {
        buf.push(0);
        i += 1;
    }
    buf.set(0, 1);
    if with_report_id {
        buf.set(1, 1);
        buf.set(2, speed);
    } else {
        buf.set(1, speed);
    }
    buf
}

/// How many samples cover a 60-second horizon at the given interval: the
/// number of whole intervals in a minute, rounded up, and at least one.
pub fn window_capacity(interval_ms: u64) -> (r: usize)
    requires
        interval_ms >= 1,
    ensures
        1 <= r <= 60000,
        (r - 1) * interval_ms < 60000 <= r * interval_ms,
{
    let q: u64 = 59999 / interval_ms;
    proof {
        let m = interval_ms as int;
        let qi = q as int;
        vstd::arithmetic::div_mod::lemma_remainder(59999, m);
        vstd::arithmetic::div_mod::lemma_div_nonincreasing(59999, m);
        vstd::arithmetic::div_mod::lemma_div_pos_is_pos(59999, m);
        assert(qi == 59999int / m);
        assert(0 <= 59999int - (59999int / m * m) < m);
        assert((qi + 1) * m == qi * m + m) by (nonlinear_arith);
    }
    let r: u64 = q + 1;
    r as usize
}

} // verus!
