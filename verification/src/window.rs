//! The window encoder: a read's local methylation pattern, anchored on one
//! CpG site, as a fixed-width sequence of three-bit codes.

use vstd::prelude::*;
use crate::read::{CpGCall, MAX_READ_LEN, WINDOW_LEN, has_call, meth_call, valid_anchor, calls_sorted};

verus! {

/// The code of window cell `k` for a read `[start, end]` with the given
/// calls, anchored at `a`: cell `k` stands for the absolute position
/// `a - MAX_READ_LEN + k`; bit 0 marks coverage by the span, bit 1 a CpG
/// call, bit 2 a methylated call.
pub open spec fn window_code(start: int, end: int, calls: Seq<CpGCall>, a: int, k: int) -> u8 {
    let p = a - MAX_READ_LEN + k;
    ((if start <= p <= end {
        1u8
    } else {
        0u8
    }) + (if has_call(calls, p) {
        2u8
    } else {
        0u8
    }) + (if meth_call(calls, p) {
        4u8
    } else {
        0u8
    })) as u8
}

/// The whole encoded window of a read against anchor `a`.
pub open spec fn encoded_window(start: int, end: int, calls: Seq<CpGCall>, a: int) -> Seq<u8> {
    Seq::new(WINDOW_LEN as nat, |k: int| window_code(start, end, calls, a, k))
}

/// Like `has_call`, over the first `n` calls only.
pub open spec fn has_call_pre(calls: Seq<CpGCall>, n: int, p: int) -> bool {
    exists|i: int| 0 <= i < n && i < calls.len() && (#[trigger] calls[i]).pos == p
}

/// Like `meth_call`, over the first `n` calls only.
pub open spec fn meth_call_pre(calls: Seq<CpGCall>, n: int, p: int) -> bool {
    exists|i: int|
        0 <= i < n && i < calls.len() && (#[trigger] calls[i]).pos == p && calls[i].methylated
}

/// The code of cell `k` after the span and the first `n` calls have been
/// folded in.
pub open spec fn partial_code(start: int, end: int, calls: Seq<CpGCall>, a: int, n: int, k: int) -> u8 {
    let p = a - MAX_READ_LEN + k;
    ((if start <= p <= end {
        1u8
    } else {
        0u8
    }) + (if has_call_pre(calls, n, p) {
        2u8
    } else {
        0u8
    }) + (if meth_call_pre(calls, n, p) {
        4u8
    } else {
        0u8
    })) as u8
}

/// Encode a read against an anchor site: mark every covered cell, then OR
/// the call bit (and the methylation bit) into the cell of each call.
pub fn encode_window(start: i32, end: i32, calls: &Vec<CpGCall>, anchor: i32) -> (w: Vec<u8>)
    requires
        0 <= start <= end,
        end + MAX_READ_LEN + 2 <= i32::MAX,
        valid_anchor(start as int, end as int, anchor as int),
        calls_sorted(calls@),
        forall|i: int|
            0 <= i < calls@.len() ==> valid_anchor(
                start as int,
                end as int,
                (#[trigger] calls@[i]).pos as int,
            ),
    ensures
        w@ == encoded_window(start as int, end as int, calls@, anchor as int),
{
    let ghost cs = calls@;
    let mut w: Vec<u8> = Vec::new();
    let mut z: usize = 0;
    while z < WINDOW_LEN
        invariant
            0 <= z <= WINDOW_LEN,
            w@.len() == z,
            forall|t: int| 0 <= t < z ==> w@[t] == 0u8,
        decreases WINDOW_LEN - z,
    {
        w.push(0u8);
        z += 1;
    }

    let start_rel: i32 = MAX_READ_LEN + (start - anchor);
    let end_rel: i32 = MAX_READ_LEN + (end - anchor);
    let mut rel: i32 = start_rel;
    while rel <= end_rel
        invariant
            start_rel == MAX_READ_LEN + (start - anchor),
            end_rel == MAX_READ_LEN + (end - anchor),
            valid_anchor(start as int, end as int, anchor as int),
            start_rel <= rel <= end_rel + 1,
            0 <= start_rel,
            end_rel < WINDOW_LEN,
            w@.len() == WINDOW_LEN,
            forall|t: int|
                0 <= t < WINDOW_LEN ==> w@[t] == (if t < rel {
                    cover_code(start as int, end as int, anchor as int, t)
                } else {
                    0u8
                }),
        decreases end_rel + 1 - rel,
    {
        let v = w[rel as usize];
        proof {
            assert(v == 0u8);
            assert(0u8 | 1u8 == 1u8) by (bit_vector);
        }
        w[rel as usize] = v | 1;
        rel += 1;
    }

    proof {
        assert(forall|t: int|
            0 <= t < WINDOW_LEN ==> w@[t] == partial_code(
                start as int,
                end as int,
                cs,
                anchor as int,
                0,
                t,
            ));
    }

    let mut j: usize = 0;
    while j < calls.len()
        invariant
            calls@ == cs,
            0 <= j <= cs.len(),
            valid_anchor(start as int, end as int, anchor as int),
            calls_sorted(cs),
            forall|i: int|
                0 <= i < cs.len() ==> valid_anchor(
                    start as int,
                    end as int,
                    (#[trigger] cs[i]).pos as int,
                ),
            w@.len() == WINDOW_LEN,
            forall|t: int|
                0 <= t < WINDOW_LEN ==> w@[t] == partial_code(
                    start as int,
                    end as int,
                    cs,
                    anchor as int,
                    j as int,
                    t,
                ),
        decreases cs.len() - j,
    {
        let c = calls[j];
        let relc: i32 = MAX_READ_LEN + (c.pos - anchor);
        let idx = relc as usize;
        let ghost a = anchor as int;
        let ghost p = a - MAX_READ_LEN + idx as int;
        proof {
            assert(p == c.pos as int);
            // no earlier call sits at this position: calls are strictly sorted
            assert(!has_call_pre(cs, j as int, p));
            assert(w@[idx as int] == 1u8);
            assert(1u8 | 2u8 == 3u8) by (bit_vector);
            assert(3u8 | 4u8 == 7u8) by (bit_vector);
        }
        let mut v = w[idx];
        v = v | 2;
        if c.methylated {
            v = v | 4;
        }
        w[idx] = v;
        proof {
            assert forall|t: int| 0 <= t < WINDOW_LEN implies w@[t] == partial_code(
                start as int,
                end as int,
                cs,
                a,
                j as int + 1,
                t,
            ) by {
                let pt = a - MAX_READ_LEN + t;
                if t == idx as int {
                    assert(has_call_pre(cs, j as int + 1, pt));
                    if meth_call_pre(cs, j as int + 1, pt) {
                        let i = choose|i: int|
                            0 <= i < j as int + 1 && i < cs.len() && (#[trigger] cs[i]).pos == pt
                                && cs[i].methylated;
                        if i < j as int {
                            assert(cs[i].pos < cs[j as int].pos);
                            assert(false);
                        }
                        assert(cs[j as int].methylated);
                    }
                } else {
                    assert(pt != p);
                    if has_call_pre(cs, j as int + 1, pt) {
                        let i = choose|i: int|
                            0 <= i < j as int + 1 && i < cs.len() && (#[trigger] cs[i]).pos == pt;
                        assert(i < j as int);
                        assert(has_call_pre(cs, j as int, pt));
                    }
                    if meth_call_pre(cs, j as int + 1, pt) {
                        let i = choose|i: int|
                            0 <= i < j as int + 1 && i < cs.len() && (#[trigger] cs[i]).pos == pt
                                && cs[i].methylated;
                        assert(i < j as int);
                        assert(meth_call_pre(cs, j as int, pt));
                    }
                }
            }
        }
        j += 1;
    }

    proof {
        assert forall|t: int| 0 <= t < WINDOW_LEN implies w@[t] == window_code(
            start as int,
            end as int,
            cs,
            anchor as int,
            t,
        ) by {
            let pt = anchor as int - MAX_READ_LEN + t;
            assert(has_call_pre(cs, cs.len() as int, pt) == has_call(cs, pt));
            assert(meth_call_pre(cs, cs.len() as int, pt) == meth_call(cs, pt));
        }
        assert(w@ =~= encoded_window(start as int, end as int, cs, anchor as int));
    }
    w
}

/// The partial code with no calls folded in is the coverage bit alone.
pub open spec fn cover_code(start: int, end: int, a: int, k: int) -> u8 {
    if start <= a - MAX_READ_LEN + k <= end {
        1u8
    } else {
        0u8
    }
}

/// Both windows cover cell `k`.
pub open spec fn both_covered(w1: Seq<u8>, w2: Seq<u8>, k: int) -> bool {
    w1[k] & w2[k] & 1u8 == 1u8
}

/// Number of cells in `[0, n)` that both windows cover: the shared
/// coverage length of the pair.
pub open spec fn overlap_upto(w1: Seq<u8>, w2: Seq<u8>, n: int) -> int
    decreases n,
{
    if n <= 0 {
        0
    } else {
        overlap_upto(w1, w2, n - 1) + if both_covered(w1, w2, n - 1) {
            1int
        } else {
            0int
        }
    }
}

/// Shared coverage length over the whole window.
pub open spec fn num_overlap(w1: Seq<u8>, w2: Seq<u8>) -> int {
    overlap_upto(w1, w2, WINDOW_LEN as int)
}

/// Cell `k` witnesses discordance: both windows carry a covered CpG call
/// there and their methylation bits differ.
pub open spec fn discordant_at(w1: Seq<u8>, w2: Seq<u8>, k: int) -> bool {
    &&& w1[k] & w2[k] & 3u8 == 3u8
    &&& (w1[k] ^ w2[k]) & 4u8 != 0u8
}

/// The two windows disagree at some shared covered CpG call.
pub open spec fn windows_discordant(w1: Seq<u8>, w2: Seq<u8>) -> bool {
    exists|k: int| 0 <= k < WINDOW_LEN && discordant_at(w1, w2, k)
}

/// The pair passes the overlap filter and is discordant: only such pairs
/// are counted in the numerator of the score.
pub open spec fn pair_discordant(w1: Seq<u8>, w2: Seq<u8>, min_overlap: int) -> bool {
    num_overlap(w1, w2) >= min_overlap && windows_discordant(w1, w2)
}

} // verus!
