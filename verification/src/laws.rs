//! General properties of the encoder, the pair test and the score, stated
//! and proved once over all inputs.

use vstd::prelude::*;
use crate::read::{CpGPosition, ReadRecord, CpGCall, MAX_READ_LEN, WINDOW_LEN, has_call, meth_call,
    in_target_set, restricted_calls, lemma_restriction_suppresses};
use crate::window::{encoded_window, discordant_at, windows_discordant, num_overlap,
    pair_discordant};
use crate::accum::{discordant_pair_count, lemma_dc_upto_bounds};
use crate::driver::{read_window, effective_calls};

verus! {

/// The read behind this window covers cell `k`.
pub open spec fn w_covered(w: Seq<u8>, k: int) -> bool {
    w[k] & 1u8 == 1u8
}

/// The read behind this window carries a CpG call at cell `k`.
pub open spec fn w_call(w: Seq<u8>, k: int) -> bool {
    w[k] & 2u8 == 2u8
}

/// The read behind this window carries a methylated call at cell `k`.
pub open spec fn w_meth(w: Seq<u8>, k: int) -> bool {
    w[k] & 4u8 == 4u8
}

/// The three bits of a window code decode to exactly the coverage, call
/// and methylation facts of the read it was encoded from.
pub proof fn lemma_encoded_window_bits(start: int, end: int, calls: Seq<CpGCall>, a: int, k: int)
    requires
        0 <= k < WINDOW_LEN,
    ensures
        w_covered(encoded_window(start, end, calls, a), k) <==> (start <= a - MAX_READ_LEN + k
            <= end),
        w_call(encoded_window(start, end, calls, a), k) <==> has_call(
            calls,
            a - MAX_READ_LEN + k,
        ),
        w_meth(encoded_window(start, end, calls, a), k) <==> meth_call(
            calls,
            a - MAX_READ_LEN + k,
        ),
{
    let p = a - MAX_READ_LEN + k;
    let c: u8 = if start <= p <= end {
        1u8
    } else {
        0u8
    };
    let g: u8 = if has_call(calls, p) {
        2u8
    } else {
        0u8
    };
    let m: u8 = if meth_call(calls, p) {
        4u8
    } else {
        0u8
    };
    assert(encoded_window(start, end, calls, a)[k] == ((c + g + m) as u8));
    assert((c == 0u8 || c == 1u8) && (g == 0u8 || g == 2u8) && (m == 0u8 || m == 4u8)
        ==> ((((c + g + m) as u8) & 1u8 == 1u8) == (c == 1u8)) && ((((c + g + m) as u8) & 2u8
        == 2u8) == (g == 2u8)) && ((((c + g + m) as u8) & 4u8 == 4u8) == (m == 4u8)))
        by (bit_vector);
}

/// Two windows are discordant exactly when some cell carries a covered
/// CpG call in both and their methylation states differ: opposite states
/// at a shared call make the pair discordant, identical states at every
/// shared call leave it concordant, whatever the coverage elsewhere.
pub proof fn lemma_discordance_characterisation(w1: Seq<u8>, w2: Seq<u8>)
    ensures
        windows_discordant(w1, w2) <==> exists|k: int|
            0 <= k < WINDOW_LEN && (#[trigger] w_call(w1, k) && w_call(w2, k) && w_covered(w1, k)
                && w_covered(w2, k) && (w_meth(w1, k) != w_meth(w2, k))),
{
    assert forall|k: int| 0 <= k < WINDOW_LEN implies discordant_at(w1, w2, k) == (w_call(w1, k)
        && w_call(w2, k) && w_covered(w1, k) && w_covered(w2, k) && (w_meth(w1, k) != w_meth(
        w2,
        k,
    ))) by {
        let a = w1[k];
        let b = w2[k];
        assert(((a & b & 3u8 == 3u8) && ((a ^ b) & 4u8 != 0u8)) == ((a & 2u8 == 2u8) && (b & 2u8
            == 2u8) && (a & 1u8 == 1u8) && (b & 1u8 == 1u8) && ((a & 4u8 == 4u8) != (b & 4u8
            == 4u8)))) by (bit_vector);
    }
    if windows_discordant(w1, w2) {
        let k = choose|k: int| 0 <= k < WINDOW_LEN && discordant_at(w1, w2, k);
        assert(w_call(w1, k) && w_call(w2, k) && w_covered(w1, k) && w_covered(w2, k) && (w_meth(
            w1,
            k,
        ) != w_meth(w2, k)));
    }
    if exists|k: int|
        0 <= k < WINDOW_LEN && (#[trigger] w_call(w1, k) && w_call(w2, k) && w_covered(w1, k)
            && w_covered(w2, k) && (w_meth(w1, k) != w_meth(w2, k))) {
        let k = choose|k: int|
            0 <= k < WINDOW_LEN && (#[trigger] w_call(w1, k) && w_call(w2, k) && w_covered(w1, k)
                && w_covered(w2, k) && (w_meth(w1, k) != w_meth(w2, k)));
        assert(discordant_at(w1, w2, k));
    }
}

/// A pair whose shared coverage falls below the overlap threshold is
/// never counted discordant, even if its calls disagree; it still counts
/// toward the pair total, which the score's contract fixes at
/// `m * (m - 1) / 2` independently of the filter.
pub proof fn lemma_overlap_filter(w1: Seq<u8>, w2: Seq<u8>, min_overlap: int)
    requires
        num_overlap(w1, w2) < min_overlap,
    ensures
        !pair_discordant(w1, w2, min_overlap),
{
}

/// The discordant-pair count lies between zero and the number of
/// unordered pairs, so every score is a fraction in `[0, 1]` once the
/// division is carried out.
pub proof fn lemma_score_in_range(ws: Seq<Seq<u8>>, min_overlap: int)
    ensures
        0 <= discordant_pair_count(ws, min_overlap),
        2 * discordant_pair_count(ws, min_overlap) <= ws.len() * (ws.len() - 1),
{
    lemma_dc_upto_bounds(ws, ws.len() as int, min_overlap);
}

/// Restricted mode suppresses the call bit of every non-target site in
/// every window a read contributes, so a site excluded from the target
/// set can never witness discordance in any cell that stands for it.
pub proof fn lemma_restriction_suppresses_calls(
    r: ReadRecord,
    s: CpGPosition,
    targets: Seq<CpGPosition>,
    p: i32,
    k: int,
)
    requires
        !in_target_set(targets, r.tid, p),
        0 <= k < WINDOW_LEN,
        k == MAX_READ_LEN + (p as int - s.pos as int),
    ensures
        !w_call(read_window(r, s, Option::Some(targets)), k),
{
    lemma_restriction_suppresses(r.cpgs@, r.tid, targets, p);
    let calls = effective_calls(r, Option::Some(targets));
    assert(calls == restricted_calls(r.cpgs@, r.tid, targets));
    lemma_encoded_window_bits(r.start as int, r.end as int, calls, s.pos as int, k);
    assert(s.pos as int - MAX_READ_LEN + k == p as int);
}

} // verus!

