//! The per-site reservoir accumulator and the pairwise discordance engine.

use vstd::prelude::*;
use rand::Rng;
use crate::read::{CpGPosition, ReadRecord, MAX_READ_LEN, WINDOW_LEN, valid_read, valid_anchor};
use crate::window::{encoded_window, encode_window, num_overlap, overlap_upto, both_covered,
    discordant_at, windows_discordant, pair_discordant};

verus! {

/// The number of windows a reservoir retains after `n` reads with cap `d`.
pub open spec fn retained_cap(n: int, d: int) -> int {
    if n <= d {
        n
    } else {
        d
    }
}

/// The views of a sequence of retained windows.
pub open spec fn window_views(s: Seq<Vec<u8>>) -> Seq<Seq<u8>> {
    s.map_values(|v: Vec<u8>| v@)
}

/// The window appears among the observed windows.
pub open spec fn in_observed(obs: Seq<Seq<u8>>, w: Seq<u8>) -> bool {
    exists|h: int| 0 <= h < obs.len() && #[trigger] obs[h] == w
}

/// A site's score as exact pair counts.  The fraction of discordant read
/// pairs is `discordant / pairs`; the division is left to the caller, so a
/// degenerate site (fewer than two retained reads) is reported with
/// `pairs == 0` rather than a quotient of zero by zero.
#[derive(Clone, Copy, PartialEq, Eq, Structural, Debug)]
pub struct FdrpScore {
    pub discordant: u64,
    pub pairs: u64,
}

/// Discordant pairs `(i, t)` with `i < t < j`, the first component fixed.
pub open spec fn row_dc(ws: Seq<Seq<u8>>, i: int, j: int, min_overlap: int) -> int
    decreases j - i,
{
    if j <= i + 1 {
        0
    } else {
        row_dc(ws, i, j - 1, min_overlap) + if pair_discordant(ws[i], ws[j - 1], min_overlap) {
            1int
        } else {
            0int
        }
    }
}

/// Discordant pairs `(a, b)` with `a < b < ws.len()` and `a < i`.
pub open spec fn dc_upto(ws: Seq<Seq<u8>>, i: int, min_overlap: int) -> int
    decreases i,
{
    if i <= 0 {
        0
    } else {
        dc_upto(ws, i - 1, min_overlap) + row_dc(ws, i - 1, ws.len() as int, min_overlap)
    }
}

/// The number of unordered window pairs that pass the overlap filter and
/// are discordant.
pub open spec fn discordant_pair_count(ws: Seq<Seq<u8>>, min_overlap: int) -> int {
    dc_upto(ws, ws.len() as int, min_overlap)
}

/// A row counts at most one pair per second component.
pub proof fn lemma_row_dc_bounds(ws: Seq<Seq<u8>>, i: int, j: int, min_overlap: int)
    ensures
        0 <= row_dc(ws, i, j, min_overlap),
        j > i + 1 ==> row_dc(ws, i, j, min_overlap) <= j - i - 1,
    decreases j - i,
{
    if j > i + 1 {
        lemma_row_dc_bounds(ws, i, j - 1, min_overlap);
    }
}

/// The pair count up to `i` is bounded by the triangle sum.
pub proof fn lemma_dc_upto_bounds(ws: Seq<Seq<u8>>, i: int, min_overlap: int)
    requires
        0 <= i <= ws.len(),
    ensures
        0 <= dc_upto(ws, i, min_overlap),
        2 * dc_upto(ws, i, min_overlap) <= i * (2 * ws.len() - i - 1),
    decreases i,
{
    let len = ws.len() as int;
    if i > 0 {
        lemma_dc_upto_bounds(ws, i - 1, min_overlap);
        lemma_row_dc_bounds(ws, i - 1, len, min_overlap);
        assert(2 * dc_upto(ws, i, min_overlap) <= i * (2 * len - i - 1)) by (nonlinear_arith)
            requires
                2 * dc_upto(ws, i - 1, min_overlap) <= (i - 1) * (2 * len - i),
                row_dc(ws, i - 1, len, min_overlap) <= if len > i {
                    len - i
                } else {
                    0int
                },
                0 <= row_dc(ws, i - 1, len, min_overlap),
                dc_upto(ws, i, min_overlap) == dc_upto(ws, i - 1, min_overlap) + row_dc(
                    ws,
                    i - 1,
                    len,
                    min_overlap,
                ),
                0 < i <= len,
        {}
    }
}

/// The product of two consecutive integers is even.
pub proof fn lemma_consecutive_even(m: int)
    requires
        m >= 0,
    ensures
        (m * (m - 1)) % 2 == 0,
    decreases m,
{
    if m == 0 {
        assert(m * (m - 1) == 0) by (nonlinear_arith)
            requires
                m == 0,
        {}
    } else {
        lemma_consecutive_even(m - 1);
        assert(m * (m - 1) == (m - 1) * (m - 2) + 2 * (m - 1)) by (nonlinear_arith);
        assert(((m - 1) * (m - 2) + 2 * (m - 1)) % 2 == ((m - 1) * (m - 2)) % 2) by (nonlinear_arith);
    }
}

/// Relies on rand::thread_rng and Rng::gen_range: a draw from the
/// nonempty integer range `1..=n`; every outcome lies in that range.
#[verifier::external_body]
fn draw_uniform(n: i32) -> (j: i32)
    requires
        1 <= n < i32::MAX,
    ensures
        1 <= j <= n,
{
    rand::thread_rng().gen_range(1..n + 1)
}

/// All reads routed to one CpG site: the anchor, a bounded uniform sample
/// of their encoded windows, and the count of every read ever seen.
pub struct AssociatedReads {
    pub pos: CpGPosition,
    pub reads: Vec<Vec<u8>>,
    pub num_total_read: i32,
    pub max_depth: usize,
    /// Every window ever handed to the reservoir, in arrival order.
    pub observed: Ghost<Seq<Seq<u8>>>,
}

impl AssociatedReads {
    /// The accumulator's invariant: the retained set has exactly
    /// `min(num_total_read, max_depth)` windows of the fixed width, each of
    /// them one of the observed windows; while nothing has been evicted the
    /// retained windows are the observed ones in order.
    pub open spec fn wf(self) -> bool {
        &&& 0 <= self.num_total_read
        &&& self.observed@.len() == self.num_total_read as int
        &&& self.reads@.len() == retained_cap(self.num_total_read as int, self.max_depth as int)
        &&& forall|h: int|
            0 <= h < self.observed@.len() ==> (#[trigger] self.observed@[h]).len() == WINDOW_LEN
        &&& forall|i: int|
            0 <= i < self.reads@.len() ==> in_observed(self.observed@, (#[trigger] self.reads@[i])@)
        &&& (self.num_total_read as int <= self.max_depth as int ==> window_views(self.reads@)
            == self.observed@)
    }

    /// A fresh accumulator for one site: nothing seen, nothing retained.
    pub fn new(pos: CpGPosition, max_depth: usize) -> (r: Self)
        ensures
            r.pos == pos,
            r.max_depth == max_depth,
            r.num_total_read == 0,
            r.reads@.len() == 0,
            r.observed@ == Seq::<Seq<u8>>::empty(),
            r.wf(),
    {
        let reads: Vec<Vec<u8>> = Vec::new();
        let num_total_read: i32 = 0;
        proof {
            assert(window_views(Seq::<Vec<u8>>::empty()) =~= Seq::<Seq<u8>>::empty());
        }
        Self { pos, reads, num_total_read, max_depth, observed: Ghost(Seq::empty()) }
    }

    /// The window cell standing for another site's position.
    pub fn get_relative_position(&self, other_pos: CpGPosition) -> (r: usize)
        requires
            -(MAX_READ_LEN as int) <= other_pos.pos as int - self.pos.pos as int
                <= MAX_READ_LEN as int,
        ensures
            r as int == MAX_READ_LEN + (other_pos.pos as int - self.pos.pos as int),
    {
        (MAX_READ_LEN + (other_pos.pos - self.pos.pos)) as usize
    }

    /// How many reads are currently retained: `min(n, max_depth)`, not the
    /// total observed count.
    pub fn get_num_reads(&self) -> (r: usize)
        requires
            self.wf(),
        ensures
            r as int == retained_cap(self.num_total_read as int, self.max_depth as int),
    {
        self.reads.len()
    }

    /// One reservoir-sampling step with the draw `j` passed in: the first
    /// `max_depth` windows are kept unconditionally; later ones replace
    /// slot `j - 1` when `j` lands within the cap and are dropped
    /// otherwise.  Injectable `j` makes the sampling source substitutable.
    pub fn reservoir_step(&mut self, w: Vec<u8>, j: i32)
        requires
            old(self).wf(),
            w@.len() == WINDOW_LEN,
            old(self).num_total_read < i32::MAX,
            1 <= j,
        ensures
            final(self).pos == old(self).pos,
            final(self).max_depth == old(self).max_depth,
            final(self).num_total_read == old(self).num_total_read + 1,
            final(self).observed@ == old(self).observed@.push(w@),
            final(self).wf(),
            (old(self).num_total_read as int) < old(self).max_depth as int ==> final(self).reads@
                == old(self).reads@.push(w),
            old(self).num_total_read as int >= old(self).max_depth as int && j as int <= old(
                self,
            ).max_depth as int ==> final(self).reads@ == old(self).reads@.update(j - 1, w),
            old(self).num_total_read as int >= old(self).max_depth as int && j as int > old(
                self,
            ).max_depth as int ==> final(self).reads@ == old(self).reads@,
    {
        proof {
            assert(self.num_total_read as usize as int == self.num_total_read as int);
        }
        self.observed = Ghost(self.observed@.push(w@));
        if (self.num_total_read as usize) < self.max_depth {
            self.num_total_read = self.num_total_read + 1;
            let ghost wv = w@;
            self.reads.push(w);
            proof {
                assert(window_views(self.reads@) =~= window_views(old(self).reads@).push(wv));
                assert(window_views(old(self).reads@) == old(self).observed@);
                assert(window_views(self.reads@) =~= self.observed@);
            }
        } else {
            self.num_total_read = self.num_total_read + 1;
            if j as usize <= self.max_depth {
                let idx = (j - 1) as usize;
                let ghost wv = w@;
                self.reads[idx] = w;
                proof {
                    assert(window_views(self.reads@) =~= window_views(old(self).reads@).update(
                        idx as int,
                        wv,
                    ));
                }
            }
        }
        proof {
            assert forall|i: int| 0 <= i < self.reads@.len() implies in_observed(
                self.observed@,
                (#[trigger] self.reads@[i])@,
            ) by {
                if i < old(self).reads@.len() && self.reads@[i] == old(self).reads@[i] {
                    assert(in_observed(old(self).observed@, old(self).reads@[i]@));
                    let h = choose|h: int|
                        0 <= h < old(self).observed@.len() && #[trigger] old(self).observed@[h]
                            == old(self).reads@[i]@;
                    assert(self.observed@[h] == old(self).observed@[h]);
                } else {
                    assert(self.reads@[i]@ == w@);
                    assert(self.observed@[self.observed@.len() - 1] == w@);
                }
            }
        }
    }

    /// Route one read to this site: encode it against the anchor and run a
    /// reservoir step, drawing the replacement slot at random once the
    /// reservoir is full.
    pub fn add_read(&mut self, br: &ReadRecord)
        requires
            old(self).wf(),
            valid_read(*br),
            br.tid == old(self).pos.tid,
            valid_anchor(br.start as int, br.end as int, old(self).pos.pos as int),
            old(self).num_total_read < i32::MAX - 1,
        ensures
            final(self).pos == old(self).pos,
            final(self).max_depth == old(self).max_depth,
            final(self).num_total_read == old(self).num_total_read + 1,
            final(self).wf(),
            final(self).observed@ == old(self).observed@.push(
                encoded_window(br.start as int, br.end as int, br.cpgs@, old(self).pos.pos as int),
            ),
            (old(self).num_total_read as int) < old(self).max_depth as int ==> window_views(
                final(self).reads@,
            ) == window_views(old(self).reads@).push(
                encoded_window(br.start as int, br.end as int, br.cpgs@, old(self).pos.pos as int),
            ),
            old(self).num_total_read as int >= old(self).max_depth as int ==> (window_views(
                final(self).reads@,
            ) == window_views(old(self).reads@) || exists|t: int|
                0 <= t < old(self).max_depth as int && window_views(final(self).reads@)
                    == window_views(old(self).reads@).update(
                    t,
                    encoded_window(
                        br.start as int,
                        br.end as int,
                        br.cpgs@,
                        old(self).pos.pos as int,
                    ),
                )),
    {
        let w = encode_window(br.start, br.end, &br.cpgs, self.pos.pos);
        let n_new: i32 = self.num_total_read + 1;
        let j: i32 = if (n_new as usize) <= self.max_depth {
            1
        } else {
            draw_uniform(n_new)
        };
        let ghost wv = w@;
        self.reservoir_step(w, j);
        proof {
            if (old(self).num_total_read as int) < old(self).max_depth as int {
                assert(window_views(self.reads@) =~= window_views(old(self).reads@).push(wv));
            } else if j as int <= old(self).max_depth as int {
                assert(window_views(self.reads@) =~= window_views(old(self).reads@).update(
                    j - 1,
                    wv,
                ));
            }
        }
    }

    /// Shared coverage length of retained windows `i` and `j`: the number
    /// of cells both cover.
    pub fn get_num_overlap_bases(&self, i: usize, j: usize) -> (r: i32)
        requires
            self.wf(),
            i < self.reads@.len(),
            j < self.reads@.len(),
        ensures
            r as int == num_overlap(self.reads@[i as int]@, self.reads@[j as int]@),
            0 <= r <= WINDOW_LEN,
    {
        let r1 = &self.reads[i];
        let r2 = &self.reads[j];
        let ghost w1 = r1@;
        let ghost w2 = r2@;
        proof {
            // the retained windows are observed windows, so they have the
            // fixed width
            assert(in_observed(self.observed@, w1));
            assert(in_observed(self.observed@, w2));
        }
        let mut num_overlap_bases: i32 = 0;
        let mut p: usize = 0;
        while p < WINDOW_LEN
            invariant
                0 <= p <= WINDOW_LEN,
                r1@ == w1,
                r2@ == w2,
                w1.len() == WINDOW_LEN,
                w2.len() == WINDOW_LEN,
                num_overlap_bases as int == overlap_upto(w1, w2, p as int),
                0 <= num_overlap_bases <= p,
            decreases WINDOW_LEN - p,
        {
            let a = r1[p];
            let b = r2[p];
            let bit = a & b & 1;
            proof {
                assert(a & b & 1u8 == 0u8 || a & b & 1u8 == 1u8) by (bit_vector);
                assert((bit == 1u8) == both_covered(w1, w2, p as int));
            }
            num_overlap_bases += bit as i32;
            p += 1;
        }
        num_overlap_bases
    }

    /// Whether retained windows `i` and `j` disagree: somewhere both carry
    /// a covered CpG call and exactly one of them is methylated.
    pub fn is_discordant(&self, i: usize, j: usize) -> (r: bool)
        requires
            self.wf(),
            i < self.reads@.len(),
            j < self.reads@.len(),
        ensures
            r == windows_discordant(self.reads@[i as int]@, self.reads@[j as int]@),
    {
        let r1 = &self.reads[i];
        let r2 = &self.reads[j];
        let ghost w1 = r1@;
        let ghost w2 = r2@;
        proof {
            // the retained windows are observed windows, so they have the
            // fixed width
            assert(in_observed(self.observed@, w1));
            assert(in_observed(self.observed@, w2));
        }
        let mut p: usize = 0;
        while p < WINDOW_LEN
            invariant
                0 <= p <= WINDOW_LEN,
                i < self.reads@.len(),
                j < self.reads@.len(),
                w1 == self.reads@[i as int]@,
                w2 == self.reads@[j as int]@,
                r1@ == w1,
                r2@ == w2,
                w1.len() == WINDOW_LEN,
                w2.len() == WINDOW_LEN,
                forall|t: int| 0 <= t < p ==> !discordant_at(w1, w2, t),
            decreases WINDOW_LEN - p,
        {
            let a = r1[p];
            let b = r2[p];
            proof {
                assert(((((a ^ b) & 4u8) >> 2u8) == 1u8) == ((a ^ b) & 4u8 != 0u8)) by (bit_vector);
            }
            if (a & b) & 3 == 3 {
                if ((a ^ b) & 4) >> 2u8 == 1 {
                    proof {
                        assert(discordant_at(w1, w2, p as int));
                        assert(windows_discordant(w1, w2));
                        assert(w1 == self.reads@[i as int]@);
                        assert(w2 == self.reads@[j as int]@);
                    }
                    return true;
                }
            }
            p += 1;
        }
        false
    }

    /// The site score over the retained windows: the number of unordered
    /// pairs that pass the overlap filter and are discordant, over the
    /// number of all unordered pairs.  The overlap filter never shrinks
    /// the denominator: a pair below `min_overlap` is merely not counted
    /// discordant.
    pub fn compute_fdrp(&mut self, min_overlap: i32) -> (score: FdrpScore)
        requires
            old(self).wf(),
        ensures
            *final(self) == *old(self),
            score.discordant as int == discordant_pair_count(
                window_views(old(self).reads@),
                min_overlap as int,
            ),
            score.pairs as int == (old(self).reads@.len() * (old(self).reads@.len() - 1)) / 2,
            score.discordant <= score.pairs,
    {
        let ghost ws = window_views(self.reads@);
        let num_reads: usize = self.get_num_reads();
        proof {
            assert(ws.len() == num_reads as int);
            assert(num_reads as int <= self.num_total_read as int);
        }
        let mut disc: u64 = 0;
        let mut i: usize = 0;
        while i < num_reads
            invariant
                *self == *old(self),
                self.wf(),
                ws == window_views(self.reads@),
                num_reads as int == ws.len(),
                ws.len() <= 0x8000_0000,
                0 <= i <= num_reads,
                disc as int == dc_upto(ws, i as int, min_overlap as int),
                0 <= disc as int <= (i as int) * (ws.len() as int),
            decreases num_reads - i,
        {
            let mut j: usize = i + 1;
            proof {
                lemma_row_dc_bounds(ws, i as int, j as int, min_overlap as int);
            }
            while j < num_reads
                invariant
                    *self == *old(self),
                    self.wf(),
                    ws == window_views(self.reads@),
                    num_reads as int == ws.len(),
                    ws.len() <= 0x8000_0000,
                    0 <= i < num_reads,
                    i < j <= num_reads,
                    disc as int == dc_upto(ws, i as int, min_overlap as int) + row_dc(
                        ws,
                        i as int,
                        j as int,
                        min_overlap as int,
                    ),
                    0 <= disc as int <= (i as int) * (ws.len() as int) + (j as int),
                decreases num_reads - j,
            {
                let ghost wi = ws[i as int];
                let ghost wj = ws[j as int];
                let num_overlap_bases = self.get_num_overlap_bases(i, j);
                proof {
                    assert((i as int) * (ws.len() as int) + (j as int) + 1
                        < 0xffff_ffff_ffff_ffff) by (nonlinear_arith)
                        requires
                            0 <= i as int,
                            (i as int) < ws.len(),
                            0 <= j as int,
                            (j as int) < ws.len(),
                            ws.len() <= 0x8000_0000,
                    {}
                }
                if num_overlap_bases >= min_overlap {
                    if self.is_discordant(i, j) {
                        disc += 1;
                        proof {
                            assert(pair_discordant(wi, wj, min_overlap as int));
                        }
                    } else {
                        proof {
                            assert(!pair_discordant(wi, wj, min_overlap as int));
                        }
                    }
                } else {
                    proof {
                        assert(!pair_discordant(wi, wj, min_overlap as int));
                    }
                }
                j += 1;
            }
            proof {
                assert(((i as int) + 1) * (ws.len() as int) == (i as int) * (ws.len() as int)
                    + ws.len() as int) by (nonlinear_arith);
            }
            i += 1;
        }
        proof {
            assert(disc as int == discordant_pair_count(ws, min_overlap as int));
            lemma_dc_upto_bounds(ws, ws.len() as int, min_overlap as int);
            lemma_consecutive_even(ws.len() as int);
        }
        proof {
            let m = num_reads as int;
            assert(m * (m - 1) < 0x4000_0000_0000_0000) by (nonlinear_arith)
                requires
                    0 <= m <= 0x8000_0000,
            {}
        }
        let pairs: u64 = if num_reads < 2 {
            0
        } else {
            (num_reads as u64) * (num_reads as u64 - 1) / 2
        };
        proof {
            let m = ws.len() as int;
            if m < 2 {
                assert(m * (m - 1) / 2 == 0) by (nonlinear_arith)
                    requires
                        0 <= m < 2,
                {}
            } else {
                assert(2 * disc as int <= m * (m - 1));
                assert((m * (m - 1)) % 2 == 0);
                assert(pairs as int == m * (m - 1) / 2);
                assert(disc as int <= m * (m - 1) / 2) by (nonlinear_arith)
                    requires
                        2 * disc as int <= m * (m - 1),
                        (m * (m - 1)) % 2 == 0,
                {}
            }
        }
        FdrpScore { discordant: disc, pairs }
    }
}

} // verus!
