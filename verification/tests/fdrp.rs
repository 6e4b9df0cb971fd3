use fdrp::accum::AssociatedReads;
use fdrp::driver::compute;
use fdrp::read::{CpGCall, CpGPosition, ReadRecord};

fn read(tid: i32, mapq: u8, start: i32, end: i32, calls: &[(i32, bool)]) -> ReadRecord {
    let cpgs: Vec<CpGCall> = calls.iter().map(|&(pos, methylated)| CpGCall { pos, methylated }).collect();
    ReadRecord { tid, mapq, start, end, cpgs }
}

fn site(tid: i32, pos: i32) -> CpGPosition {
    CpGPosition { tid, pos }
}

#[test]
fn test1() {
    let _input = "tests/test1.bam";
}

#[test]
fn encoding_window_bits() {
    // span exactly [anchor - 5, anchor + 5], one call at the anchor and
    // one three bases downstream
    let anchor: i32 = 1000;
    let mut acc = AssociatedReads::new(site(0, anchor), 10);
    let r = read(0, 60, anchor - 5, anchor + 5, &[(anchor, true), (anchor + 3, false)]);
    acc.add_read(&r);
    assert_eq!(acc.reads.len(), 1);
    let w = &acc.reads[0];
    assert_eq!(w.len(), 103);
    for k in 0..103usize {
        let expected: u8 = if k == 51 {
            7 // covered, CpG call, methylated
        } else if k == 54 {
            3 // covered, CpG call, unmethylated
        } else if (46..=56).contains(&k) {
            1 // covered only
        } else {
            0 // outside the read
        };
        assert_eq!(w[k], expected, "cell {}", k);
    }
}

#[test]
fn relative_position_is_window_cell() {
    let acc = AssociatedReads::new(site(0, 500), 4);
    assert_eq!(acc.get_relative_position(site(0, 500)), 51);
    assert_eq!(acc.get_relative_position(site(0, 503)), 54);
    assert_eq!(acc.get_relative_position(site(0, 449)), 0);
    assert_eq!(acc.get_relative_position(site(0, 551)), 102);
}

#[test]
fn discordance_opposite_states() {
    // identical coverage, opposite methylation at the shared site
    let mut acc = AssociatedReads::new(site(0, 200), 10);
    acc.add_read(&read(0, 60, 190, 210, &[(200, true)]));
    acc.add_read(&read(0, 60, 190, 210, &[(200, false)]));
    assert!(acc.is_discordant(0, 1));
}

#[test]
fn discordance_identical_states() {
    // identical methylation at every shared call, different coverage
    // elsewhere: not discordant
    let mut acc = AssociatedReads::new(site(0, 200), 10);
    acc.add_read(&read(0, 60, 180, 210, &[(200, true)]));
    acc.add_read(&read(0, 60, 195, 240, &[(200, true)]));
    assert!(!acc.is_discordant(0, 1));
}

#[test]
fn overlap_count_and_filter() {
    // spans [100, 110] and [107, 117] share exactly 4 covered positions,
    // with a discordant call at 107
    let mut acc = AssociatedReads::new(site(0, 107), 10);
    acc.add_read(&read(0, 60, 100, 110, &[(107, true)]));
    acc.add_read(&read(0, 60, 107, 117, &[(107, false)]));
    assert_eq!(acc.get_num_overlap_bases(0, 1), 4);
    assert!(acc.is_discordant(0, 1));
    // a shared coverage of exactly min_overlap - 1 contributes to the
    // denominator but never to the numerator
    let below = acc.compute_fdrp(5);
    assert_eq!(below.discordant, 0);
    assert_eq!(below.pairs, 1);
    // at the threshold the same pair is counted
    let at = acc.compute_fdrp(4);
    assert_eq!(at.discordant, 1);
    assert_eq!(at.pairs, 1);
}

#[test]
fn pair_total_and_score_range() {
    let mut acc = AssociatedReads::new(site(0, 300), 10);
    for i in 0..4 {
        acc.add_read(&read(0, 60, 290, 310, &[(300, i % 2 == 0)]));
    }
    let score = acc.compute_fdrp(1);
    // denominator is m * (m - 1) / 2 over the retained reads
    assert_eq!(score.pairs, 4 * 3 / 2);
    assert!(score.discordant <= score.pairs);
    let fdrp = score.discordant as f32 / score.pairs as f32;
    assert!((0.0..=1.0).contains(&fdrp));
}

#[test]
fn end_to_end_two_thirds() {
    // three mutually overlapping reads at one site: two methylated, one
    // not; 2 of the 3 pairs are discordant
    let reads = vec![
        read(0, 60, 95, 105, &[(100, true)]),
        read(0, 60, 95, 105, &[(100, true)]),
        read(0, 60, 95, 105, &[(100, false)]),
    ];
    let result = compute(&reads, 0, 10, 1, &None);
    assert_eq!(result.len(), 1);
    assert_eq!(result[0].site, site(0, 100));
    assert_eq!(result[0].score.discordant, 2);
    assert_eq!(result[0].score.pairs, 3);
    let fdrp = result[0].score.discordant as f32 / result[0].score.pairs as f32;
    assert_eq!((fdrp * 1000.0).round() / 1000.0, 0.667);
}

#[test]
fn quality_filter_skips_whole_read() {
    let reads = vec![
        read(0, 5, 95, 105, &[(100, true)]),
        read(0, 60, 95, 105, &[(100, false)]),
    ];
    let result = compute(&reads, 10, 10, 1, &None);
    assert_eq!(result.len(), 1);
    assert_eq!(result[0].score.pairs, 0);
}

#[test]
fn degenerate_site_reports_zero_pairs() {
    // a site with a single retained read is reported with pairs == 0
    // rather than a quotient; the caller decides how to render it
    let reads = vec![read(0, 60, 95, 105, &[(100, true)])];
    let result = compute(&reads, 0, 10, 1, &None);
    assert_eq!(result.len(), 1);
    assert_eq!(result[0].score.discordant, 0);
    assert_eq!(result[0].score.pairs, 0);
}

#[test]
fn result_follows_site_order() {
    let reads = vec![
        read(1, 60, 95, 105, &[(100, true)]),
        read(0, 60, 295, 305, &[(300, true)]),
        read(0, 60, 95, 105, &[(100, true), (103, false)]),
    ];
    let result = compute(&reads, 0, 10, 1, &None);
    let sites: Vec<CpGPosition> = result.iter().map(|e| e.site).collect();
    assert_eq!(sites, vec![site(0, 100), site(0, 103), site(0, 300), site(1, 100)]);
}

#[test]
fn restricted_mode_suppresses_excluded_calls() {
    // both reads call the excluded site 103 with opposite states and the
    // target site 105 with the same state
    let reads = vec![
        read(0, 60, 95, 115, &[(103, true), (105, true)]),
        read(0, 60, 95, 115, &[(103, false), (105, true)]),
    ];
    // full mode: the disagreement at 103 registers at both sites
    let full = compute(&reads, 0, 10, 1, &None);
    assert_eq!(full.len(), 2);
    assert_eq!(full[0].site, site(0, 103));
    assert_eq!(full[0].score.discordant, 1);
    assert_eq!(full[1].site, site(0, 105));
    assert_eq!(full[1].score.discordant, 1);
    // restricted mode: the call at 103 is suppressed before routing, so
    // only the target site is scored and no discordance can register
    // against the excluded call
    let targets = Some(vec![site(0, 105)]);
    let restricted = compute(&reads, 0, 10, 1, &targets);
    assert_eq!(restricted.len(), 1);
    assert_eq!(restricted[0].site, site(0, 105));
    assert_eq!(restricted[0].score.discordant, 0);
    assert_eq!(restricted[0].score.pairs, 1);
}

#[test]
fn reservoir_keeps_min_of_count_and_cap() {
    let mut acc = AssociatedReads::new(site(0, 400), 10);
    for i in 0..40 {
        acc.add_read(&read(0, 60, 390, 410, &[(400, i % 2 == 0)]));
    }
    assert_eq!(acc.get_num_reads(), 10);
    assert_eq!(acc.num_total_read, 40);
    // every retained window is the encoding of one of the fed reads
    for w in acc.reads.iter() {
        assert_eq!(w.len(), 103);
        assert!(w[51] == 7 || w[51] == 3);
    }
}

#[test]
fn reservoir_is_uniform_under_injected_draws() {
    // K reads, cap d < K, many trials with a deterministic source: each
    // read's retention frequency converges to d / K
    let k_reads: usize = 5;
    let depth: usize = 2;
    let trials: usize = 20000;
    let mut kept = [0usize; 5];
    let mut state: u64 = 0x853c_49e6_748f_ea9b;
    for _ in 0..trials {
        let mut acc = AssociatedReads::new(site(0, 700), depth);
        for r in 0..k_reads {
            let mut w = vec![0u8; 103];
            w[0] = r as u8;
            let n: u64 = r as u64 + 1;
            state = state.wrapping_mul(6364136223846793005).wrapping_add(1442695040888963407);
            let j = ((state >> 33) % n) as i32 + 1;
            acc.reservoir_step(w, j);
        }
        assert_eq!(acc.get_num_reads(), depth);
        for w in acc.reads.iter() {
            kept[w[0] as usize] += 1;
        }
    }
    let expected = depth as f64 / k_reads as f64;
    for r in 0..k_reads {
        let freq = kept[r] as f64 / trials as f64;
        assert!(
            (freq - expected).abs() < 0.02,
            "read {} retained with frequency {}",
            r,
            freq
        );
    }
}

#[test]
fn filter_isin_keeps_only_targets() {
    let mut r = read(0, 60, 95, 115, &[(100, true), (103, false), (105, true)]);
    // a target on another chromosome must not match
    r.filter_isin(&vec![site(0, 100), site(0, 105), site(1, 103)]);
    let kept: Vec<(i32, bool)> = r.cpgs.iter().map(|c| (c.pos, c.methylated)).collect();
    assert_eq!(kept, vec![(100, true), (105, true)]);
    assert_eq!(r.start, 95);
    assert_eq!(r.end, 115);
}

#[test]
fn overlap_counts_full_shared_span() {
    let mut acc = AssociatedReads::new(site(0, 200), 10);
    acc.add_read(&read(0, 60, 190, 210, &[(200, true)]));
    acc.add_read(&read(0, 60, 190, 210, &[(200, true)]));
    assert_eq!(acc.get_num_overlap_bases(0, 1), 21);
}

#[test]
fn empty_stream_gives_empty_result() {
    let reads: Vec<ReadRecord> = Vec::new();
    let result = compute(&reads, 10, 10, 1, &None);
    assert!(result.is_empty());
}
