//! The aggregation driver: quality filtering, optional site restriction,
//! routing of each read to every site it calls, and the final sweep that
//! scores every touched site in genomic order.

use vstd::prelude::*;
use crate::read::{CpGPosition, CpGCall, ReadRecord, site_lt, valid_read, has_call,
    restricted_calls};
use crate::window::{encoded_window, has_call_pre};
use crate::accum::{AssociatedReads, FdrpScore, window_views, retained_cap, discordant_pair_count,
    in_observed};

verus! {

/// One entry of the result mapping: a site and its score.
#[derive(Clone, Copy, PartialEq, Eq, Structural, Debug)]
pub struct SiteScore {
    pub site: CpGPosition,
    pub score: FdrpScore,
}

/// The optional target set as an optional sequence.
pub open spec fn opt_targets(t: &Option<Vec<CpGPosition>>) -> Option<Seq<CpGPosition>> {
    match *t {
        Option::None => Option::None,
        Option::Some(v) => Option::Some(v@),
    }
}

/// The calls of `r` that take part: all of them in full mode, only the
/// target-set ones in restricted mode.
pub open spec fn effective_calls(r: ReadRecord, targets: Option<Seq<CpGPosition>>) -> Seq<CpGCall> {
    match targets {
        Option::None => r.cpgs@,
        Option::Some(ts) => restricted_calls(r.cpgs@, r.tid, ts),
    }
}

/// Read `r` is routed to site `s`: it passes the quality filter and its
/// effective calls include the site.
pub open spec fn routes_to(
    r: ReadRecord,
    s: CpGPosition,
    min_qual: u8,
    targets: Option<Seq<CpGPosition>>,
) -> bool {
    &&& r.mapq >= min_qual
    &&& r.tid == s.tid
    &&& has_call(effective_calls(r, targets), s.pos as int)
}

/// The window read `r` contributes to site `s`.
pub open spec fn read_window(
    r: ReadRecord,
    s: CpGPosition,
    targets: Option<Seq<CpGPosition>>,
) -> Seq<u8> {
    encoded_window(r.start as int, r.end as int, effective_calls(r, targets), s.pos as int)
}

/// The windows site `s` observes from the first `t` reads, in stream
/// order.
pub open spec fn site_windows(
    reads: Seq<ReadRecord>,
    t: int,
    s: CpGPosition,
    min_qual: u8,
    targets: Option<Seq<CpGPosition>>,
) -> Seq<Seq<u8>>
    decreases t,
{
    if t <= 0 {
        Seq::empty()
    } else {
        let prev = site_windows(reads, t - 1, s, min_qual, targets);
        if routes_to(reads[t - 1], s, min_qual, targets) {
            prev.push(read_window(reads[t - 1], s, targets))
        } else {
            prev
        }
    }
}

/// A site observes at most one window per read.
pub proof fn lemma_site_windows_len(
    reads: Seq<ReadRecord>,
    t: int,
    s: CpGPosition,
    min_qual: u8,
    targets: Option<Seq<CpGPosition>>,
)
    requires
        t >= 0,
    ensures
        0 <= site_windows(reads, t, s, min_qual, targets).len() <= t,
    decreases t,
{
    if t > 0 {
        lemma_site_windows_len(reads, t - 1, s, min_qual, targets);
    }
}

/// The accumulator map is strictly sorted by site.
pub open spec fn accs_sorted(accs: Seq<AssociatedReads>) -> bool {
    forall|i: int, j: int| 0 <= i < j < accs.len() ==> site_lt(accs[i].pos, accs[j].pos)
}

/// Some accumulator owns site `s`.
pub open spec fn has_acc(accs: Seq<AssociatedReads>, s: CpGPosition) -> bool {
    exists|i: int| 0 <= i < accs.len() && (#[trigger] accs[i]).pos == s
}

/// Index of the accumulator of `site`, creating a fresh one at its sorted
/// position when the site has none yet.
fn find_or_insert(accs: &mut Vec<AssociatedReads>, site: CpGPosition, max_depth: usize) -> (idx:
    usize)
    requires
        accs_sorted(old(accs)@),
    ensures
        accs_sorted(final(accs)@),
        idx < final(accs)@.len(),
        final(accs)@[idx as int].pos == site,
        has_acc(old(accs)@, site) ==> *final(accs) == *old(accs),
        !has_acc(old(accs)@, site) ==> {
            &&& idx <= old(accs)@.len()
            &&& final(accs)@.len() == old(accs)@.len() + 1
            &&& final(accs)@ == old(accs)@.insert(idx as int, final(accs)@[idx as int])
            &&& final(accs)@[idx as int].wf()
            &&& final(accs)@[idx as int].num_total_read == 0
            &&& final(accs)@[idx as int].observed@ == Seq::<Seq<u8>>::empty()
            &&& final(accs)@[idx as int].reads@.len() == 0
            &&& final(accs)@[idx as int].max_depth == max_depth
        },
    {
    let mut i: usize = 0;
    while i < accs.len()
        invariant
            0 <= i <= accs@.len(),
            *accs == *old(accs),
            accs_sorted(accs@),
            forall|k: int| 0 <= k < i ==> site_lt((#[trigger] accs@[k]).pos, site),
        ensures
            0 <= i <= accs@.len(),
            *accs == *old(accs),
            forall|k: int| 0 <= k < i ==> site_lt((#[trigger] accs@[k]).pos, site),
            i < accs@.len() ==> site_lt(site, accs@[i as int].pos),
        decreases accs@.len() - i,
    {
        let p = accs[i].pos;
        if p.tid == site.tid && p.pos == site.pos {
            return i;
        }
        if p.tid > site.tid || (p.tid == site.tid && p.pos > site.pos) {
            break;
        }
        i += 1;
    }
    proof {
        assert forall|k: int| i <= k < accs@.len() implies site_lt(
            site,
            (#[trigger] accs@[k]).pos,
        ) by {
            if k > i as int {
                assert(site_lt(accs@[i as int].pos, accs@[k].pos));
            }
        }
        if has_acc(accs@, site) {
            let k = choose|k: int| 0 <= k < accs@.len() && (#[trigger] accs@[k]).pos == site;
            assert(false);
        }
    }
    let fresh = AssociatedReads::new(site, max_depth);
    let ghost pre = accs@;
    accs.insert(i, fresh);
    proof {
        assert forall|a: int, b: int| 0 <= a < b < accs@.len() implies site_lt(
            accs@[a].pos,
            accs@[b].pos,
        ) by {
            if b < i as int {
                assert(accs@[a] == pre[a] && accs@[b] == pre[b]);
            } else if a > i as int {
                assert(accs@[a] == pre[a - 1] && accs@[b] == pre[b - 1]);
            } else if a == i as int {
                assert(accs@[b] == pre[b - 1]);
            } else if b == i as int {
                assert(accs@[a] == pre[a]);
            } else {
                assert(a < i as int && b > i as int);
                assert(accs@[a] == pre[a] && accs@[b] == pre[b - 1]);
            }
        }
    }
    i
}

/// An owned copy of the read with only its effective calls.
fn effective_record(r: &ReadRecord, target_sites: &Option<Vec<CpGPosition>>) -> (er: ReadRecord)
    requires
        valid_read(*r),
    ensures
        er.tid == r.tid,
        er.mapq == r.mapq,
        er.start == r.start,
        er.end == r.end,
        er.cpgs@ == effective_calls(*r, opt_targets(target_sites)),
        valid_read(er),
{
    let mut cp: Vec<CpGCall> = Vec::new();
    let mut i: usize = 0;
    while i < r.cpgs.len()
        invariant
            0 <= i <= r.cpgs@.len(),
            cp@ == r.cpgs@.take(i as int),
        decreases r.cpgs@.len() - i,
    {
        cp.push(r.cpgs[i]);
        proof {
            assert(cp@ =~= r.cpgs@.take(i as int + 1));
        }
        i += 1;
    }
    proof {
        assert(cp@ =~= r.cpgs@);
    }
    let mut er = ReadRecord { tid: r.tid, mapq: r.mapq, start: r.start, end: r.end, cpgs: cp };
    match target_sites {
        Option::Some(ts) => er.filter_isin(ts),
        Option::None => {},
    }
    er
}

/// Aggregate a stream of reads into per-site discordance scores.
///
/// Reads below `min_qual` are skipped entirely.  Every other read is
/// routed to each site among its effective calls (all calls in full mode,
/// the target-set ones in restricted mode), each site keeping at most
/// `max_depth` sampled windows.  At the end every site that observed at
/// least one read is scored, and the result lists the sites in strictly
/// increasing genomic order.  A site whose observed count stayed within
/// `max_depth` is scored exactly over all its windows; a site beyond the
/// cap is scored over a sample, so only the pair count and the bound
/// `discordant <= pairs` are promised for it.
pub fn compute(
    reads: &Vec<ReadRecord>,
    min_qual: u8,
    max_depth: usize,
    min_overlap: i32,
    target_sites: &Option<Vec<CpGPosition>>,
) -> (result: Vec<SiteScore>)
    requires
        forall|i: int| 0 <= i < reads@.len() ==> valid_read(#[trigger] reads@[i]),
        reads@.len() < 0x7fff_ffff,
    ensures
        forall|i: int, j: int|
            0 <= i < j < result@.len() ==> site_lt(
                (#[trigger] result@[i]).site,
                (#[trigger] result@[j]).site,
            ),
        forall|i: int|
            0 <= i < result@.len() ==> site_windows(
                reads@,
                reads@.len() as int,
                (#[trigger] result@[i]).site,
                min_qual,
                opt_targets(target_sites),
            ).len() > 0,
        forall|s: CpGPosition|
            #[trigger] site_windows(
                reads@,
                reads@.len() as int,
                s,
                min_qual,
                opt_targets(target_sites),
            ).len() > 0 ==> exists|i: int|
                0 <= i < result@.len() && (#[trigger] result@[i]).site == s,
        forall|i: int|
            0 <= i < result@.len() ==> {
                let ws = site_windows(
                    reads@,
                    reads@.len() as int,
                    (#[trigger] result@[i]).site,
                    min_qual,
                    opt_targets(target_sites),
                );
                let m = retained_cap(ws.len() as int, max_depth as int);
                &&& result@[i].score.pairs as int == (m * (m - 1)) / 2
                &&& result@[i].score.discordant <= result@[i].score.pairs
                &&& (ws.len() <= max_depth ==> result@[i].score.discordant as int
                    == discordant_pair_count(ws, min_overlap as int))
                &&& exists|sample: Seq<Seq<u8>>|
                    sample.len() == m && (forall|k: int|
                        0 <= k < sample.len() ==> in_observed(ws, #[trigger] sample[k]))
                        && result@[i].score.discordant as int == discordant_pair_count(
                        sample,
                        min_overlap as int,
                    )
            },
{
    let ghost rds = reads@;
    let ghost tv = opt_targets(target_sites);
    let n: usize = reads.len();
    let mut accs: Vec<AssociatedReads> = Vec::new();
    let mut t: usize = 0;
    while t < n
        invariant
            0 <= t <= n,
            n == rds.len(),
            rds == reads@,
            tv == opt_targets(target_sites),
            rds.len() < 0x7fff_ffff,
            forall|i: int| 0 <= i < rds.len() ==> valid_read(#[trigger] rds[i]),
            accs_sorted(accs@),
            forall|i: int| 0 <= i < accs@.len() ==> (#[trigger] accs@[i]).wf(),
            forall|i: int| 0 <= i < accs@.len() ==> (#[trigger] accs@[i]).max_depth == max_depth,
            forall|i: int|
                0 <= i < accs@.len() ==> (#[trigger] accs@[i]).observed@ == site_windows(
                    rds,
                    t as int,
                    accs@[i].pos,
                    min_qual,
                    tv,
                ),
            forall|i: int| 0 <= i < accs@.len() ==> (#[trigger] accs@[i]).observed@.len() > 0,
            forall|s: CpGPosition|
                !has_acc(accs@, s) ==> #[trigger] site_windows(
                    rds,
                    t as int,
                    s,
                    min_qual,
                    tv,
                ).len() == 0,
        decreases n - t,
    {
        let r = &reads[t];
        if r.mapq < min_qual {
            proof {
                assert forall|s: CpGPosition| #[trigger] site_windows(
                    rds,
                    t as int + 1,
                    s,
                    min_qual,
                    tv,
                ) == site_windows(rds, t as int, s, min_qual, tv) by {
                    assert(!routes_to(rds[t as int], s, min_qual, tv));
                }
            }
        } else {
            let er = effective_record(r, target_sites);
            let mut c: usize = 0;
            while c < er.cpgs.len()
                invariant
                    0 <= c <= er.cpgs@.len(),
                    0 <= t < n,
                    n == rds.len(),
                    rds == reads@,
                    tv == opt_targets(target_sites),
                    rds.len() < 0x7fff_ffff,
                    forall|i: int| 0 <= i < rds.len() ==> valid_read(#[trigger] rds[i]),
                    er.tid == rds[t as int].tid,
                    er.mapq == rds[t as int].mapq,
                    er.start == rds[t as int].start,
                    er.end == rds[t as int].end,
                    er.cpgs@ == effective_calls(rds[t as int], tv),
                    valid_read(er),
                    er.mapq >= min_qual,
                    accs_sorted(accs@),
                    forall|i: int| 0 <= i < accs@.len() ==> (#[trigger] accs@[i]).wf(),
                    forall|i: int|
                        0 <= i < accs@.len() ==> (#[trigger] accs@[i]).max_depth == max_depth,
                    forall|i: int|
                        0 <= i < accs@.len() ==> (#[trigger] accs@[i]).observed@ == (
                        if accs@[i].pos.tid == er.tid && has_call_pre(
                            er.cpgs@,
                            c as int,
                            accs@[i].pos.pos as int,
                        ) {
                            site_windows(rds, t as int, accs@[i].pos, min_qual, tv).push(
                                read_window(rds[t as int], accs@[i].pos, tv),
                            )
                        } else {
                            site_windows(rds, t as int, accs@[i].pos, min_qual, tv)
                        }),
                    forall|i: int|
                        0 <= i < accs@.len() ==> (#[trigger] accs@[i]).observed@.len() > 0,
                    forall|s: CpGPosition|
                        !has_acc(accs@, s) ==> #[trigger] site_windows(
                            rds,
                            t as int,
                            s,
                            min_qual,
                            tv,
                        ).len() == 0 && !(s.tid == er.tid && has_call_pre(
                            er.cpgs@,
                            c as int,
                            s.pos as int,
                        )),
                decreases er.cpgs@.len() - c,
            {
                let call = er.cpgs[c];
                let site = CpGPosition { tid: er.tid, pos: call.pos };
                proof {
                    if has_call_pre(er.cpgs@, c as int, site.pos as int) {
                        let k = choose|k: int|
                            0 <= k < c as int && k < er.cpgs@.len() && (#[trigger] er.cpgs@[k]).pos == site.pos;
                        assert(er.cpgs@[k].pos < er.cpgs@[c as int].pos);
                        assert(false);
                    }
                    lemma_site_windows_len(rds, t as int, site, min_qual, tv);
                }
                let ghost pre = accs@;
                proof {
                    assert(forall|s: CpGPosition|
                        !has_acc(pre, s) ==> #[trigger] site_windows(
                            rds,
                            t as int,
                            s,
                            min_qual,
                            tv,
                        ).len() == 0 && !(s.tid == er.tid && has_call_pre(
                            er.cpgs@,
                            c as int,
                            s.pos as int,
                        )));
                }
                let idx = find_or_insert(&mut accs, site, max_depth);
                let ghost mid = accs@;
                proof {
                    if !has_acc(pre, site) {
                        assert(site_windows(rds, t as int, site, min_qual, tv).len() == 0);
                        assert(mid[idx as int].observed@ =~= site_windows(
                            rds,
                            t as int,
                            site,
                            min_qual,
                            tv,
                        ));
                    } else {
                        assert(mid == pre);
                        assert(mid[idx as int].observed@ == site_windows(
                            rds,
                            t as int,
                            site,
                            min_qual,
                            tv,
                        ));
                    }
                    assert(mid[idx as int].num_total_read as int == mid[idx as int].observed@.len());
                    assert(mid[idx as int].observed@.len() <= t as int);
                }
                accs[idx].add_read(&er);
                proof {
                    let enc = encoded_window(
                        er.start as int,
                        er.end as int,
                        er.cpgs@,
                        site.pos as int,
                    );
                    assert(enc == read_window(rds[t as int], site, tv));
                    assert(accs@ == mid.update(idx as int, accs@[idx as int]));
                    assert(accs@[idx as int].observed@ == site_windows(
                        rds,
                        t as int,
                        site,
                        min_qual,
                        tv,
                    ).push(read_window(rds[t as int], site, tv)));
                    // sortedness and the per-accumulator facts, across the
                    // insert-then-update of slot idx
                    assert forall|a: int, b: int| 0 <= a < b < accs@.len() implies site_lt(
                        accs@[a].pos,
                        accs@[b].pos,
                    ) by {
                        assert(accs@[a].pos == mid[a].pos && accs@[b].pos == mid[b].pos);
                    }
                    assert forall|i: int| 0 <= i < accs@.len() implies (#[trigger] accs@[i]).observed@ == (
                    if accs@[i].pos.tid == er.tid && has_call_pre(
                        er.cpgs@,
                        c as int + 1,
                        accs@[i].pos.pos as int,
                    ) {
                        site_windows(rds, t as int, accs@[i].pos, min_qual, tv).push(
                            read_window(rds[t as int], accs@[i].pos, tv),
                        )
                    } else {
                        site_windows(rds, t as int, accs@[i].pos, min_qual, tv)
                    }) by {
                        let sp = accs@[i].pos;
                        if i == idx as int {
                            assert(sp == site);
                            assert(has_call_pre(er.cpgs@, c as int + 1, sp.pos as int));
                        } else {
                            assert(accs@[i] == mid[i]);
                            if i < idx as int {
                                assert(site_lt(mid[i].pos, mid[idx as int].pos));
                            } else {
                                assert(site_lt(mid[idx as int].pos, mid[i].pos));
                            }
                            assert(sp != site);
                            if sp.tid == er.tid {
                                if has_call_pre(er.cpgs@, c as int + 1, sp.pos as int)
                                    && !has_call_pre(er.cpgs@, c as int, sp.pos as int) {
                                    let k = choose|k: int|
                                        0 <= k < c as int + 1 && k < er.cpgs@.len() && (
                                        #[trigger] er.cpgs@[k]).pos == sp.pos;
                                    assert(k == c as int);
                                    assert(sp.pos == call.pos);
                                    assert(false);
                                }
                                if !has_call_pre(er.cpgs@, c as int + 1, sp.pos as int)
                                    && has_call_pre(er.cpgs@, c as int, sp.pos as int) {
                                    let k = choose|k: int|
                                        0 <= k < c as int && k < er.cpgs@.len() && (
                                        #[trigger] er.cpgs@[k]).pos == sp.pos;
                                    assert(has_call_pre(er.cpgs@, c as int + 1, sp.pos as int));
                                }
                            }
                            // was the slot shifted by the insert?  its
                            // observed windows are unchanged either way
                            if !has_acc(pre, site) {
                                pre.insert_ensures(idx as int, mid[idx as int]);
                                if i < idx as int {
                                    assert(mid[i] == pre[i]);
                                } else {
                                    assert(mid[i] == pre.insert(idx as int, mid[idx as int])[(i - 1)
                                        + 1]);
                                    assert(mid[i] == pre[i - 1]);
                                }
                            } else {
                                assert(mid[i] == pre[i]);
                            }
                        }
                    }
                    assert forall|s: CpGPosition| !has_acc(accs@, s) implies (#[trigger] site_windows(
                        rds,
                        t as int,
                        s,
                        min_qual,
                        tv,
                    ).len() == 0 && !(s.tid == er.tid && has_call_pre(
                        er.cpgs@,
                        c as int + 1,
                        s.pos as int,
                    ))) by {
                        assert forall|k: int| 0 <= k < pre.len() implies has_acc(
                            accs@,
                            (#[trigger] pre[k]).pos,
                        ) by {
                            if !has_acc(pre, site) {
                                pre.insert_ensures(idx as int, mid[idx as int]);
                                if k < idx as int {
                                    assert(mid[k] == pre[k]);
                                    assert(accs@[k].pos == pre[k].pos);
                                } else {
                                    assert(mid[k + 1] == pre[k]);
                                    assert(accs@[k + 1].pos == pre[k].pos);
                                }
                            } else {
                                assert(accs@[k].pos == pre[k].pos);
                            }
                        }
                        if has_acc(pre, s) {
                            let k = choose|k: int|
                                0 <= k < pre.len() && (#[trigger] pre[k]).pos == s;
                            assert(has_acc(accs@, pre[k].pos));
                            assert(false);
                        }
                        assert(accs@[idx as int].pos == site);
                        assert(s != site);
                        assert(!has_acc(pre, s));
                        assert(site_windows(rds, t as int, s, min_qual, tv).len() == 0);
                        assert(!(s.tid == er.tid && has_call_pre(er.cpgs@, c as int, s.pos as int)));
                        if s.tid == er.tid && has_call_pre(er.cpgs@, c as int + 1, s.pos as int) {
                            let k = choose|k: int|
                                0 <= k < c as int + 1 && k < er.cpgs@.len() && (#[trigger] er.cpgs@[k]).pos == s.pos;
                            if k < c as int {
                                assert(has_call_pre(er.cpgs@, c as int, s.pos as int));
                                assert(false);
                            }
                            assert(k == c as int);
                            assert(s.pos == call.pos);
                            assert(false);
                        }
                    }
                }
                c += 1;
                proof {
                    assert forall|s: CpGPosition| !has_acc(accs@, s) implies (
                    #[trigger] site_windows(rds, t as int, s, min_qual, tv).len() == 0 && !(s.tid
                        == er.tid && has_call_pre(er.cpgs@, c as int, s.pos as int))) by {
                        assert(site_windows(rds, t as int, s, min_qual, tv).len() == 0);
                        assert(!(s.tid == er.tid && has_call_pre(
                            er.cpgs@,
                            (c - 1) as int + 1,
                            s.pos as int,
                        )));
                        assert(c as int == (c - 1) as int + 1);
                    }
                }
            }
            proof {
                assert forall|i: int| 0 <= i < accs@.len() implies (#[trigger] accs@[i]).observed@
                    == site_windows(rds, t as int + 1, accs@[i].pos, min_qual, tv) by {
                    let sp = accs@[i].pos;
                    assert(effective_calls(rds[t as int], tv) == er.cpgs@);
                    if has_call(er.cpgs@, sp.pos as int) {
                        let k = choose|k: int|
                            0 <= k < er.cpgs@.len() && (#[trigger] er.cpgs@[k]).pos
                                == sp.pos as int;
                        assert(has_call_pre(er.cpgs@, er.cpgs@.len() as int, sp.pos as int));
                    }
                    if has_call_pre(er.cpgs@, er.cpgs@.len() as int, sp.pos as int) {
                        let k = choose|k: int|
                            0 <= k < er.cpgs@.len() as int && k < er.cpgs@.len() && (
                            #[trigger] er.cpgs@[k]).pos == sp.pos as int;
                        assert(has_call(er.cpgs@, sp.pos as int));
                    }
                    assert(routes_to(rds[t as int], sp, min_qual, tv) == (sp.tid == er.tid
                        && has_call_pre(er.cpgs@, er.cpgs@.len() as int, sp.pos as int)));
                }
                assert forall|s: CpGPosition| !has_acc(accs@, s) implies #[trigger] site_windows(
                    rds,
                    t as int + 1,
                    s,
                    min_qual,
                    tv,
                ).len() == 0 by {
                    assert(site_windows(rds, t as int, s, min_qual, tv).len() == 0);
                    if routes_to(rds[t as int], s, min_qual, tv) {
                        assert(has_call(er.cpgs@, s.pos as int));
                        let k = choose|k: int|
                            0 <= k < er.cpgs@.len() && (#[trigger] er.cpgs@[k]).pos
                                == s.pos as int;
                        assert(has_call_pre(er.cpgs@, er.cpgs@.len() as int, s.pos as int));
                        assert(false);
                    }
                }
            }
        }
        t += 1;
    }

    let ghost accs0 = accs@;
    let mut result: Vec<SiteScore> = Vec::new();
    let mut idx: usize = 0;
    while idx < accs.len()
        invariant
            0 <= idx <= accs@.len(),
            accs@ == accs0,
            n == rds.len(),
            rds == reads@,
            tv == opt_targets(target_sites),
            accs_sorted(accs0),
            forall|i: int| 0 <= i < accs0.len() ==> (#[trigger] accs0[i]).wf(),
            forall|i: int| 0 <= i < accs0.len() ==> (#[trigger] accs0[i]).max_depth == max_depth,
            forall|i: int|
                0 <= i < accs0.len() ==> (#[trigger] accs0[i]).observed@ == site_windows(
                    rds,
                    n as int,
                    accs0[i].pos,
                    min_qual,
                    tv,
                ),
            forall|i: int| 0 <= i < accs0.len() ==> (#[trigger] accs0[i]).observed@.len() > 0,
            forall|s: CpGPosition|
                !has_acc(accs0, s) ==> #[trigger] site_windows(
                    rds,
                    n as int,
                    s,
                    min_qual,
                    tv,
                ).len() == 0,
            result@.len() == idx,
            forall|k: int| 0 <= k < idx ==> (#[trigger] result@[k]).site == accs0[k].pos,
            forall|k: int|
                0 <= k < idx ==> {
                    let ws = site_windows(rds, n as int, (#[trigger] result@[k]).site, min_qual, tv);
                    let m = retained_cap(ws.len() as int, max_depth as int);
                    &&& result@[k].score.pairs as int == (m * (m - 1)) / 2
                    &&& result@[k].score.discordant <= result@[k].score.pairs
                    &&& (ws.len() <= max_depth ==> result@[k].score.discordant as int
                        == discordant_pair_count(ws, min_overlap as int))
                    &&& exists|sample: Seq<Seq<u8>>|
                        sample.len() == m && (forall|kk: int|
                            0 <= kk < sample.len() ==> in_observed(ws, #[trigger] sample[kk]))
                            && result@[k].score.discordant as int == discordant_pair_count(
                            sample,
                            min_overlap as int,
                        )
                },
        decreases accs@.len() - idx,
    {
        let site = accs[idx].pos;
        let ghost before = accs@[idx as int];
        let score = accs[idx].compute_fdrp(min_overlap);
        proof {
            assert(accs@[idx as int] == before);
            assert(accs@ =~= accs0);
            let ws = site_windows(rds, n as int, site, min_qual, tv);
            assert(before.observed@ == ws);
            assert(before.reads@.len() == retained_cap(ws.len() as int, max_depth as int));
            if ws.len() <= max_depth {
                assert(window_views(before.reads@) == before.observed@);
            }
            let sample = window_views(before.reads@);
            assert(sample.len() == retained_cap(ws.len() as int, max_depth as int));
            assert forall|kk: int| 0 <= kk < sample.len() implies in_observed(
                ws,
                #[trigger] sample[kk],
            ) by {
                assert(sample[kk] == before.reads@[kk]@);
                assert(in_observed(before.observed@, before.reads@[kk]@));
            }
            assert(score.discordant as int == discordant_pair_count(sample, min_overlap as int));
        }
        result.push(SiteScore { site, score });
        idx += 1;
    }
    proof {
        assert forall|s: CpGPosition| #[trigger] site_windows(
            rds,
            n as int,
            s,
            min_qual,
            tv,
        ).len() > 0 implies exists|i: int|
            0 <= i < result@.len() && (#[trigger] result@[i]).site == s by {
            assert(has_acc(accs0, s));
            let k = choose|k: int| 0 <= k < accs0.len() && (#[trigger] accs0[k]).pos == s;
            assert(result@[k].site == s);
        }
    }
    result
}

} // verus!
