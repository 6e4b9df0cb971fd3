//! The data model: CpG sites, methylation calls, read records, and the
//! restricted-mode call filter.

use vstd::prelude::*;

verus! {

/// Largest distance from an anchor site that a read window can represent,
/// on either side.
pub const MAX_READ_LEN: i32 = 51;

/// Width of an encoded window: `2 * MAX_READ_LEN + 1` cells, the anchor in
/// the middle.
pub const WINDOW_LEN: usize = 103;

/// Identity of a CpG site: chromosome (target id) and zero-based genomic
/// position of the C of the CpG dinucleotide.
#[derive(Clone, Copy, PartialEq, Eq, Structural, Debug, Hash)]
pub struct CpGPosition {
    pub tid: i32,
    pub pos: i32,
}

/// Total order on sites: chromosome first, then position.
pub open spec fn site_lt(a: CpGPosition, b: CpGPosition) -> bool {
    a.tid < b.tid || (a.tid == b.tid && a.pos < b.pos)
}

/// One methylation call of a read: absolute genomic position of the CpG C
/// and whether it was observed methylated.
#[derive(Clone, Copy, PartialEq, Eq, Structural, Debug)]
pub struct CpGCall {
    pub pos: i32,
    pub methylated: bool,
}

/// An aligned read with its methylation calls, as handed in by the
/// alignment-reading collaborator: mapping quality, inclusive genomic
/// span, and the calls in increasing position order.
pub struct ReadRecord {
    pub tid: i32,
    pub mapq: u8,
    pub start: i32,
    pub end: i32,
    pub cpgs: Vec<CpGCall>,
}

/// A position a read may be anchored at: on the read, and close enough to
/// both ends of the span that the whole span fits in the fixed window.
pub open spec fn valid_anchor(start: int, end: int, a: int) -> bool {
    &&& start <= a <= end
    &&& a - start <= MAX_READ_LEN
    &&& end - a <= MAX_READ_LEN
}

/// Calls in strictly increasing position order (an ordered set).
pub open spec fn calls_sorted(s: Seq<CpGCall>) -> bool {
    forall|i: int, j: int| 0 <= i < j < s.len() ==> s[i].pos < s[j].pos
}

/// Well-formed read: a non-negative span with headroom against the ends of
/// the coordinate space, and calls that are strictly ordered and anchorable.
pub open spec fn valid_read(r: ReadRecord) -> bool {
    &&& 0 <= r.start <= r.end
    &&& r.end + MAX_READ_LEN + 2 <= i32::MAX
    &&& calls_sorted(r.cpgs@)
    &&& forall|i: int|
        0 <= i < r.cpgs@.len() ==> valid_anchor(r.start as int, r.end as int, (#[trigger] r.cpgs@[i]).pos as int)
}

/// The calls carry a call at position `p`.
pub open spec fn has_call(calls: Seq<CpGCall>, p: int) -> bool {
    exists|i: int| 0 <= i < calls.len() && (#[trigger] calls[i]).pos == p
}

/// The calls carry a methylated call at position `p`.
pub open spec fn meth_call(calls: Seq<CpGCall>, p: int) -> bool {
    exists|i: int| 0 <= i < calls.len() && (#[trigger] calls[i]).pos == p && calls[i].methylated
}

/// The target set contains the site `(tid, p)`.
pub open spec fn in_target_set(targets: Seq<CpGPosition>, tid: i32, p: i32) -> bool {
    exists|i: int| 0 <= i < targets.len() && #[trigger] targets[i] == (CpGPosition { tid, pos: p })
}

/// The calls whose site lies in the target set, in their original order.
pub open spec fn restricted_calls(s: Seq<CpGCall>, tid: i32, targets: Seq<CpGPosition>) -> Seq<CpGCall>
    decreases s.len(),
{
    if s.len() == 0 {
        Seq::empty()
    } else {
        let head = restricted_calls(s.drop_last(), tid, targets);
        if in_target_set(targets, tid, s.last().pos) {
            head.push(s.last())
        } else {
            head
        }
    }
}

/// Every restricted call is one of the original calls.
pub proof fn lemma_restricted_calls_sub(s: Seq<CpGCall>, tid: i32, targets: Seq<CpGPosition>)
    ensures
        forall|k: int|
            0 <= k < restricted_calls(s, tid, targets).len() ==> exists|i: int|
                0 <= i < s.len() && #[trigger] restricted_calls(s, tid, targets)[k] == s[i],
    decreases s.len(),
{
    if s.len() > 0 {
        lemma_restricted_calls_sub(s.drop_last(), tid, targets);
        let rs = restricted_calls(s, tid, targets);
        let head = restricted_calls(s.drop_last(), tid, targets);
        assert forall|k: int| 0 <= k < rs.len() implies exists|i: int|
            0 <= i < s.len() && #[trigger] rs[k] == s[i] by {
            if k < head.len() {
                let i = choose|i: int| 0 <= i < s.drop_last().len() && head[k] == s.drop_last()[i];
                assert(s.drop_last()[i] == s[i]);
                assert(rs[k] == s[i]);
            } else {
                assert(rs[k] == s.last());
                assert(rs[k] == s[s.len() - 1]);
            }
        }
    }
}

/// Every call that restriction keeps lies in the target set.
pub proof fn lemma_restricted_calls_targets(s: Seq<CpGCall>, tid: i32, targets: Seq<CpGPosition>)
    ensures
        forall|k: int|
            0 <= k < restricted_calls(s, tid, targets).len() ==> in_target_set(
                targets,
                tid,
                (#[trigger] restricted_calls(s, tid, targets)[k]).pos,
            ),
    decreases s.len(),
{
    if s.len() > 0 {
        lemma_restricted_calls_targets(s.drop_last(), tid, targets);
        let rs = restricted_calls(s, tid, targets);
        let head = restricted_calls(s.drop_last(), tid, targets);
        assert forall|k: int| 0 <= k < rs.len() implies in_target_set(
            targets,
            tid,
            (#[trigger] rs[k]).pos,
        ) by {
            if k < head.len() {
                assert(rs[k] == head[k]);
            } else {
                assert(rs[k] == s.last());
            }
        }
    }
}

/// A site outside the target set never carries a call after restriction.
pub proof fn lemma_restriction_suppresses(s: Seq<CpGCall>, tid: i32, targets: Seq<CpGPosition>, p: i32)
    requires
        !in_target_set(targets, tid, p),
    ensures
        !has_call(restricted_calls(s, tid, targets), p as int),
{
    lemma_restricted_calls_targets(s, tid, targets);
    let rs = restricted_calls(s, tid, targets);
    if has_call(rs, p as int) {
        let i = choose|i: int| 0 <= i < rs.len() && (#[trigger] rs[i]).pos == p as int;
        assert(in_target_set(targets, tid, rs[i].pos));
    }
}

/// Membership test against the target set.
fn contains_site(targets: &Vec<CpGPosition>, tid: i32, p: i32) -> (r: bool)
    ensures
        r == in_target_set(targets@, tid, p),
{
    let mut i: usize = 0;
    while i < targets.len()
        invariant
            0 <= i <= targets@.len(),
            forall|k: int| 0 <= k < i ==> #[trigger] targets@[k] != (CpGPosition { tid, pos: p }),
        decreases targets@.len() - i,
    {
        if targets[i].tid == tid && targets[i].pos == p {
            return true;
        }
        i += 1;
    }
    false
}

impl ReadRecord {
    /// Restricted mode: drop every call whose site is not in the target
    /// set.  Span, quality and chromosome are untouched, so coverage is
    /// unaffected; only the call bits of non-target sites are suppressed.
    pub fn filter_isin(&mut self, targets: &Vec<CpGPosition>)
        ensures
            final(self).tid == old(self).tid,
            final(self).mapq == old(self).mapq,
            final(self).start == old(self).start,
            final(self).end == old(self).end,
            final(self).cpgs@ == restricted_calls(old(self).cpgs@, old(self).tid, targets@),
            valid_read(*old(self)) ==> valid_read(*final(self)),
    {
        let ghost s = self.cpgs@;
        let ghost tgt = targets@;
        let mut kept: Vec<CpGCall> = Vec::new();
        let mut i: usize = 0;
        while i < self.cpgs.len()
            invariant
                0 <= i <= s.len(),
                *self == *old(self),
                self.cpgs@ == s,
                tgt == targets@,
                kept@ == restricted_calls(s.take(i as int), self.tid, tgt),
            decreases s.len() - i,
        {
            let c = self.cpgs[i];
            proof {
                assert(s.take(i as int + 1).drop_last() =~= s.take(i as int));
                assert(s.take(i as int + 1).last() == s[i as int]);
            }
            if contains_site(targets, self.tid, c.pos) {
                kept.push(c);
            }
            i += 1;
        }
        proof {
            assert(s.take(s.len() as int) =~= s);
        }
        proof {
            if valid_read(*self) {
                lemma_restricted_calls_ordered(s, self.tid, tgt);
                lemma_restricted_calls_sub(s, self.tid, tgt);
                let rs = restricted_calls(s, self.tid, tgt);
                assert forall|k: int| 0 <= k < rs.len() implies valid_anchor(
                    self.start as int,
                    self.end as int,
                    (#[trigger] rs[k]).pos as int,
                ) by {
                    let j = choose|j: int| 0 <= j < s.len() && rs[k] == s[j];
                    assert(valid_anchor(self.start as int, self.end as int, s[j].pos as int));
                }
            }
        }
        self.cpgs = kept;
    }
}

/// Restriction keeps the strict ordering of the calls.
pub proof fn lemma_restricted_calls_ordered(s: Seq<CpGCall>, tid: i32, targets: Seq<CpGPosition>)
    requires
        calls_sorted(s),
    ensures
        calls_sorted(restricted_calls(s, tid, targets)),
    decreases s.len(),
{
    if s.len() > 0 {
        assert(forall|i: int, j: int|
            0 <= i < j < s.drop_last().len() ==> s.drop_last()[i].pos < s.drop_last()[j].pos);
        lemma_restricted_calls_ordered(s.drop_last(), tid, targets);
        let rs = restricted_calls(s, tid, targets);
        let head = restricted_calls(s.drop_last(), tid, targets);
        if in_target_set(targets, tid, s.last().pos) {
            lemma_restricted_calls_sub(s.drop_last(), tid, targets);
            assert forall|i: int, j: int| 0 <= i < j < rs.len() implies rs[i].pos < rs[j].pos by {
                if j < head.len() {
                    assert(rs[i] == head[i] && rs[j] == head[j]);
                } else {
                    assert(rs[j] == s.last());
                    assert(rs[i] == head[i]);
                    let k = choose|k: int|
                        0 <= k < s.drop_last().len() && #[trigger] head[i] == s.drop_last()[k];
                    assert(s.drop_last()[k] == s[k]);
                    assert(s[k].pos < s[s.len() - 1].pos);
                }
            }
        }
    }
}

} // verus!
