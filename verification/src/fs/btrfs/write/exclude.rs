//! Logical ranges that must not be handed out because a superblock mirror
//! lies behind them.

use std::ops::Range;

use vstd::prelude::*;

use crate::fs::btrfs::chunk::{chunks_of, Chunk, ChunkMap, ChunkV, Stripe};
use crate::sort::{ascending, sort_ranked, stable_sort, stable_sort_sorts, Ranked};

verus! {

/// Device offset of the primary superblock.
pub const SB_MIRROR_0: u64 = 0x1_0000;
/// Device offset of the first mirror.
pub const SB_MIRROR_1: u64 = 0x400_0000;
/// Device offset of the second mirror.
pub const SB_MIRROR_2: u64 = 0x40_0000_0000;
/// Bytes protected for each superblock.
pub const SB_PROTECT_LEN: u64 = 65536;

impl Ranked for Range<u64> {
    open spec fn rank(&self) -> int {
        self.start as int
    }

    fn rank_le(&self, other: &Self) -> (r: bool) {
        self.start <= other.start
    }
}

/// The range from `a` up to `b`, if there is one.
pub open spec fn span(a: u64, b: u64) -> Seq<Range<u64>> {
    if a < b {
        seq![Range { start: a, end: b }]
    } else {
        Seq::empty()
    }
}

/// The part of `c` that stripe `s` places over the superblock at `sb`.
pub open spec fn mirror_span(c: ChunkV, s: Stripe, sb: u64) -> Seq<Range<u64>> {
    if s.offset + c.length <= u64::MAX && s.offset <= sb < s.offset + c.length {
        let start = (c.logical + (sb - s.offset)) as u64;
        let end = c.logical + c.length;
        span(
            start,
            if start + SB_PROTECT_LEN < end {
                (start + SB_PROTECT_LEN) as u64
            } else {
                end as u64
            },
        )
    } else {
        Seq::empty()
    }
}

/// The parts of `c` that `stripes` place over the superblock at `sb`.
pub open spec fn mirror_spans(c: ChunkV, stripes: Seq<Stripe>, sb: u64) -> Seq<Range<u64>>
    decreases stripes.len(),
{
    if stripes.len() == 0 {
        Seq::empty()
    } else {
        mirror_spans(c, stripes.drop_last(), sb) + mirror_span(c, stripes.last(), sb)
    }
}

/// Everything of `c` that must not be handed out.
pub open spec fn chunk_spans(c: ChunkV) -> Seq<Range<u64>> {
    if c.logical + c.length > u64::MAX {
        Seq::empty()
    } else {
        span(
            c.logical,
            if SB_MIRROR_0 < c.logical + c.length {
                SB_MIRROR_0
            } else {
                (c.logical + c.length) as u64
            },
        ) + mirror_spans(c, c.stripes, SB_MIRROR_0) + mirror_spans(c, c.stripes, SB_MIRROR_1)
            + mirror_spans(c, c.stripes, SB_MIRROR_2)
    }
}

/// Everything of `chunks` that must not be handed out, unmerged.
pub open spec fn all_spans(chunks: Seq<ChunkV>) -> Seq<Range<u64>>
    decreases chunks.len(),
{
    if chunks.len() == 0 {
        Seq::empty()
    } else {
        all_spans(chunks.drop_last()) + chunk_spans(chunks.last())
    }
}

/// `m` with `r` behind it, united with the last range where they touch.
pub open spec fn join_range(m: Seq<Range<u64>>, r: Range<u64>) -> Seq<Range<u64>> {
    if r.start >= r.end {
        m
    } else if m.len() > 0 && r.start <= m.last().end {
        m.drop_last().push(
            Range {
                start: m.last().start,
                end: if m.last().end > r.end {
                    m.last().end
                } else {
                    r.end
                },
            },
        )
    } else {
        m.push(r)
    }
}

/// Sorted ranges united where they touch.
pub open spec fn join_ranges(s: Seq<Range<u64>>) -> Seq<Range<u64>>
    decreases s.len(),
{
    if s.len() == 0 {
        Seq::empty()
    } else {
        join_range(join_ranges(s.drop_last()), s.last())
    }
}

/// Ranges in address order, united where they touch, none of them empty.
pub open spec fn merged(s: Seq<Range<u64>>) -> Seq<Range<u64>> {
    join_ranges(stable_sort(s))
}

/// What a filesystem with these chunks must not hand out.
pub open spec fn sb_exclusions(chunks: Seq<ChunkV>) -> Seq<Range<u64>> {
    merged(all_spans(chunks))
}

/// Whether `x` lies in one of the ranges.
pub open spec fn in_ranges(s: Seq<Range<u64>>, x: int) -> bool {
    exists|i: int| 0 <= i < s.len() && (#[trigger] s[i]).start <= x < s[i].end
}

/// Ranges are not empty, ascend and do not touch.
pub open spec fn separate(s: Seq<Range<u64>>) -> bool {
    &&& forall|i: int| 0 <= i < s.len() ==> (#[trigger] s[i]).start < s[i].end
    &&& forall|i: int, j: int|
        0 <= i < j < s.len() ==> (#[trigger] s[i]).end < (#[trigger] s[j]).start
}

proof fn join_ranges_means(s: Seq<Range<u64>>)
    requires
        ascending(s),
    ensures
        separate(join_ranges(s)),
        forall|x: int| #[trigger] in_ranges(join_ranges(s), x) == in_ranges(s, x),
        join_ranges(s).len() > 0 ==> s.len() > 0 && join_ranges(s).last().start
            <= s.last().start,
    decreases s.len(),
{
    if s.len() > 0 {
        let t = s.drop_last();
        assert(ascending(t));
        join_ranges_means(t);
        let m = join_ranges(t);
        let n = join_ranges(s);
        assert(t.len() > 0 ==> s[t.len() - 1] == t.last());
        assert forall|i: int, j: int| 0 <= i < j < n.len() implies (#[trigger] n[i]).end < (
        #[trigger] n[j]).start by {
            if j == m.len() {
                if i < m.len() - 1 {
                    assert(m[i].end < m[m.len() - 1].start);
                }
            }
        }
        assert forall|x: int| #[trigger] in_ranges(n, x) == in_ranges(s, x) by {
            if in_ranges(n, x) {
                let i = choose|i: int|
                    0 <= i < n.len() && (#[trigger] n[i]).start <= x < n[i].end;
                if i < m.len() && m[i].start <= x < m[i].end {
                    assert(in_ranges(m, x));
                    let k = choose|k: int|
                        0 <= k < t.len() && (#[trigger] t[k]).start <= x < t[k].end;
                    assert(s[k].start <= x < s[k].end);
                } else {
                    assert(s[s.len() - 1].start <= x < s[s.len() - 1].end);
                }
            }
            if in_ranges(s, x) {
                let k = choose|k: int|
                    0 <= k < s.len() && (#[trigger] s[k]).start <= x < s[k].end;
                if k < t.len() {
                    assert(t[k].start <= x < t[k].end);
                    assert(in_ranges(t, x));
                    assert(in_ranges(m, x));
                    let i = choose|i: int|
                        0 <= i < m.len() && (#[trigger] m[i]).start <= x < m[i].end;
                    assert(n[i].start <= x < n[i].end);
                } else {
                    assert(n[n.len() - 1].start <= x < n[n.len() - 1].end);
                }
            }
        }
    }
}

/// Merging yields separate ranges in address order over the same addresses.
pub proof fn merged_means(s: Seq<Range<u64>>)
    ensures
        separate(merged(s)),
        forall|x: int| #[trigger] in_ranges(merged(s), x) == in_ranges(s, x),
{
    stable_sort_sorts(s);
    let t = stable_sort(s);
    join_ranges_means(t);
    assert forall|x: int| #[trigger] in_ranges(merged(s), x) == in_ranges(s, x) by {
        broadcast use vstd::seq_lib::group_to_multiset_ensures;

        if in_ranges(t, x) {
            let i = choose|i: int| 0 <= i < t.len() && (#[trigger] t[i]).start <= x < t[i].end;
            assert(t.contains(t[i]));
            assert(s.to_multiset().count(t[i]) > 0);
            assert(s.contains(t[i]));
            let k = choose|k: int| 0 <= k < s.len() && s[k] == t[i];
            assert(s[k].start <= x < s[k].end);
        }
        if in_ranges(s, x) {
            let i = choose|i: int| 0 <= i < s.len() && (#[trigger] s[i]).start <= x < s[i].end;
            assert(s.contains(s[i]));
            assert(t.to_multiset().count(s[i]) > 0);
            assert(t.contains(s[i]));
            let k = choose|k: int| 0 <= k < t.len() && t[k] == s[i];
            assert(t[k].start <= x < t[k].end);
        }
    }
}

proof fn in_ranges_concat(a: Seq<Range<u64>>, b: Seq<Range<u64>>, x: int)
    ensures
        in_ranges(a + b, x) == (in_ranges(a, x) || in_ranges(b, x)),
{
    if in_ranges(a, x) {
        let i = choose|i: int| 0 <= i < a.len() && (#[trigger] a[i]).start <= x < a[i].end;
        assert((a + b)[i].start <= x < (a + b)[i].end);
    }
    if in_ranges(b, x) {
        let i = choose|i: int| 0 <= i < b.len() && (#[trigger] b[i]).start <= x < b[i].end;
        assert((a + b)[a.len() + i].start <= x < (a + b)[a.len() + i].end);
    }
    if in_ranges(a + b, x) {
        let i = choose|i: int|
            0 <= i < (a + b).len() && (#[trigger] (a + b)[i]).start <= x < (a + b)[i].end;
        if i < a.len() {
            assert(a[i].start <= x < a[i].end);
        } else {
            assert(b[i - a.len()].start <= x < b[i - a.len()].end);
        }
    }
}

proof fn mirror_spans_hold(c: ChunkV, stripes: Seq<Stripe>, sb: u64, k: int, x: int)
    requires
        0 <= k < stripes.len(),
        in_ranges(mirror_span(c, stripes[k], sb), x),
    ensures
        in_ranges(mirror_spans(c, stripes, sb), x),
    decreases stripes.len(),
{
    in_ranges_concat(
        mirror_spans(c, stripes.drop_last(), sb),
        mirror_span(c, stripes.last(), sb),
        x,
    );
    if k < stripes.len() - 1 {
        assert(stripes.drop_last()[k] == stripes[k]);
        mirror_spans_hold(c, stripes.drop_last(), sb, k, x);
    }
}

proof fn all_spans_hold(chunks: Seq<ChunkV>, k: int, x: int)
    requires
        0 <= k < chunks.len(),
        in_ranges(chunk_spans(chunks[k]), x),
    ensures
        in_ranges(all_spans(chunks), x),
    decreases chunks.len(),
{
    in_ranges_concat(all_spans(chunks.drop_last()), chunk_spans(chunks.last()), x);
    if k < chunks.len() - 1 {
        assert(chunks.drop_last()[k] == chunks[k]);
        all_spans_hold(chunks.drop_last(), k, x);
    }
}

/// No byte of a superblock mirror can be reached through a logical address
/// that is not excluded: an address `x` of chunk `k` that stripe `j` places
/// within the protected bytes of a mirror inside that stripe is excluded.
pub proof fn mirrors_are_excluded(chunks: Seq<ChunkV>, k: int, j: int, sb: u64, x: int)
    requires
        0 <= k < chunks.len(),
        0 <= j < chunks[k].stripes.len(),
        sb == SB_MIRROR_0 || sb == SB_MIRROR_1 || sb == SB_MIRROR_2,
        chunks[k].logical + chunks[k].length <= u64::MAX,
        chunks[k].stripes[j].offset + chunks[k].length <= u64::MAX,
        chunks[k].stripes[j].offset <= sb < chunks[k].stripes[j].offset + chunks[k].length,
        chunks[k].logical <= x < chunks[k].logical + chunks[k].length,
        sb <= chunks[k].stripes[j].offset + (x - chunks[k].logical) < sb + SB_PROTECT_LEN,
    ensures
        in_ranges(sb_exclusions(chunks), x),
{
    let c = chunks[k];
    let s = c.stripes[j];
    let m = mirror_span(c, s, sb);
    assert(m[0].start <= x < m[0].end);
    assert(in_ranges(m, x));
    mirror_spans_hold(c, c.stripes, sb, j, x);
    let lead = span(
        c.logical,
        if SB_MIRROR_0 < c.logical + c.length {
            SB_MIRROR_0
        } else {
            (c.logical + c.length) as u64
        },
    );
    let a = mirror_spans(c, c.stripes, SB_MIRROR_0);
    let b = mirror_spans(c, c.stripes, SB_MIRROR_1);
    let d = mirror_spans(c, c.stripes, SB_MIRROR_2);
    in_ranges_concat(lead, a, x);
    in_ranges_concat(lead + a, b, x);
    in_ranges_concat(lead + a + b, d, x);
    all_spans_hold(chunks, k, x);
    merged_means(all_spans(chunks));
}

/// The first 64 KiB of addresses are never handed out.
pub proof fn leading_is_excluded(chunks: Seq<ChunkV>, k: int, x: int)
    requires
        0 <= k < chunks.len(),
        chunks[k].logical + chunks[k].length <= u64::MAX,
        chunks[k].logical <= x < chunks[k].logical + chunks[k].length,
        x < 64 * 1024,
    ensures
        in_ranges(sb_exclusions(chunks), x),
{
    let c = chunks[k];
    let lead = span(
        c.logical,
        if SB_MIRROR_0 < c.logical + c.length {
            SB_MIRROR_0
        } else {
            (c.logical + c.length) as u64
        },
    );
    assert(lead[0].start <= x < lead[0].end);
    assert(in_ranges(lead, x));
    let a = mirror_spans(c, c.stripes, SB_MIRROR_0);
    let b = mirror_spans(c, c.stripes, SB_MIRROR_1);
    let d = mirror_spans(c, c.stripes, SB_MIRROR_2);
    in_ranges_concat(lead, a, x);
    in_ranges_concat(lead + a, b, x);
    in_ranges_concat(lead + a + b, d, x);
    all_spans_hold(chunks, k, x);
    merged_means(all_spans(chunks));
}

fn push_span(v: &mut Vec<Range<u64>>, a: u64, b: u64)
    ensures
        final(v)@ == old(v)@ + span(a, b),
{
    if a < b {
        v.push(a..b);
    }
    assert(v@ =~= old(v)@ + span(a, b));
}

fn push_mirror(v: &mut Vec<Range<u64>>, c: &Chunk, sb: u64)
    requires
        c@.logical + c@.length <= u64::MAX,
    ensures
        final(v)@ == old(v)@ + mirror_spans(c@, c@.stripes, sb),
{
    let end: u64 = c.logical + c.length;
    let n: usize = c.stripes.len();
    let mut i: usize = 0;
    assert(c.stripes@.take(0) =~= Seq::<Stripe>::empty());
    assert(v@ =~= old(v)@ + mirror_spans(c@, c.stripes@.take(0), sb));
    while i < n
        invariant
            i <= n,
            n == c.stripes@.len(),
            end == c@.logical + c@.length,
            v@ == old(v)@ + mirror_spans(c@, c.stripes@.take(i as int), sb),
        decreases n - i,
    {
        let off: u64 = c.stripes[i].offset;
        proof {
            assert(c.stripes@.take(i + 1).drop_last() =~= c.stripes@.take(i as int));
            assert(c.stripes@.take(i + 1).last() == c.stripes@[i as int]);
        }
        if off <= u64::MAX - c.length && off <= sb && sb < off + c.length {
            let start: u64 = c.logical + (sb - off);
            let stop: u64 = start.saturating_add(SB_PROTECT_LEN);
            push_span(
                v,
                start,
                if stop < end {
                    stop
                } else {
                    end
                },
            );
        }
        i += 1;
        assert(v@ =~= old(v)@ + mirror_spans(c@, c.stripes@.take(i as int), sb));
    }
    assert(c.stripes@.take(n as int) =~= c.stripes@);
}

/// All logical ranges that must be withheld from allocation to protect the
/// superblock mirrors and the reserved leading region, sorted and merged.
pub fn compute_sb_exclusions(chunk_map: &ChunkMap) -> (r: Vec<Range<u64>>)
    ensures
        r@ == sb_exclusions(chunk_map@),
{
    let chunks = chunk_map.chunks();
    let ghost all = chunk_map@;
    let n: usize = chunks.len();
    let mut v: Vec<Range<u64>> = Vec::new();
    let mut i: usize = 0;
    assert(all.take(0) =~= Seq::<ChunkV>::empty());
    while i < n
        invariant
            i <= n,
            n == chunks@.len(),
            all == chunks_of(chunks@),
            v@ == all_spans(all.take(i as int)),
        decreases n - i,
    {
        let c = &chunks[i];
        proof {
            assert(all.take(i + 1).drop_last() =~= all.take(i as int));
            assert(all.take(i + 1).last() == c@);
        }
        let ghost before = v@;
        if c.logical <= u64::MAX - c.length {
            let end: u64 = c.logical + c.length;
            push_span(
                &mut v,
                c.logical,
                if SB_MIRROR_0 < end {
                    SB_MIRROR_0
                } else {
                    end
                },
            );
            push_mirror(&mut v, c, SB_MIRROR_0);
            push_mirror(&mut v, c, SB_MIRROR_1);
            push_mirror(&mut v, c, SB_MIRROR_2);
        }
        i += 1;
        assert(v@ =~= before + chunk_spans(c@));
    }
    assert(all.take(n as int) =~= all);
    merge_ranges(v)
}

/// Sort ranges and unite those that overlap or touch.
pub fn merge_ranges(ranges: Vec<Range<u64>>) -> (r: Vec<Range<u64>>)
    ensures
        r@ == merged(ranges@),
{
    let mut v = ranges;
    sort_ranked(&mut v);
    let n: usize = v.len();
    let mut m: Vec<Range<u64>> = Vec::new();
    let mut i: usize = 0;
    assert(v@.take(0) =~= Seq::<Range<u64>>::empty());
    while i < n
        invariant
            i <= n,
            n == v@.len(),
            m@ == join_ranges(v@.take(i as int)),
        decreases n - i,
    {
        let start: u64 = v[i].start;
        let end: u64 = v[i].end;
        proof {
            assert(v@.take(i + 1).drop_last() =~= v@.take(i as int));
            assert(v@.take(i + 1).last() == v@[i as int]);
        }
        if start < end {
            let k: usize = m.len();
            if k > 0 && start <= m[k - 1].end {
                let first: u64 = m[k - 1].start;
                let last: u64 = if m[k - 1].end > end {
                    m[k - 1].end
                } else {
                    end
                };
                let ghost before = m@;
                m.set(k - 1, first..last);
                assert(m@ =~= join_range(before, v@[i as int]));
            } else {
                m.push(start..end);
            }
        }
        i += 1;
    }
    assert(v@.take(n as int) =~= v@);
    m
}

} // verus!
