//! A file that is given up leaves nothing behind in the ledger of a batch.

use vstd::prelude::*;

use crate::fs::btrfs::write::interval_set::{canonical, covers, without_means};
use crate::fs::btrfs::write::stream::let_go;
use crate::fs::btrfs::write::workspace::StateV;

verus! {

/// Whether `x` lies in one of the runs.
pub open spec fn in_runs(runs: Seq<(u64, u64)>, x: int) -> bool {
    exists|i: int| 0 <= i < runs.len() && (#[trigger] runs[i]).0 <= x < runs[i].0 + runs[i].1
}

/// Once the data in `runs` is given up, the ledger holds what it held, without any
/// byte of them; the blocks that wait to be written, and what is to be added to and
/// removed from the extent tree, stay as they are.
pub proof fn given_up_is_forgotten(s: StateV, runs: Seq<(u64, u64)>, l: Seq<(u64, u64)>)
    requires
        s.ledger == Some(l),
        canonical(l),
        forall|i: int| 0 <= i < runs.len() ==> (#[trigger] runs[i]).0 + runs[i].1 <= u64::MAX,
    ensures
        ({
            let t = let_go(s, runs);
            &&& t.ledger matches Some(k) && canonical(k) && forall|x: int| #[trigger]
                covers(k, x) == (covers(l, x) && !in_runs(runs, x))
            &&& t.pending == s.pending
            &&& t.add == s.add
            &&& t.remove == s.remove
        }),
    decreases runs.len(),
{
    let t = let_go(s, runs);
    if runs.len() == 0 {
        assert forall|x: int| #[trigger] covers(l, x) == (covers(l, x) && !in_runs(runs, x)) by {}
    } else {
        let front = runs.drop_last();
        assert forall|i: int| 0 <= i < front.len() implies (#[trigger] front[i]).0 + front[i].1
            <= u64::MAX by {
            assert(front[i] == runs[i]);
        }
        given_up_is_forgotten(s, front, l);
        let m = let_go(s, front).ledger->Some_0;
        let (at, len) = runs[runs.len() - 1];
        let k = t.ledger->Some_0;
        if len > 0 {
            without_means(m, at, (at + len) as u64);
        }
        assert forall|x: int| #[trigger] covers(k, x) == (covers(l, x) && !in_runs(runs, x)) by {
            assert(covers(m, x) == (covers(l, x) && !in_runs(front, x)));
            if in_runs(front, x) {
                let i = choose|i: int|
                    0 <= i < front.len() && (#[trigger] front[i]).0 <= x < front[i].0 + front[i].1;
                assert(runs[i] == front[i]);
                assert(in_runs(runs, x));
            }
            if in_runs(runs, x) {
                let i = choose|i: int|
                    0 <= i < runs.len() && (#[trigger] runs[i]).0 <= x < runs[i].0 + runs[i].1;
                if i < front.len() {
                    assert(front[i] == runs[i]);
                }
            }
        }
    }
}

} // verus!
