//! Where text may flow inside a frame whose shape comes from an alpha mask:
//! the writable stretches of each pixel row.
use vstd::prelude::*;

verus! {

/// A mask byte marks a writable pixel when it is not zero.
pub open spec fn writable(b: u8) -> bool {
    b != 0
}

/// `runs` are exactly the maximal stretches of writable pixels among the
/// first `w` bytes of `row`, each as a half-open range, left to right.
pub open spec fn maximal_runs(row: Seq<u8>, w: int, runs: Seq<(usize, usize)>) -> bool {
    &&& forall|k: int| 0 <= k < runs.len() ==> 0 <= (#[trigger] runs[k]).0 < runs[k].1 <= w
    &&& forall|k: int, x: int|
        0 <= k < runs.len() && (#[trigger] runs[k]).0 <= x < runs[k].1 ==> writable(
            #[trigger] row[x],
        )
    &&& forall|k: int|
        0 <= k < runs.len() ==> ((#[trigger] runs[k]).0 == 0 || !writable(row[runs[k].0 - 1])) && (
        runs[k].1 == w || !writable(row[runs[k].1 as int]))
    &&& forall|k: int| 0 <= k < runs.len() - 1 ==> (#[trigger] runs[k]).1 < runs[k + 1].0
    &&& forall|x: int|
        0 <= x < w && writable(#[trigger] row[x]) ==> exists|k: int|
            0 <= k < runs.len() && (#[trigger] runs[k]).0 <= x < runs[k].1
}

/// The runs found before position `x`, each already ended by a pixel that is
/// not writable.
spec fn closed_runs(row: Seq<u8>, x: int, runs: Seq<(usize, usize)>) -> bool {
    &&& forall|k: int| 0 <= k < runs.len() ==> 0 <= (#[trigger] runs[k]).0 < runs[k].1 < x
    &&& forall|k: int, y: int|
        0 <= k < runs.len() && (#[trigger] runs[k]).0 <= y < runs[k].1 ==> writable(
            #[trigger] row[y],
        )
    &&& forall|k: int|
        0 <= k < runs.len() ==> ((#[trigger] runs[k]).0 == 0 || !writable(row[runs[k].0 - 1]))
            && !writable(row[runs[k].1 as int])
    &&& forall|k: int| 0 <= k < runs.len() - 1 ==> (#[trigger] runs[k]).1 < runs[k + 1].0
}

/// The stretches of writable pixels among the first `w` bytes of a mask row.
pub fn writable_runs(row: &[u8], w: usize) -> (r: Vec<(usize, usize)>)
    requires
        w <= row@.len(),
    ensures
        maximal_runs(row@, w as int, r@),
{
    let mut runs: Vec<(usize, usize)> = Vec::new();
    let mut start: Option<usize> = None;
    for x in 0..w
        invariant
            w <= row@.len(),
            closed_runs(row@, x as int, runs@),
            match start {
                Some(s) => {
                    &&& s < x
                    &&& forall|y: int| s <= y < x ==> writable(#[trigger] row@[y])
                    &&& (s == 0 || !writable(row@[s - 1]))
                    &&& (runs@.len() > 0 ==> runs@.last().1 < s)
                },
                None => x == 0 || !writable(row@[x - 1]),
            },
            forall|y: int|
                0 <= y < x && writable(#[trigger] row@[y]) ==> (exists|k: int|
                    0 <= k < runs@.len() && (#[trigger] runs@[k]).0 <= y < runs@[k].1) || (
                start matches Some(s) && s <= y),
    {
        let wr = row[x] != 0;
        let ghost before = runs@;
        match start {
            None => {
                if wr {
                    start = Some(x);
                    proof {
                        if before.len() > 0 {
                            assert(before[before.len() - 1].1 < x);
                        }
                    }
                }
            },
            Some(s) => {
                if !wr {
                    runs.push((s, x));
                    start = None;
                    proof {
                        let r = runs@;
                        assert(r.last() == (s, x));
                        assert forall|k: int| 0 <= k < r.len() - 1 implies (#[trigger] r[k]).1 < r[k + 1].0 by {
                            if k < r.len() - 2 {
                                assert(r[k] == before[k] && r[k + 1] == before[k + 1]);
                            } else {
                                assert(r[k] == before.last());
                            }
                        }
                        assert forall|y: int| 0 <= y < x + 1 && writable(#[trigger] row@[y]) implies (exists|k: int|
                            0 <= k < r.len() && (#[trigger] r[k]).0 <= y < r[k].1) by {
                            if s <= y {
                                assert(r[r.len() - 1].0 <= y < r[r.len() - 1].1);
                            } else {
                                let k = choose|k: int| 0 <= k < before.len() && (#[trigger] before[k]).0 <= y < before[k].1;
                                assert(r[k] == before[k]);
                            }
                        }
                    }
                }
            },
        }
        proof {
            let r = runs@;
            assert forall|y: int| 0 <= y < x + 1 && writable(#[trigger] row@[y]) implies (exists|k: int|
                0 <= k < r.len() && (#[trigger] r[k]).0 <= y < r[k].1) || (start matches Some(s) && s <= y) by {
                if y < x && r == before {
                    if !(start matches Some(s) && s <= y) {
                        let k = choose|k: int| 0 <= k < before.len() && (#[trigger] before[k]).0 <= y < before[k].1;
                        assert(r[k] == before[k]);
                    }
                }
            }
        }
    }
    let ghost before = runs@;
    match start {
        Some(s) => {
            runs.push((s, w));
            proof {
                let r = runs@;
                assert forall|k: int| 0 <= k < r.len() - 1 implies (#[trigger] r[k]).1 < r[k + 1].0 by {
                    if k < r.len() - 2 {
                        assert(r[k] == before[k] && r[k + 1] == before[k + 1]);
                    } else {
                        assert(r[k] == before.last());
                    }
                }
                assert forall|y: int| 0 <= y < w && writable(#[trigger] row@[y]) implies exists|k: int|
                    0 <= k < r.len() && (#[trigger] r[k]).0 <= y < r[k].1 by {
                    if s <= y {
                        assert(r[r.len() - 1].0 <= y < r[r.len() - 1].1);
                    } else {
                        let k = choose|k: int| 0 <= k < before.len() && (#[trigger] before[k]).0 <= y < before[k].1;
                        assert(r[k] == before[k]);
                    }
                }
            }
        },
        None => {},
    }
    runs
}

} // verus!
