//! The sampling half of the estimator: draw repeated samples from the
//! interpreter and count them into a histogram over the checker's
//! envelope. The floating-point statistics (distribution, expected
//! value, deviation) belong to the caller, outside this library.

use vstd::prelude::*;

use crate::descriptor::SudiceExpression;
use crate::interpreter::{
    collapse_m, init_mstate, interpret, steps_to, stuck_with, InterpError, MState,
};

verus! {

/// Why sampling aborted: an interpretation failed, or a sample fell
/// outside the envelope the histogram was allocated for.
#[derive(Debug, Clone, Copy, PartialEq, Eq)]
pub enum SampleError {
    Interp(InterpError),
    OutOfRange,
}

/// How many entries of a sample sequence equal `v`.
pub open spec fn count_of(s: Seq<i64>, v: i64) -> int
    decreases s.len(),
{
    if s.len() == 0 {
        0
    } else {
        count_of(s.drop_last(), v) + (if s.last() == v {
            1int
        } else {
            0int
        })
    }
}

/// The total count of a histogram.
pub open spec fn hist_sum(h: Seq<u64>) -> int
    decreases h.len(),
{
    if h.len() == 0 {
        0
    } else {
        hist_sum(h.drop_last()) + h.last()
    }
}

/// A histogram's count is never negative.
pub proof fn lemma_hist_sum_nonneg(h: Seq<u64>)
    ensures
        hist_sum(h) >= 0,
    decreases h.len(),
{
    if h.len() > 0 {
        lemma_hist_sum_nonneg(h.drop_last());
    }
}

/// No bin exceeds the histogram's total count.
pub proof fn lemma_hist_bin_le_sum(h: Seq<u64>, i: int)
    requires
        0 <= i < h.len(),
    ensures
        h[i] <= hist_sum(h),
    decreases h.len(),
{
    lemma_hist_sum_nonneg(h.drop_last());
    if i < h.len() - 1 {
        lemma_hist_bin_le_sum(h.drop_last(), i);
    }
}

/// Changing one bin changes the total by the same amount.
pub proof fn lemma_hist_sum_update(h: Seq<u64>, i: int, v: u64)
    requires
        0 <= i < h.len(),
    ensures
        hist_sum(h.update(i, v)) == hist_sum(h) - h[i] + v,
    decreases h.len(),
{
    if i == h.len() - 1 {
        assert(h.update(i, v).drop_last() =~= h.drop_last());
    } else {
        assert(h.update(i, v).drop_last() =~= h.drop_last().update(i, v));
        lemma_hist_sum_update(h.drop_last(), i, v);
    }
}

/// Draw `total` samples and count each into its bin (`s - min` for a
/// sample `s`). On success every sample lay inside `[min, max]` and the
/// bins sum to exactly the number of draws.
pub fn sample_histogram(
    d: &SudiceExpression,
    min: i64,
    max: i64,
    total: usize,
    rng: &mut rand::rngs::ThreadRng,
) -> (r: Result<Vec<u64>, SampleError>)
    requires
        min <= max,
        max - min < usize::MAX,
    ensures
        total == 0 ==> r is Ok,
        (r matches Ok(h) ==> h@.len() == max - min + 1 && hist_sum(h@) == total && exists|
            outs: Seq<i64>,
        |
            {
                &&& #[trigger] outs.len() == total
                &&& (forall|k: int| 0 <= k < outs.len() ==> min <= #[trigger] outs[k] <= max)
                &&& (forall|i: int|
                    0 <= i < h@.len() ==> #[trigger] h@[i] == count_of(outs, (min + i) as i64))
            }),
        (r matches Err(e) ==> match e {
            SampleError::Interp(ie) => (if ie == InterpError::StepLimit {
                exists|samples: Seq<i64>, st: MState|
                    #[trigger] steps_to(d.code@, init_mstate(samples), st, u64::MAX as nat)
            } else {
                exists|samples: Seq<i64>, n: nat, st: MState|
                    #[trigger] steps_to(d.code@, init_mstate(samples), st, n) && stuck_with(
                        d.code@,
                        st,
                        ie,
                    )
            }),
            SampleError::OutOfRange => exists|samples: Seq<i64>, n: nat, fin: MState|
                {
                    &&& #[trigger] steps_to(d.code@, init_mstate(samples), fin, n)
                    &&& fin.dcp >= d.code@.len()
                    &&& fin.samples.len() == 0
                    &&& !(min <= collapse_m(fin.tos) <= max)
                },
        }),
{
    let span = (max as i128) - (min as i128);
    let size = (span as usize) + 1;
    let mut hist: Vec<u64> = Vec::new();
    let mut z: usize = 0;
    while z < size
        invariant
            z <= size,
            hist@.len() == z,
            hist_sum(hist@) == 0,
            forall|i: int| 0 <= i < hist@.len() ==> #[trigger] hist@[i] == 0,
        decreases size - z,
    {
        proof {
            assert(hist@.push(0u64).drop_last() =~= hist@);
        }
        hist.push(0);
        z = z + 1;
    }
    let mut cnt: usize = 0;
    let ghost mut outs: Seq<i64> = Seq::empty();
    proof {
        assert(forall|i: int|
            0 <= i < hist@.len() ==> #[trigger] count_of(outs, (min + i) as i64) == 0);
    }
    while cnt < total
        invariant
            cnt <= total,
            min <= max,
            size == max - min + 1,
            hist@.len() == size,
            hist_sum(hist@) == cnt,
            outs.len() == cnt,
            forall|k: int| 0 <= k < outs.len() ==> min <= #[trigger] outs[k] <= max,
            forall|i: int|
                0 <= i < hist@.len() ==> #[trigger] hist@[i] == count_of(outs, (min + i) as i64),
        decreases total - cnt,
    {
        let sval = match interpret(d, rng) {
            Ok(sample) => sample,
            Err(e) => {
                return Err(SampleError::Interp(e));
            },
        };
        if sval < min || sval > max {
            proof {
                let (samples, n, fin) = choose|samples: Seq<i64>, n: nat, fin: MState|
                    {
                        &&& #[trigger] steps_to(d.code@, init_mstate(samples), fin, n)
                        &&& fin.dcp >= d.code@.len()
                        &&& fin.samples.len() == 0
                        &&& collapse_m(fin.tos) == sval
                        &&& crate::interpreter::mstate_sorted(fin)
                    };
                assert(steps_to(d.code@, init_mstate(samples), fin, n) && fin.dcp
                    >= d.code@.len() && fin.samples.len() == 0 && !(min <= collapse_m(fin.tos)
                    <= max));
            }
            return Err(SampleError::OutOfRange);
        }
        let idx = ((sval as i128) - (min as i128)) as usize;
        proof {
            lemma_hist_bin_le_sum(hist@, idx as int);
            lemma_hist_sum_update(hist@, idx as int, (hist@[idx as int] + 1) as u64);
        }
        let ghost prevhist = hist@;
        let bumped = hist[idx] + 1;
        hist[idx] = bumped;
        proof {
            assert(outs.push(sval).drop_last() =~= outs);
            assert forall|i: int| 0 <= i < hist@.len() implies #[trigger] hist@[i] == count_of(
                outs.push(sval),
                (min + i) as i64,
            ) by {
                assert(count_of(outs.push(sval), (min + i) as i64) == count_of(
                    outs,
                    (min + i) as i64,
                ) + (if sval == (min + i) as i64 {
                    1int
                } else {
                    0int
                }));
                assert(prevhist[i] == count_of(outs, (min + i) as i64));
            };
            outs = outs.push(sval);
        }
        cnt = cnt + 1;
    }
    Ok(hist)
}

} // verus!
