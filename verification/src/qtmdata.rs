//! Performance metrics over a solved model.
//!
//! Every metric is a pure function of the configuration and the most
//! recent stationary distribution.  Each one is a weighted sum of the
//! state probabilities; the weights follow the counters of the model:
//! saturating at the queue capacity, at the channel count, at one more
//! than the channel count, or not at all.
//!
//! The executable sums run the spec fold `wsum` literally, without
//! re-normalising, so each metric returns exactly its spec value and
//! fails with `NumericOverflow` exactly when that fold leaves `i128`
//! (`wsum_fits`): success is owed whenever the exact computation fits
//! the machine.

use vstd::prelude::*;

use crate::linalg::{rvec, seq_pos, vec_wf};
use crate::rational::{
    add_frac, fits_i128, frac_int, frac_new, lemma_pos_mul, lemma_q_add_le, lemma_q_scale_le,
    mul_frac, q_add, q_int, q_le, q_mul, q_one, q_pos, q_sub, q_zero, sub_frac, Frac, Ratio,
};
use crate::qtmcore::{imax, imin, Qtm, QtmError};

verus! {

/// How the weight of a state in a metric sum grows with the position.
#[derive(Clone, Copy, PartialEq, Eq, Structural, Debug)]
pub enum WeightKind {
    /// `max(min(t + 1, bound), 1)`: the queue-length weight.
    QueueBound,
    /// `min(t, bound)`: an occupancy weight saturating at `bound`.
    Capped,
    /// `t` itself: plain occupancy.
    Linear,
}

pub open spec fn weight_at(kind: WeightKind, bound: int, t: int) -> int {
    match kind {
        WeightKind::QueueBound => imax(imin(t + 1, bound), 1),
        WeightKind::Capped => imin(t, bound),
        WeightKind::Linear => t,
    }
}

/// Weighted sum of the ratios of `s`, position `t` weighted by
/// `weight_at(kind, bound, t)`.
pub open spec fn wsum(s: Seq<Ratio>, kind: WeightKind, bound: int) -> Ratio
    decreases s.len(),
{
    if s.len() == 0 {
        q_zero()
    } else {
        q_add(
            wsum(s.drop_last(), kind, bound),
            q_mul(q_int(weight_at(kind, bound, s.len() - 1)), s.last()),
        )
    }
}

/// Every intermediate of the exact left fold `wsum` fits `i128`: the
/// weighted term and each component of the running addition.
pub open spec fn wsum_fits(s: Seq<Ratio>, kind: WeightKind, bound: int) -> bool
    decreases s.len(),
{
    if s.len() == 0 {
        true
    } else {
        let pre = s.drop_last();
        let acc = wsum(pre, kind, bound);
        let t = q_mul(q_int(weight_at(kind, bound, s.len() - 1)), s.last());
        &&& wsum_fits(pre, kind, bound)
        &&& fits_i128(t.n)
        &&& fits_i128(t.d)
        &&& fits_i128(acc.n * t.d)
        &&& fits_i128(t.n * acc.d)
        &&& fits_i128(acc.n * t.d + t.n * acc.d)
        &&& fits_i128(acc.d * t.d)
    }
}

/// A fold that fits also fits on every prefix.
pub proof fn lemma_wsum_fits_prefix(s: Seq<Ratio>, kind: WeightKind, bound: int, k: int)
    requires
        wsum_fits(s, kind, bound),
        0 <= k <= s.len(),
    ensures
        wsum_fits(s.take(k), kind, bound),
    decreases s.len(),
{
    if k == s.len() {
        assert(s.take(k) =~= s);
    } else {
        lemma_wsum_fits_prefix(s.drop_last(), kind, bound, k);
        assert(s.drop_last().take(k) =~= s.take(k));
    }
}


/// A pointwise-smaller weight gives a smaller weighted sum of
/// non-negative probabilities: the capped occupancy fold stays below the
/// plain one.
pub proof fn lemma_wsum_capped_le_linear(s: Seq<Ratio>, bound: int)
    requires
        seq_pos(s),
        forall|i: int| 0 <= i < s.len() ==> (#[trigger] s[i]).n >= 0,
    ensures
        q_le(wsum(s, WeightKind::Capped, bound), wsum(s, WeightKind::Linear, 0)),
    decreases s.len(),
{
    if s.len() > 0 {
        let pre = s.drop_last();
        lemma_wsum_capped_le_linear(pre, bound);
        let t = s.len() - 1;
        let w1 = weight_at(WeightKind::Capped, bound, t);
        let w2 = weight_at(WeightKind::Linear, 0, t);
        lemma_q_scale_le(w1, w2, s.last());
        lemma_wsum_pos(pre, WeightKind::Capped, bound);
        lemma_wsum_pos(pre, WeightKind::Linear, 0);
        lemma_pos_mul(1, s.last().d);
        lemma_q_add_le(
            wsum(pre, WeightKind::Capped, bound),
            wsum(pre, WeightKind::Linear, 0),
            q_mul(q_int(w1), s.last()),
            q_mul(q_int(w2), s.last()),
        );
    }
}

/// The expected number of requests in service never exceeds the expected
/// occupancy: its weight saturates while the occupancy weight does not.
pub proof fn lemma_avg_count_served_le_total(fs: Seq<Ratio>, c: int)
    requires
        seq_pos(fs),
        forall|i: int| 0 <= i < fs.len() ==> (#[trigger] fs[i]).n >= 0,
    ensures
        q_le(avg_count_served_spec(fs, c), avg_count_spec(fs)),
{
    lemma_wsum_capped_le_linear(fs, c + 1);
}

/// Positivity of the weighted fold, needed to chain its comparisons.
pub proof fn lemma_wsum_pos(s: Seq<Ratio>, kind: WeightKind, bound: int)
    requires
        seq_pos(s),
    ensures
        q_pos(wsum(s, kind, bound)),
    decreases s.len(),
{
    if s.len() > 0 {
        lemma_wsum_pos(s.drop_last(), kind, bound);
        lemma_pos_mul(wsum(s.drop_last(), kind, bound).d, s.last().d);
    }
}

fn weight_exec(kind: WeightKind, bound: usize, t: usize) -> (w: usize)
    requires
        t < usize::MAX,
    ensures
        w as int == weight_at(kind, bound as int, t as int),
{
    match kind {
        WeightKind::QueueBound => {
            let a = if t + 1 < bound {
                t + 1
            } else {
                bound
            };
            if a < 1 {
                1
            } else {
                a
            }
        },
        WeightKind::Capped => {
            if t < bound {
                t
            } else {
                bound
            }
        },
        WeightKind::Linear => t,
    }
}

/// Exact weighted sum of `fs[start..]`, running the `wsum` fold
/// literally: the result is its exact value, and the call fails if and
/// only if that fold leaves `i128`.
fn wsum_exec(fs: &Vec<Frac>, start: usize, kind: WeightKind, bound: usize) -> (r: Option<Frac>)
    requires
        vec_wf(fs@),
        start <= fs@.len(),
        fs@.len() < usize::MAX,
    ensures
        r matches Some(f) ==> f.wf() && f@ == wsum(
            rvec(fs@).subrange(start as int, fs@.len() as int),
            kind,
            bound as int,
        ),
        r is Some <==> wsum_fits(
            rvec(fs@).subrange(start as int, fs@.len() as int),
            kind,
            bound as int,
        ),
{
    let ghost s = rvec(fs@).subrange(start as int, fs@.len() as int);
    let mut acc = frac_int(0);
    let mut k: usize = start;
    proof {
        assert(s.take(0) =~= Seq::<Ratio>::empty());
    }
    while k < fs.len()
        invariant
            vec_wf(fs@),
            start <= k <= fs@.len(),
            fs@.len() < usize::MAX,
            s == rvec(fs@).subrange(start as int, fs@.len() as int),
            acc.wf(),
            acc@ == wsum(s.take(k - start), kind, bound as int),
            wsum_fits(s.take(k - start), kind, bound as int),
        decreases fs.len() - k,
    {
        let t = k - start;
        let w = weight_exec(kind, bound, t);
        let ghost pre = s.take(t as int);
        let ghost post = s.take(t as int + 1);
        proof {
            assert(post.drop_last() =~= pre);
            assert(post.last() == fs@[k as int]@);
        }
        let term = match mul_frac(frac_int(w as i128), fs[k]) {
            Some(f) => f,
            None => {
                proof {
                    if wsum_fits(s, kind, bound as int) {
                        lemma_wsum_fits_prefix(s, kind, bound as int, t as int + 1);
                    }
                }
                return None;
            },
        };
        let s1 = match add_frac(acc, term) {
            Some(f) => f,
            None => {
                proof {
                    if wsum_fits(s, kind, bound as int) {
                        lemma_wsum_fits_prefix(s, kind, bound as int, t as int + 1);
                    }
                }
                return None;
            },
        };
        proof {
            assert(term@ == q_mul(q_int(weight_at(kind, bound as int, t as int)), post.last()));
            assert(s1@ == wsum(post, kind, bound as int));
        }
        acc = s1;
        k = k + 1;
    }
    proof {
        assert(s.take(s.len() as int) =~= s);
    }
    Some(acc)
}

/// Average number of waiting customers: states beyond the busy servers,
/// weighted by the queue position, saturating at the queue capacity.
pub open spec fn avg_queue_spec(fs: Seq<Ratio>, c: int, qs: int) -> Ratio {
    wsum(fs.subrange(c + 1, fs.len() as int), WeightKind::QueueBound, qs)
}

/// Normalized occupancy: every state weighted by `min(t, c)`, divided by
/// the channel count.
pub open spec fn ete_spec(fs: Seq<Ratio>, c: int) -> Ratio {
    q_mul(wsum(fs, WeightKind::Capped, c), Ratio { n: 1, d: c })
}

/// Average waiting time: `avg_queue / c * mu`.
pub open spec fn avg_time_queue_spec(fs: Seq<Ratio>, c: int, qs: int, mu: Ratio) -> Ratio {
    q_mul(q_mul(avg_queue_spec(fs, c, qs), Ratio { n: 1, d: c }), mu)
}

/// Fraction of requests that are served: one minus the blocking
/// probability, the probability of the fullest state.
pub open spec fn perc_served_spec(fs: Seq<Ratio>) -> Ratio {
    q_sub(q_one(), fs.last())
}

/// Expected number of requests in service: occupancy capped at `c + 1`.
pub open spec fn avg_count_served_spec(fs: Seq<Ratio>, c: int) -> Ratio {
    wsum(fs, WeightKind::Capped, c + 1)
}

/// Expected occupancy.
pub open spec fn avg_count_spec(fs: Seq<Ratio>) -> Ratio {
    wsum(fs, WeightKind::Linear, 0)
}

/// The queue-length fold of a solved model fits the machine.
pub open spec fn avg_queue_fits(fs: Seq<Ratio>, c: int, qs: int) -> bool {
    wsum_fits(fs.subrange(c + 1, fs.len() as int), WeightKind::QueueBound, qs)
}

/// The metric functions; all of them are pure and may be called in any
/// order, any number of times.
pub struct QtmData {}

impl QtmData {
    /// Average queue length.  Zero whenever the queue has no capacity:
    /// with `queue_size == 0` the model is a pure loss system, and then
    /// success is unconditional.
    pub fn calc_avg_queue(qtm: &Qtm) -> (r: Result<Frac, QtmError>)
        requires
            qtm.wf(),
        ensures
            !qtm.solved() <==> r == Err::<Frac, QtmError>(QtmError::UninitializedState),
            r matches Ok(v) ==> v.wf() && v@ == avg_queue_spec(
                rvec(qtm.final_states@),
                qtm.channel_count as int,
                qtm.queue_size as int,
            ) && (qtm.queue_size == 0 ==> v@ == q_zero()),
            r matches Err(e) ==> e == QtmError::UninitializedState || e
                == QtmError::NumericOverflow,
            qtm.solved() ==> (r is Ok <==> avg_queue_fits(
                rvec(qtm.final_states@),
                qtm.channel_count as int,
                qtm.queue_size as int,
            )),
            qtm.solved() && qtm.queue_size == 0 ==> r is Ok,
    {
        if qtm.final_states.len() == 0 {
            return Err(QtmError::UninitializedState);
        }
        let start = qtm.channel_count + 1;
        match wsum_exec(&qtm.final_states, start, WeightKind::QueueBound, qtm.queue_size) {
            Some(f) => {
                proof {
                    if qtm.queue_size == 0 {
                        let sub = rvec(qtm.final_states@).subrange(
                            qtm.channel_count + 1,
                            qtm.final_states@.len() as int,
                        );
                        assert(sub.len() == 0);
                    }
                }
                Ok(f)
            },
            None => Err(QtmError::NumericOverflow),
        }
    }

    /// Normalized occupancy (occupancy capped at the channel count,
    /// divided by the channel count).  Fails only when the exact fold or
    /// the final division leaves `i128`.
    pub fn calc_ete(qtm: &Qtm) -> (r: Result<Frac, QtmError>)
        requires
            qtm.wf(),
        ensures
            !qtm.solved() <==> r == Err::<Frac, QtmError>(QtmError::UninitializedState),
            r matches Ok(v) ==> v.wf() && v@ == ete_spec(
                rvec(qtm.final_states@),
                qtm.channel_count as int,
            ),
            r matches Err(e) ==> e == QtmError::UninitializedState || e
                == QtmError::NumericOverflow,
            qtm.solved() ==> (r is Ok <==> wsum_fits(
                rvec(qtm.final_states@),
                WeightKind::Capped,
                qtm.channel_count as int,
            ) && fits_i128(
                wsum(rvec(qtm.final_states@), WeightKind::Capped, qtm.channel_count as int).d
                    * qtm.channel_count,
            )),
    {
        if qtm.final_states.len() == 0 {
            return Err(QtmError::UninitializedState);
        }
        proof {
            assert(rvec(qtm.final_states@).subrange(0, rvec(qtm.final_states@).len() as int)
                =~= rvec(qtm.final_states@));
        }
        let acc = match wsum_exec(&qtm.final_states, 0, WeightKind::Capped, qtm.channel_count) {
            Some(f) => f,
            None => return Err(QtmError::NumericOverflow),
        };
        let inv_c = frac_new(1, qtm.channel_count as i128);
        match mul_frac(acc, inv_c) {
            Some(f) => Ok(f),
            None => Err(QtmError::NumericOverflow),
        }
    }

    /// Average time spent in the queue: `avg_queue / c * mu`.  Fails only
    /// when the exact queue fold, the division by the channel count, or
    /// the multiplication by the service rate leaves `i128`.
    pub fn calc_avg_time_queue(qtm: &Qtm) -> (r: Result<Frac, QtmError>)
        requires
            qtm.wf(),
        ensures
            !qtm.solved() <==> r == Err::<Frac, QtmError>(QtmError::UninitializedState),
            r matches Ok(v) ==> v.wf() && v@ == avg_time_queue_spec(
                rvec(qtm.final_states@),
                qtm.channel_count as int,
                qtm.queue_size as int,
                qtm.mu@,
            ),
            r matches Err(e) ==> e == QtmError::UninitializedState || e
                == QtmError::NumericOverflow,
            qtm.solved() ==> {
                let aq = avg_queue_spec(
                    rvec(qtm.final_states@),
                    qtm.channel_count as int,
                    qtm.queue_size as int,
                );
                let t1 = q_mul(aq, Ratio { n: 1, d: qtm.channel_count as int });
                r is Ok <==> avg_queue_fits(
                    rvec(qtm.final_states@),
                    qtm.channel_count as int,
                    qtm.queue_size as int,
                ) && fits_i128(aq.d * qtm.channel_count) && fits_i128(t1.n * qtm.mu.num)
                    && fits_i128(t1.d * qtm.mu.den)
            },
    {
        let aq = match Self::calc_avg_queue(qtm) {
            Ok(f) => f,
            Err(e) => return Err(e),
        };
        let inv_c = frac_new(1, qtm.channel_count as i128);
        let t1 = match mul_frac(aq, inv_c) {
            Some(f) => f,
            None => return Err(QtmError::NumericOverflow),
        };
        match mul_frac(t1, qtm.mu) {
            Some(f) => Ok(f),
            None => Err(QtmError::NumericOverflow),
        }
    }

    /// Fraction of requests served: one minus the blocking probability.
    /// On a solved model the single exact subtraction succeeds if and
    /// only if it fits `i128`.
    pub fn calc_perc_served_req(qtm: &Qtm) -> (r: Result<Frac, QtmError>)
        requires
            qtm.wf(),
        ensures
            !qtm.solved() <==> r == Err::<Frac, QtmError>(QtmError::UninitializedState),
            r matches Ok(v) ==> v.wf() && v@ == perc_served_spec(rvec(qtm.final_states@)),
            r matches Err(e) ==> e == QtmError::UninitializedState || e
                == QtmError::NumericOverflow,
            qtm.solved() ==> (r is Ok <==> qtm.final_states@.last().num != i128::MIN
                && qtm.final_states@.last().den - qtm.final_states@.last().num <= i128::MAX),
    {
        let len = qtm.final_states.len();
        if len == 0 {
            return Err(QtmError::UninitializedState);
        }
        let last = qtm.final_states[len - 1];
        let one = frac_int(1);
        proof {
            assert(qtm.final_states@.last() == qtm.final_states@[len - 1]);
        }
        match sub_frac(one, last) {
            Some(f) => {
                proof {
                    assert(rvec(qtm.final_states@).last() == qtm.final_states@[len - 1]@);
                }
                Ok(f)
            },
            None => Err(QtmError::NumericOverflow),
        }
    }

    /// Expected number of requests in service.  Fails only when the
    /// exact fold leaves `i128`.
    pub fn calc_avg_count_served_req(qtm: &Qtm) -> (r: Result<Frac, QtmError>)
        requires
            qtm.wf(),
        ensures
            !qtm.solved() <==> r == Err::<Frac, QtmError>(QtmError::UninitializedState),
            r matches Ok(v) ==> v.wf() && v@ == avg_count_served_spec(
                rvec(qtm.final_states@),
                qtm.channel_count as int,
            ),
            r matches Err(e) ==> e == QtmError::UninitializedState || e
                == QtmError::NumericOverflow,
            qtm.solved() ==> (r is Ok <==> wsum_fits(
                rvec(qtm.final_states@),
                WeightKind::Capped,
                qtm.channel_count + 1,
            )),
    {
        if qtm.final_states.len() == 0 {
            return Err(QtmError::UninitializedState);
        }
        proof {
            assert(rvec(qtm.final_states@).subrange(0, rvec(qtm.final_states@).len() as int)
                =~= rvec(qtm.final_states@));
        }
        match wsum_exec(&qtm.final_states, 0, WeightKind::Capped, qtm.channel_count + 1) {
            Some(f) => Ok(f),
            None => Err(QtmError::NumericOverflow),
        }
    }

    /// Expected occupancy.  Fails only when the exact fold leaves `i128`.
    pub fn calc_avg_count_req(qtm: &Qtm) -> (r: Result<Frac, QtmError>)
        requires
            qtm.wf(),
        ensures
            !qtm.solved() <==> r == Err::<Frac, QtmError>(QtmError::UninitializedState),
            r matches Ok(v) ==> v.wf() && v@ == avg_count_spec(rvec(qtm.final_states@)),
            r matches Err(e) ==> e == QtmError::UninitializedState || e
                == QtmError::NumericOverflow,
            qtm.solved() ==> (r is Ok <==> wsum_fits(
                rvec(qtm.final_states@),
                WeightKind::Linear,
                0,
            )),
    {
        if qtm.final_states.len() == 0 {
            return Err(QtmError::UninitializedState);
        }
        proof {
            assert(rvec(qtm.final_states@).subrange(0, rvec(qtm.final_states@).len() as int)
                =~= rvec(qtm.final_states@));
        }
        match wsum_exec(&qtm.final_states, 0, WeightKind::Linear, 0) {
            Some(f) => Ok(f),
            None => Err(QtmError::NumericOverflow),
        }
    }
}

} // verus!
