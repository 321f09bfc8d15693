//! The greedy token-and-duration transducer (TDT) decode step.
//!
//! The decoder-joint network itself runs outside this crate; each of its
//! logit values reaches the decoder as an `Option<i64>`: `Some(code)` for a
//! score that compares with others, where the integer codes are ordered
//! exactly as the scores are, and `None` for a score that no other score
//! compares with. The decode loop's driver calls [`DecodeState::step`] once
//! per decoder-joint invocation and owns the recurrent state tensors; the
//! returned flag says whether to adopt the freshly returned recurrent state.

use vstd::prelude::*;

verus! {

/// Cap on tokens emitted at one frame before the frame index is forced ahead.
pub const MAX_TOKENS_PER_FRAME: usize = 10;

/// `a` is strictly greater than `b`: both compare, and `a`'s score is higher.
/// An incomparable score (`None`) is treated as equal to everything, so it
/// never displaces an earlier candidate and is never displaced by one.
pub open spec fn gt_logit(a: Option<i64>, b: Option<i64>) -> bool {
    match (a, b) {
        (Some(x), Some(y)) => x > y,
        _ => false,
    }
}

/// Index of the maximum logit under a left-to-right scan where only a
/// strictly greater value displaces the current best: the first index wins
/// on ties and on incomparable values.
pub open spec fn argmax_idx(s: Seq<Option<i64>>) -> int
    decreases s.len(),
{
    if s.len() <= 1 {
        0
    } else {
        let prev = argmax_idx(s.drop_last());
        if gt_logit(s.last(), s[prev]) {
            s.len() - 1
        } else {
            prev
        }
    }
}

pub proof fn lemma_argmax_in_range(s: Seq<Option<i64>>)
    requires
        s.len() > 0,
    ensures
        0 <= argmax_idx(s) < s.len(),
    decreases s.len(),
{
    if s.len() > 1 {
        lemma_argmax_in_range(s.drop_last());
    }
}

/// A single strictly dominant logit is selected whatever its position.
pub proof fn lemma_argmax_dominant(s: Seq<Option<i64>>, k: int)
    requires
        0 <= k < s.len(),
        forall|j: int| 0 <= j < s.len() && j != k ==> gt_logit(s[k], s[j]),
    ensures
        argmax_idx(s) == k,
    decreases s.len(),
{
    if s.len() > 1 {
        let prev = argmax_idx(s.drop_last());
        lemma_argmax_in_range(s.drop_last());
        if k == s.len() - 1 {
            assert(gt_logit(s[k], s[prev]));
        } else {
            lemma_argmax_dominant(s.drop_last(), k);
            assert(gt_logit(s[k], s[s.len() - 1]));
            assert(!gt_logit(s.last(), s[k]));
        }
    }
}

/// Index of the maximum logit within `v[lo..hi]`, relative to `lo`.
fn argmax_span(v: &[Option<i64>], lo: usize, hi: usize) -> (r: usize)
    requires
        lo < hi <= v@.len(),
    ensures
        lo <= r < hi,
        r - lo == argmax_idx(v@.subrange(lo as int, hi as int)),
{
    let mut best: usize = lo;
    let mut i: usize = lo + 1;
    while i < hi
        invariant
            lo < hi <= v@.len(),
            lo + 1 <= i <= hi,
            lo <= best < i,
            best - lo == argmax_idx(v@.subrange(lo as int, i as int)),
        decreases hi - i,
    {
        proof {
            lemma_argmax_in_range(v@.subrange(lo as int, i as int));
        }
        let replace: bool = match (v[i], v[best]) {
            (Some(x), Some(y)) => x > y,
            _ => false,
        };
        proof {
            let sub1 = v@.subrange(lo as int, i as int + 1);
            assert(sub1.drop_last() =~= v@.subrange(lo as int, i as int));
            assert(sub1.last() == v@[i as int]);
            assert(sub1[best - lo] == v@[best as int]);
        }
        if replace {
            best = i;
        }
        i = i + 1;
    }
    best
}

/// Index of the maximum logit under the decoder's tie rule: the first index
/// wins on ties and on incomparable values.
pub fn argmax(v: &[Option<i64>]) -> (r: usize)
    requires
        v@.len() > 0,
    ensures
        r < v@.len(),
        r as int == argmax_idx(v@),
{
    let r = argmax_span(v, 0, v.len());
    proof {
        assert(v@.subrange(0, v@.len() as int) =~= v@);
    }
    r
}

/// The mathematical state of one decode: frame index `t`, valid frame count
/// `limit`, the emitted token ids, the count of tokens emitted at the
/// current frame, and the fixed vocabulary size and blank id.
#[verifier::ext_equal]
pub ghost struct DecodeModel {
    pub t: int,
    pub limit: int,
    pub tokens: Seq<i64>,
    pub emitted_at_frame: int,
    pub vocab_size: int,
    pub blank_id: i64,
}

impl DecodeModel {
    pub open spec fn wf(self) -> bool {
        &&& 0 <= self.t <= self.limit
        &&& self.limit <= usize::MAX
        &&& 0 <= self.emitted_at_frame < MAX_TOKENS_PER_FRAME
        &&& 0 <= self.vocab_size <= i64::MAX
    }
}

/// The token chosen from a logit vector: the argmax of the first
/// `vocab_size` entries, or the blank id if there are no token logits.
pub open spec fn spec_token_choice(logits: Seq<Option<i64>>, vocab_size: int, blank_id: i64) -> i64 {
    if vocab_size == 0 {
        blank_id
    } else {
        argmax_idx(logits.take(vocab_size)) as i64
    }
}

/// The frame advance chosen from a logit vector: the argmax of the duration
/// logits (everything after the first `vocab_size` entries), or 0 if there
/// are none.
pub open spec fn spec_step_choice(logits: Seq<Option<i64>>, vocab_size: int) -> int {
    let dur = logits.skip(vocab_size);
    if dur.len() == 0 {
        0
    } else {
        argmax_idx(dur)
    }
}

/// One iteration of the greedy TDT loop. A non-blank token is appended and
/// counted at the current frame; then the frame index advances by the
/// duration head's choice if it is positive, else by one on a blank or a
/// full frame, else not at all. The frame index is clamped to `limit`,
/// where the loop ends.
pub open spec fn spec_decode_step(m: DecodeModel, logits: Seq<Option<i64>>) -> DecodeModel {
    let token = spec_token_choice(logits, m.vocab_size, m.blank_id);
    let step = spec_step_choice(logits, m.vocab_size);
    let emit = token != m.blank_id;
    let tokens2 = if emit { m.tokens.push(token) } else { m.tokens };
    let emitted2 = if emit { m.emitted_at_frame + 1 } else { m.emitted_at_frame };
    if step > 0 {
        DecodeModel {
            t: if m.t + step >= m.limit { m.limit } else { m.t + step },
            tokens: tokens2,
            emitted_at_frame: 0,
            ..m
        }
    } else if !emit || emitted2 >= MAX_TOKENS_PER_FRAME {
        DecodeModel { t: m.t + 1, tokens: tokens2, emitted_at_frame: 0, ..m }
    } else {
        DecodeModel { tokens: tokens2, emitted_at_frame: emitted2, ..m }
    }
}

/// Bound on the decoder-joint invocations left in a decode: it strictly
/// decreases at every step, which terminates the loop for any finite limit.
pub open spec fn decode_measure(m: DecodeModel) -> int {
    (m.limit - m.t) * (MAX_TOKENS_PER_FRAME + 1) + (MAX_TOKENS_PER_FRAME - m.emitted_at_frame)
}

/// The decode loop makes progress: across one step the frame index never
/// decreases, the measure strictly decreases and stays non-negative, and at
/// a fixed frame the per-frame emission count grows by one while staying
/// under its cap — so the frame index strictly increases at least once in
/// every `MAX_TOKENS_PER_FRAME + 1` consecutive iterations, and the loop
/// terminates for any finite limit.
pub proof fn lemma_step_progress(m: DecodeModel, logits: Seq<Option<i64>>)
    requires
        m.wf(),
        m.t < m.limit,
        logits.len() >= m.vocab_size,
    ensures
        ({
            let p = spec_decode_step(m, logits);
            &&& p.wf()
            &&& p.limit == m.limit
            &&& p.vocab_size == m.vocab_size
            &&& p.blank_id == m.blank_id
            &&& p.t >= m.t
            &&& 0 <= decode_measure(p) < decode_measure(m)
            &&& (p.t == m.t ==> p.emitted_at_frame == m.emitted_at_frame + 1)
        }),
{
    let vs = m.vocab_size;
    let dur = logits.skip(vs);
    if dur.len() > 0 {
        lemma_argmax_in_range(dur);
    }
}

/// The state after feeding a whole sequence of logit vectors through the
/// decode step, in order.
pub open spec fn spec_decode_run(m: DecodeModel, batches: Seq<Seq<Option<i64>>>) -> DecodeModel
    decreases batches.len(),
{
    if batches.len() == 0 {
        m
    } else {
        spec_decode_step(spec_decode_run(m, batches.drop_last()), batches.last())
    }
}

/// The decode loop terminates for any finite limit: however the
/// decoder-joint network answers, a run that has not yet finished has made
/// at most `decode_measure` steps — on a fresh state, at most
/// `limit * (MAX_TOKENS_PER_FRAME + 1) + MAX_TOKENS_PER_FRAME` of them.
pub proof fn lemma_decode_run_terminates(m: DecodeModel, batches: Seq<Seq<Option<i64>>>)
    requires
        m.wf(),
        forall|p: int| 0 <= p < batches.len() ==> (#[trigger] batches[p]).len() >= m.vocab_size,
        forall|p: int|
            0 <= p < batches.len() ==> (#[trigger] spec_decode_run(m, batches.take(p))).t
                < m.limit,
    ensures
        spec_decode_run(m, batches).wf(),
        spec_decode_run(m, batches).limit == m.limit,
        spec_decode_run(m, batches).vocab_size == m.vocab_size,
        decode_measure(spec_decode_run(m, batches)) <= decode_measure(m) - batches.len(),
        batches.len() <= decode_measure(m),
    decreases batches.len(),
{
    if batches.len() == 0 {
        assert((m.limit - m.t) * (MAX_TOKENS_PER_FRAME + 1) >= 0);
    } else {
        let n = batches.len() as int;
        let pre = batches.drop_last();
        assert(forall|p: int| 0 <= p < pre.len() ==> pre[p] == batches[p]);
        assert forall|p: int| 0 <= p < pre.len() implies (#[trigger] spec_decode_run(
            m,
            pre.take(p),
        )).t < m.limit by {
            assert(pre.take(p) =~= batches.take(p));
        }
        lemma_decode_run_terminates(m, pre);
        let mid = spec_decode_run(m, pre);
        assert(batches.take(n - 1) =~= pre);
        assert(mid.t < m.limit);
        lemma_step_progress(mid, batches.last());
    }
}

/// With a single dominant duration logit at a positive index `k`, one step
/// advances the frame index by exactly `k` (clamped to the limit).
pub proof fn lemma_dominant_duration_advance(m: DecodeModel, logits: Seq<Option<i64>>, k: int)
    requires
        m.wf(),
        m.t < m.limit,
        logits.len() >= m.vocab_size,
        1 <= k < logits.len() - m.vocab_size,
        ({
            let dur = logits.skip(m.vocab_size);
            forall|j: int| 0 <= j < dur.len() && j != k ==> gt_logit(dur[k], dur[j])
        }),
    ensures
        spec_decode_step(m, logits).t == if m.t + k >= m.limit {
            m.limit
        } else {
            m.t + k
        },
{
    let dur = logits.skip(m.vocab_size);
    lemma_argmax_dominant(dur, k);
}

/// The running state of one decode call.
pub struct DecodeState {
    t: usize,
    limit: usize,
    tokens: Vec<i64>,
    emitted_at_frame: usize,
    vocab_size: usize,
    blank_id: i64,
}

impl View for DecodeState {
    type V = DecodeModel;

    closed spec fn view(&self) -> DecodeModel {
        DecodeModel {
            t: self.t as int,
            limit: self.limit as int,
            tokens: self.tokens@,
            emitted_at_frame: self.emitted_at_frame as int,
            vocab_size: self.vocab_size as int,
            blank_id: self.blank_id,
        }
    }
}

impl DecodeState {
    /// A fresh decode over `min(encoded_len, num_frames)` valid frames, with
    /// no tokens emitted yet.
    pub fn new(encoded_len: usize, num_frames: usize, vocab_size: usize, blank_id: i64) -> (s:
        DecodeState)
        requires
            vocab_size as int <= i64::MAX,
        ensures
            s@.wf(),
            s@.t == 0,
            s@.limit == if encoded_len <= num_frames {
                encoded_len as int
            } else {
                num_frames as int
            },
            s@.tokens == Seq::<i64>::empty(),
            s@.emitted_at_frame == 0,
            s@.vocab_size == vocab_size as int,
            s@.blank_id == blank_id,
    {
        let limit: usize = if encoded_len <= num_frames {
            encoded_len
        } else {
            num_frames
        };
        DecodeState { t: 0, limit, tokens: Vec::new(), emitted_at_frame: 0, vocab_size, blank_id }
    }

    /// True once the frame index has reached the valid frame count.
    pub fn done(&self) -> (r: bool)
        ensures
            r == (self@.t >= self@.limit),
    {
        self.t >= self.limit
    }

    /// The token id handed to the decoder-joint network as context: the last
    /// emitted token, or the blank id while nothing has been emitted.
    pub fn prev_token(&self) -> (r: i64)
        ensures
            r == if self@.tokens.len() == 0 {
                self@.blank_id
            } else {
                self@.tokens.last()
            },
    {
        if self.tokens.len() == 0 {
            self.blank_id
        } else {
            self.tokens[self.tokens.len() - 1]
        }
    }

    /// The current frame index.
    pub fn frame_index(&self) -> (r: usize)
        ensures
            r as int == self@.t,
    {
        self.t
    }

    /// The tokens emitted so far, in emission order.
    pub fn emitted(&self) -> (r: &Vec<i64>)
        ensures
            r@ == self@.tokens,
    {
        &self.tokens
    }

    /// One iteration of the decode loop on the logit vector the
    /// decoder-joint network returned for the current frame. Returns whether
    /// a token was emitted, in which case the driver must adopt the
    /// network's freshly returned recurrent state.
    pub fn step(&mut self, logits: &[Option<i64>]) -> (adopt: bool)
        requires
            old(self)@.wf(),
            old(self)@.t < old(self)@.limit,
            logits@.len() >= old(self)@.vocab_size,
        ensures
            final(self)@ == spec_decode_step(old(self)@, logits@),
            final(self)@.wf(),
            adopt == (spec_token_choice(logits@, old(self)@.vocab_size, old(self)@.blank_id)
                != old(self)@.blank_id),
    {
        let ghost pre = self@;
        let token: i64 = if self.vocab_size == 0 {
            self.blank_id
        } else {
            proof {
                assert(logits@.subrange(0, self.vocab_size as int) =~= logits@.take(
                    self.vocab_size as int));
            }
            argmax_span(logits, 0, self.vocab_size) as i64
        };
        let step_amt: usize = if logits.len() > self.vocab_size {
            proof {
                assert(logits@.subrange(self.vocab_size as int, logits@.len() as int) =~= logits@.skip(
                    self.vocab_size as int));
            }
            argmax_span(logits, self.vocab_size, logits.len()) - self.vocab_size
        } else {
            0
        };
        let emit: bool = token != self.blank_id;
        if emit {
            self.tokens.push(token);
            self.emitted_at_frame = self.emitted_at_frame + 1;
        }
        if step_amt > 0 {
            if step_amt >= self.limit - self.t {
                self.t = self.limit;
            } else {
                self.t = self.t + step_amt;
            }
            self.emitted_at_frame = 0;
        } else if !emit || self.emitted_at_frame >= MAX_TOKENS_PER_FRAME {
            self.t = self.t + 1;
            self.emitted_at_frame = 0;
        }
        proof {
            assert(self@ =~= spec_decode_step(pre, logits@));
            lemma_step_progress(pre, logits@);
        }
        emit
    }
}

} // verus!
