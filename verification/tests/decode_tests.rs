use stt_core::decode::{argmax, DecodeState, MAX_TOKENS_PER_FRAME};

fn emit_logits(vocab_size: usize, token: usize, durations: &[i64]) -> Vec<Option<i64>> {
    let mut v: Vec<Option<i64>> = vec![Some(0); vocab_size];
    v[token] = Some(10);
    for &d in durations {
        v.push(Some(d));
    }
    v
}

#[test]
fn argmax_picks_single_dominant_value() {
    let v = vec![Some(1i64), Some(9), Some(3)];
    assert_eq!(argmax(&v), 1);
}

#[test]
fn argmax_first_index_wins_on_ties() {
    let v = vec![Some(7i64), Some(7), Some(7)];
    assert_eq!(argmax(&v), 0);
    let v2 = vec![Some(1i64), Some(7), Some(7)];
    assert_eq!(argmax(&v2), 1);
}

#[test]
fn argmax_all_incomparable_keeps_index_zero() {
    let v: Vec<Option<i64>> = vec![None, None, None];
    assert_eq!(argmax(&v), 0);
}

#[test]
fn argmax_incomparable_never_displaces() {
    let v = vec![Some(1i64), None, Some(5)];
    assert_eq!(argmax(&v), 2);
    let v2 = vec![None, Some(100i64)];
    assert_eq!(argmax(&v2), 0);
}

#[test]
fn dominant_duration_advances_by_its_index() {
    // Duration logits [0, 1, 9]: the dominant value sits at index 2, so one
    // iteration advances t by exactly 2.
    let mut st = DecodeState::new(5, 5, 2, 0);
    let logits = emit_logits(2, 0, &[0, 1, 9]);
    let adopt = st.step(&logits);
    assert!(!adopt); // token argmax is index 0 == blank
    assert_eq!(st.frame_index(), 2);
    assert_eq!(st.emitted().len(), 0);
}

#[test]
fn blank_with_zero_duration_advances_one_frame() {
    let mut st = DecodeState::new(3, 3, 4, 0);
    let logits = emit_logits(4, 0, &[9, 1]);
    st.step(&logits);
    assert_eq!(st.frame_index(), 1);
}

#[test]
fn two_tokens_at_frame_zero_then_blank() {
    // L = 3, blank id 0: the joint emits token 7 with duration 0 twice at
    // frame 0, then blank; expect tokens [7, 7] before t advances to 1.
    let mut st = DecodeState::new(3, 3, 8, 0);
    let emit7 = emit_logits(8, 7, &[9, 1]);
    let blank = emit_logits(8, 0, &[9, 1]);
    assert!(st.step(&emit7));
    assert_eq!(st.frame_index(), 0);
    assert!(st.step(&emit7));
    assert_eq!(st.frame_index(), 0);
    assert_eq!(st.emitted(), &vec![7i64, 7]);
    assert!(!st.step(&blank));
    assert_eq!(st.frame_index(), 1);
    assert_eq!(st.emitted(), &vec![7i64, 7]);
}

#[test]
fn emission_cap_forces_frame_advance() {
    // A joint that keeps emitting at the same frame is cut off after
    // MAX_TOKENS_PER_FRAME tokens and the frame index moves on.
    let mut st = DecodeState::new(2, 2, 8, 0);
    let emit7 = emit_logits(8, 7, &[9, 1]);
    let mut calls = 0usize;
    while st.frame_index() == 0 {
        st.step(&emit7);
        calls += 1;
        assert!(calls <= MAX_TOKENS_PER_FRAME);
    }
    assert_eq!(calls, MAX_TOKENS_PER_FRAME);
    assert_eq!(st.emitted().len(), MAX_TOKENS_PER_FRAME);
    assert_eq!(st.frame_index(), 1);
}

#[test]
fn always_blank_terminates_after_limit_steps() {
    let mut st = DecodeState::new(4, 7, 3, 0);
    let blank = emit_logits(3, 0, &[9]);
    let mut calls = 0usize;
    while !st.done() {
        st.step(&blank);
        calls += 1;
        assert!(calls <= 4);
    }
    assert_eq!(calls, 4);
    assert_eq!(st.emitted().len(), 0);
    assert_eq!(st.frame_index(), 4);
}

#[test]
fn limit_is_minimum_of_lengths_and_zero_limit_is_done() {
    let st = DecodeState::new(0, 5, 3, 0);
    assert!(st.done());
    let st2 = DecodeState::new(5, 2, 3, 0);
    assert!(!st2.done());
    assert_eq!(st2.frame_index(), 0);
}

#[test]
fn prev_token_is_blank_then_last_emitted() {
    let mut st = DecodeState::new(3, 3, 8, 0);
    assert_eq!(st.prev_token(), 0);
    let emit7 = emit_logits(8, 7, &[9, 1]);
    st.step(&emit7);
    assert_eq!(st.prev_token(), 7);
}

#[test]
fn duration_skip_is_clamped_to_limit() {
    let mut st = DecodeState::new(2, 2, 2, 0);
    let logits = emit_logits(2, 0, &[0, 1, 2, 3, 9]);
    st.step(&logits);
    assert!(st.done());
    assert_eq!(st.frame_index(), 2);
}

#[test]
fn no_duration_logits_means_step_zero() {
    let mut st = DecodeState::new(2, 2, 3, 0);
    let logits: Vec<Option<i64>> = vec![Some(0), Some(0), Some(9)];
    let adopt = st.step(&logits);
    assert!(adopt);
    assert_eq!(st.emitted(), &vec![2i64]);
    assert_eq!(st.frame_index(), 0);
}
