use stt_core::engine::{ModelStatus, SttState};
use stt_core::errors::SttError;

const VOCAB: &[u8] = b"<blk> 0\n\xe2\x96\x81hi 5\n\xe2\x96\x81there 6\n";

fn ready_engine() -> SttState {
    let mut e = SttState::new();
    assert_eq!(e.load_models_precheck(true), Ok(true));
    e.load_models(VOCAB, Ok(())).unwrap();
    e
}

#[test]
fn fresh_engine_is_not_downloaded_and_not_recording() {
    let e = SttState::new();
    let st = e.get_status();
    assert!(matches!(st.model_status, ModelStatus::NotDownloaded));
    assert!(!st.is_recording);
}

#[test]
fn start_requires_ready_status() {
    let mut e = SttState::new();
    assert!(matches!(e.start_recording(), Err(SttError::NotReady)));
    let mut r = ready_engine();
    assert!(r.start_recording().is_ok());
    assert!(r.get_status().is_recording);
}

#[test]
fn push_before_start_fails_with_not_recording() {
    let mut e = ready_engine();
    assert!(matches!(e.push_audio(vec![1, 2, 3]), Err(SttError::NotRecording)));
}

#[test]
fn push_after_stop_fails_with_not_recording() {
    let mut e = ready_engine();
    e.start_recording().unwrap();
    e.push_audio(vec![1, 2]).unwrap();
    e.stop_recording();
    assert!(matches!(e.push_audio(vec![3]), Err(SttError::NotRecording)));
}

#[test]
fn stop_right_after_start_yields_empty_and_decodes_to_empty_text() {
    // The recorded sequence is empty, the transcription short-circuits
    // without touching any neural component, and the text is empty.
    let mut e = ready_engine();
    e.start_recording().unwrap();
    let samples = e.stop_recording();
    assert_eq!(samples, Vec::<u32>::new());
    assert_eq!(e.transcribe_precheck(samples.is_empty()), Ok(false));
    assert_eq!(e.detokenize(&vec![]), b"".to_vec());
}

#[test]
fn stop_hands_back_pushed_samples_in_order_and_clears() {
    let mut e = ready_engine();
    e.start_recording().unwrap();
    e.push_audio(vec![10, 20]).unwrap();
    e.push_audio(vec![30]).unwrap();
    assert_eq!(e.stop_recording(), vec![10, 20, 30]);
    // Idempotent: a second stop yields an empty sequence.
    assert_eq!(e.stop_recording(), Vec::<u32>::new());
}

#[test]
fn start_clears_any_earlier_buffer() {
    let mut e = ready_engine();
    e.start_recording().unwrap();
    e.push_audio(vec![1]).unwrap();
    e.stop_recording();
    e.start_recording().unwrap();
    e.push_audio(vec![2]).unwrap();
    assert_eq!(e.stop_recording(), vec![2]);
}

#[test]
fn missing_files_fail_load_and_leave_status() {
    let mut e = SttState::new();
    assert!(matches!(e.load_models_precheck(false), Err(SttError::ModelFilesMissing)));
    assert!(matches!(e.get_status().model_status, ModelStatus::NotDownloaded));
    // From an error state the prior status is kept too.
    e.fail_load("disk gone".to_string());
    assert!(matches!(e.load_models_precheck(false), Err(SttError::ModelFilesMissing)));
    match e.get_status().model_status {
        ModelStatus::Error { message } => assert_eq!(message, "disk gone"),
        _ => panic!("expected Error status"),
    }
}

#[test]
fn successful_load_flips_status_to_ready() {
    let e = ready_engine();
    assert!(matches!(e.get_status().model_status, ModelStatus::Ready));
    assert_eq!(e.blank_id(), 0);
    assert_eq!(e.vocab_size(), 3);
}

#[test]
fn reload_while_ready_is_a_no_op() {
    let e = ready_engine();
    assert_eq!(e.load_models_precheck(true), Ok(false));
    assert_eq!(e.load_models_precheck(false), Ok(false));
}

#[test]
fn bad_vocab_sets_error_and_keeps_previous_table() {
    let mut e = ready_engine();
    // Force a reload path with a broken vocabulary file.
    let r = e.load_models(b"tok notanumber\n", Ok(()));
    assert!(matches!(r, Err(SttError::InvalidVocabEntry { .. })));
    assert!(matches!(e.get_status().model_status, ModelStatus::Error { .. }));
    // The previous table is untouched.
    assert_eq!(e.detokenize(&vec![5, 6]), b"hi there".to_vec());
    // And the engine refuses to transcribe until a successful reload.
    assert!(matches!(e.transcribe_precheck(false), Err(SttError::NotReady)));
}

#[test]
fn failed_components_set_error_with_cause() {
    let mut e = SttState::new();
    let r = e.load_models(VOCAB, Err("bad graph".to_string()));
    match r {
        Err(SttError::InferenceError { message }) => assert_eq!(message, "bad graph"),
        _ => panic!("expected InferenceError"),
    }
    match e.get_status().model_status {
        ModelStatus::Error { message } => assert_eq!(message, "bad graph"),
        _ => panic!("expected Error status"),
    }
    assert!(matches!(e.start_recording(), Err(SttError::NotReady)));
}

#[test]
fn transcribe_precheck_gates_on_components() {
    let mut e = SttState::new();
    assert!(matches!(e.transcribe_precheck(true), Err(SttError::NotReady)));
    e = ready_engine();
    assert_eq!(e.transcribe_precheck(false), Ok(true));
    assert_eq!(e.transcribe_precheck(true), Ok(false));
}

#[test]
fn download_progress_is_reported_in_status() {
    let mut e = SttState::new();
    let half = 0.5f32.to_bits();
    e.note_download_progress(half);
    match e.get_status().model_status {
        ModelStatus::Downloading { progress } => assert_eq!(f32::from_bits(progress), 0.5),
        _ => panic!("expected Downloading status"),
    }
}

#[test]
fn detokenize_through_engine_uses_loaded_table() {
    let e = ready_engine();
    assert_eq!(e.detokenize(&vec![5, 6]), b"hi there".to_vec());
    assert_eq!(e.detokenize(&vec![6, 999, 5]), b"there hi".to_vec());
    assert_eq!(e.detokenize(&vec![999]), b"".to_vec());
}

#[test]
fn error_messages_are_human_readable() {
    assert_eq!(SttError::NotRecording.message(), "Not recording");
    assert_eq!(
        SttError::NotReady.message(),
        "Model not ready. Please download the model first."
    );
    assert_eq!(SttError::ModelFilesMissing.message(), "Models not downloaded");
    assert_eq!(SttError::LockContention.message(), "Lock error");
    assert_eq!(
        SttError::InvalidVocabEntry { field: b"xy".to_vec() }.message(),
        "Invalid vocab ID"
    );
    assert_eq!(
        SttError::InferenceError { message: "boom".to_string() }.message(),
        "boom"
    );
}
