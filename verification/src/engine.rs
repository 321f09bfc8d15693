//! The engine: the recording state machine and the model lifecycle, plus the
//! detokenizing entry the transcription driver uses.
//!
//! The engine never touches tensors, files or the network itself. A driver
//! owns those and reports their outcomes as plain values: whether the
//! resource files are present, the bytes of the vocabulary file, whether the
//! neural components initialized. Audio samples are carried opaquely as the
//! bit patterns of 32-bit floats; this crate never interprets them.

use crate::errors::SttError;
use crate::vocab::{normalize_ws, parse_vocab, raw_detok, VocabModel, Vocabulary};
use vstd::prelude::*;

verus! {

/// The mathematical form of a [`ModelStatus`].
pub ghost enum StatusModel {
    NotDownloaded,
    Downloading { progress: u32 },
    Ready,
    Error { message: Seq<char> },
}

/// The lifecycle status of the inference components. The download progress
/// fraction is carried as the bit pattern of the 32-bit float the retriever
/// reported; this crate never interprets it.
#[derive(Debug)]
pub enum ModelStatus {
    NotDownloaded,
    Downloading { progress: u32 },
    Ready,
    Error { message: String },
}

impl View for ModelStatus {
    type V = StatusModel;

    open spec fn view(&self) -> StatusModel {
        match self {
            ModelStatus::NotDownloaded => StatusModel::NotDownloaded,
            ModelStatus::Downloading { progress } => StatusModel::Downloading {
                progress: *progress,
            },
            ModelStatus::Ready => StatusModel::Ready,
            ModelStatus::Error { message } => StatusModel::Error { message: message@ },
        }
    }
}

/// A read-only snapshot of the engine: the model status and whether the
/// recorder is armed.
pub struct SttStatus {
    pub model_status: ModelStatus,
    pub is_recording: bool,
}

/// The mathematical state of the engine.
#[verifier::ext_equal]
pub ghost struct EngineModel {
    /// The samples accumulated while armed, as 32-bit codes.
    pub audio: Seq<u32>,
    /// Whether the recorder is armed.
    pub recording: bool,
    /// The loaded vocabulary.
    pub vocab: VocabModel,
    /// The lifecycle status.
    pub status: StatusModel,
    /// Whether the neural components are initialized; they are exactly when
    /// a load has fully succeeded and nothing failed since.
    pub components_loaded: bool,
}

impl EngineModel {
    /// Initialized components imply a `Ready` status.
    pub open spec fn wf(self) -> bool {
        self.components_loaded ==> self.status is Ready
    }
}

/// The engine: one instance owns the recording buffer, the vocabulary and
/// the lifecycle status. A driver serializes access to it with one exclusive
/// lock per operation.
pub struct SttState {
    audio_buffer: Vec<u32>,
    is_recording: bool,
    vocab: Vocabulary,
    model_status: ModelStatus,
    components_loaded: bool,
}

impl View for SttState {
    type V = EngineModel;

    closed spec fn view(&self) -> EngineModel {
        EngineModel {
            audio: self.audio_buffer@,
            recording: self.is_recording,
            vocab: self.vocab@,
            status: self.model_status@,
            components_loaded: self.components_loaded,
        }
    }
}

impl SttState {
    /// A fresh engine: nothing downloaded, nothing recorded, an empty
    /// vocabulary.
    pub fn new() -> (s: SttState)
        ensures
            s@ == (EngineModel {
                audio: Seq::<u32>::empty(),
                recording: false,
                vocab: VocabModel { table: Map::<i64, Seq<u8>>::empty(), blank_id: 0 },
                status: StatusModel::NotDownloaded,
                components_loaded: false,
            }),
            s@.wf(),
    {
        let s = SttState {
            audio_buffer: Vec::new(),
            is_recording: false,
            vocab: Vocabulary::new(),
            model_status: ModelStatus::NotDownloaded,
            components_loaded: false,
        };
        proof {
            assert(s@ =~= (EngineModel {
                audio: Seq::<u32>::empty(),
                recording: false,
                vocab: VocabModel { table: Map::<i64, Seq<u8>>::empty(), blank_id: 0 },
                status: StatusModel::NotDownloaded,
                components_loaded: false,
            }));
        }
        s
    }

    /// A read-only snapshot: the current status and whether the recorder is
    /// armed.
    pub fn get_status(&self) -> (r: SttStatus)
        ensures
            r.model_status@ == self@.status,
            r.is_recording == self@.recording,
    {
        let model_status = match &self.model_status {
            ModelStatus::NotDownloaded => ModelStatus::NotDownloaded,
            ModelStatus::Downloading { progress } => ModelStatus::Downloading {
                progress: *progress,
            },
            ModelStatus::Ready => ModelStatus::Ready,
            ModelStatus::Error { message } => ModelStatus::Error { message: message.clone() },
        };
        SttStatus { model_status, is_recording: self.is_recording }
    }

    /// Arms the recorder on a fresh buffer; refused with `NotReady` unless
    /// the status is `Ready`.
    pub fn start_recording(&mut self) -> (r: Result<(), SttError>)
        ensures
            (old(self)@.status is Ready) <==> (r is Ok),
            r is Ok ==> final(self)@ == (EngineModel {
                audio: Seq::<u32>::empty(),
                recording: true,
                ..old(self)@
            }),
            r is Err ==> *final(self) == *old(self) && r matches Err(SttError::NotReady),
    {
        match self.model_status {
            ModelStatus::Ready => {
                self.audio_buffer.clear();
                self.is_recording = true;
                proof {
                    assert(self@ =~= (EngineModel {
                        audio: Seq::<u32>::empty(),
                        recording: true,
                        ..old(self)@
                    }));
                }
                Ok(())
            },
            _ => Err(SttError::NotReady),
        }
    }

    /// Appends samples to the buffer; refused with `NotRecording` unless the
    /// recorder is armed. No upper bound is enforced.
    pub fn push_audio(&mut self, samples: Vec<u32>) -> (r: Result<(), SttError>)
        ensures
            old(self)@.recording <==> (r is Ok),
            r is Ok ==> final(self)@ == (EngineModel {
                audio: old(self)@.audio + samples@,
                ..old(self)@
            }),
            r is Err ==> *final(self) == *old(self) && r matches Err(SttError::NotRecording),
    {
        if !self.is_recording {
            return Err(SttError::NotRecording);
        }
        let ghost given = samples@;
        let mut samples = samples;
        self.audio_buffer.append(&mut samples);
        proof {
            assert(self@ =~= (EngineModel { audio: old(self)@.audio + given, ..old(self)@ }));
        }
        Ok(())
    }

    /// Disarms the recorder and hands the accumulated samples to the caller,
    /// leaving the buffer empty. Idempotent: while already disarmed it
    /// returns an empty sequence.
    pub fn stop_recording(&mut self) -> (samples: Vec<u32>)
        ensures
            samples@ == old(self)@.audio,
            final(self)@ == (EngineModel {
                audio: Seq::<u32>::empty(),
                recording: false,
                ..old(self)@
            }),
    {
        self.is_recording = false;
        let mut out: Vec<u32> = Vec::new();
        core::mem::swap(&mut out, &mut self.audio_buffer);
        proof {
            assert(self@ =~= (EngineModel {
                audio: Seq::<u32>::empty(),
                recording: false,
                ..old(self)@
            }));
        }
        out
    }

    /// The test a load request passes first. With the components already
    /// initialized a reload is a no-op (`Ok(false)`): they may be backed by
    /// memory-mapped resources that must not be overwritten while in use.
    /// Otherwise a missing resource file refuses the load with
    /// `ModelFilesMissing`, leaving the status as it was; `Ok(true)` says to
    /// proceed.
    pub fn load_models_precheck(&self, files_present: bool) -> (r: Result<bool, SttError>)
        ensures
            self@.components_loaded ==> r == Ok::<bool, SttError>(false),
            !self@.components_loaded && !files_present ==> r matches Err(
                SttError::ModelFilesMissing,
            ),
            !self@.components_loaded && files_present ==> r == Ok::<bool, SttError>(true),
    {
        if self.components_loaded {
            Ok(false)
        } else if !files_present {
            Err(SttError::ModelFilesMissing)
        } else {
            Ok(true)
        }
    }

    /// Completes a load from the vocabulary file's bytes and the outcome of
    /// initializing the three neural components. On full success the parsed
    /// vocabulary replaces the table wholesale and the status flips to
    /// `Ready`; any failure leaves the previous vocabulary untouched, no
    /// component considered usable, and the status at `Error` with the
    /// cause.
    pub fn load_models(&mut self, vocab_text: &[u8], components: Result<(), String>) -> (r: Result<
        (),
        SttError,
    >)
        ensures
            final(self)@.audio == old(self)@.audio,
            final(self)@.recording == old(self)@.recording,
            final(self)@.wf(),
            (r is Ok) <==> (parse_vocab(vocab_text@) is Ok && components is Ok),
            r is Ok ==> (parse_vocab(vocab_text@) matches Ok(m) && final(self)@.vocab == m
                && final(self)@.status is Ready && final(self)@.components_loaded),
            parse_vocab(vocab_text@) matches Err(f) ==> r matches Err(
                SttError::InvalidVocabEntry { field },
            ) && field@ == f && final(self)@.vocab == old(self)@.vocab
                && !final(self)@.components_loaded && final(self)@.status == (StatusModel::Error {
                message: "Invalid vocab ID"@,
            }),
            components matches Err(m) ==> parse_vocab(vocab_text@) is Ok ==> (r matches Err(
                SttError::InferenceError { message },
            ) && message@ == m@ && final(self)@.vocab == old(self)@.vocab
                && !final(self)@.components_loaded && final(self)@.status == (StatusModel::Error {
                message: m@,
            })),
    {
        match Vocabulary::parse(vocab_text) {
            Err(e) => {
                self.model_status = ModelStatus::Error { message: "Invalid vocab ID".to_owned() };
                self.components_loaded = false;
                Err(e)
            },
            Ok(v) => match components {
                Err(m) => {
                    let report = m.clone();
                    self.model_status = ModelStatus::Error { message: m };
                    self.components_loaded = false;
                    Err(SttError::InferenceError { message: report })
                },
                Ok(()) => {
                    self.vocab = v;
                    self.model_status = ModelStatus::Ready;
                    self.components_loaded = true;
                    Ok(())
                },
            },
        }
    }

    /// Records a failure of the surrounding load work (an unreadable file,
    /// a component that would not initialize before the vocabulary was
    /// reached): the status flips to `Error` with the cause and no component
    /// is considered usable.
    pub fn fail_load(&mut self, message: String)
        ensures
            final(self)@ == (EngineModel {
                status: StatusModel::Error { message: message@ },
                components_loaded: false,
                ..old(self)@
            }),
            final(self)@.wf(),
    {
        self.model_status = ModelStatus::Error { message };
        self.components_loaded = false;
        proof {
            assert(self@ =~= (EngineModel {
                status: self@.status,
                components_loaded: false,
                ..old(self)@
            }));
        }
    }

    /// Records the asset retriever's progress report. The retriever only
    /// runs while the components are uninitialized.
    pub fn note_download_progress(&mut self, progress: u32)
        requires
            !old(self)@.components_loaded,
        ensures
            final(self)@ == (EngineModel {
                status: StatusModel::Downloading { progress },
                ..old(self)@
            }),
            final(self)@.wf(),
    {
        self.model_status = ModelStatus::Downloading { progress };
        proof {
            assert(self@ =~= (EngineModel {
                status: StatusModel::Downloading { progress },
                ..old(self)@
            }));
        }
    }

    /// The test a transcription passes first: refused with `NotReady` while
    /// the components are uninitialized; `Ok(false)` short-circuits an empty
    /// sample buffer to an empty result without touching any neural
    /// component; `Ok(true)` says to run the pipeline.
    pub fn transcribe_precheck(&self, audio_empty: bool) -> (r: Result<bool, SttError>)
        ensures
            !self@.components_loaded ==> r matches Err(SttError::NotReady),
            self@.components_loaded && audio_empty ==> r == Ok::<bool, SttError>(false),
            self@.components_loaded && !audio_empty ==> r == Ok::<bool, SttError>(true),
    {
        if !self.components_loaded {
            Err(SttError::NotReady)
        } else if audio_empty {
            Ok(false)
        } else {
            Ok(true)
        }
    }

    /// The loaded vocabulary.
    pub fn vocabulary(&self) -> (v: &Vocabulary)
        ensures
            v@ == self@.vocab,
    {
        &self.vocab
    }

    /// The blank id of the loaded vocabulary.
    pub fn blank_id(&self) -> (r: i64)
        ensures
            r == self@.vocab.blank_id,
    {
        self.vocab.blank_id()
    }

    /// The number of distinct token ids in the loaded vocabulary.
    pub fn vocab_size(&self) -> (r: usize)
        ensures
            r as int == self@.vocab.table.len(),
    {
        self.vocab.size()
    }

    /// Renders an emitted token sequence as normalized text: fragments of
    /// unknown ids are silently dropped, whitespace is trimmed and internal
    /// runs collapse to single spaces.
    pub fn detokenize(&self, token_ids: &Vec<i64>) -> (text: Vec<u8>)
        ensures
            text@ == normalize_ws(raw_detok(self@.vocab.table, token_ids@)),
    {
        self.vocab.decode(token_ids)
    }
}

} // verus!
