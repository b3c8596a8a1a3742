//! The engine of `tenzor`: MP4 (H.264, H.265, AAC-LC) and WAV to synchronized picture and
//! sound tensors, one row per epoch.
//!
//! The library holds what is decided and computed with whole numbers: which picture serves
//! which epoch, how a clip is cut into chunks and shared out to decoders, what is accepted
//! and what is refused, and in which order results are handed over. Files, threads, codecs
//! and floating point are the program's.
//!
//! * Containers and parameter sets: [`media`], [`nal`], [`avc_config`], [`hevc_config`],
//!   [`color`].
//! * Selection and order of pictures: [`video`], [`presentation`], [`order`], [`queue`].
//! * Plans for several decoders: [`video_parallel`], [`chunk_plan`], [`video_hevc`],
//!   [`hevc_plan`], [`ordered`].
//! * Decoding, as a sequence of decisions: [`stream_session`], [`chunk_session`], [`playback`],
//!   [`agreement`].
//! * Tensors: [`resize`], [`audio`], [`storage`].
//! * A run as a whole: [`pipeline`], [`concurrency`], [`metrics`].
//! * Numbers: [`arith`], [`text`].
pub mod agreement;
pub mod arith;
pub mod audio;
pub mod avc_config;
pub mod chunk_plan;
pub mod chunk_session;
pub mod color;
pub mod concurrency;
pub mod hevc_config;
pub mod hevc_plan;
pub mod media;
pub mod metrics;
pub mod nal;
pub mod order;
pub mod ordered;
pub mod pipeline;
pub mod playback;
pub mod presentation;
pub mod queue;
pub mod resize;
pub mod storage;
pub mod stream_session;
pub mod text;
pub mod video;
pub mod video_hevc;
pub mod video_parallel;
