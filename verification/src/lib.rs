//! Bilingual subtitles: parsing, pairing, rendering and playback logic.

pub mod align;
pub mod burn;
pub mod caption_laws;
pub mod captions;
pub mod command;
pub mod command_laws;
pub mod cue_laws;
pub mod ffmpeg;
pub mod finite;
pub mod float;
pub mod json;
pub mod key;
pub mod mpv;
pub mod mpv_laws;
pub mod neat;
pub mod normal;
pub mod number;
pub mod number_laws;
pub mod overlay;
pub mod play;
pub mod play_laws;
pub mod playback_laws;
pub mod qwen;
pub mod reading_laws;
pub mod roundtrip;
pub mod session;
pub mod session_laws;
pub mod subs;
pub mod subtitle_laws;
pub mod text;
pub mod text_laws;
pub mod text_lemmas;
pub mod track_laws;
pub mod translate;
pub mod translation_laws;
pub mod ytdlp;
