pub mod mutations;
pub mod text_encoder;
pub mod element;
pub mod tokens;
pub mod capture_flags;
pub mod token;
pub mod capturer;
pub mod text_decoder;
pub mod utf8_chunks;
pub mod document_end;
