use lol_html::rewriter::settings::MemorySettings;
use lol_html::tokenizer::Tokenizer;

#[test]
fn buffer_fills_up_to_capacity() {
    let mut t = Tokenizer::new(8);
    assert!(t.write(b"abc".to_vec()).is_ok());
    assert!(t.write(b"defgh".to_vec()).is_ok());
    let err = t.write(b"i".to_vec()).unwrap_err();
    assert_eq!(err.unprocessed_buffer, b"abcdefgh".to_vec());
    assert!(t.write(Vec::new()).is_ok());
    t.data_state();

    let mut t = Tokenizer::new(2);
    let err = t.write(b"abc".to_vec()).unwrap_err();
    assert!(err.unprocessed_buffer.is_empty());
    assert!(t.write(b"ab".to_vec()).is_ok());
}

#[test]
fn default_memory_settings() {
    let s = MemorySettings::default();
    assert_eq!(s.preallocated_parsing_buffer_size, 1024);
    assert_eq!(s.max_allowed_memory_usage, usize::MAX);
}
