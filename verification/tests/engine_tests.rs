use flatconvert::engine::{Engine, EngineError};

#[test]
fn data_that_is_no_font_is_refused() {
    assert!(matches!(Engine::new(vec![0u8; 64], 12), Err(EngineError::FreeTypeError)));
}

#[test]
fn empty_font_data_is_refused() {
    assert!(matches!(Engine::new(Vec::new(), 12), Err(EngineError::FreeTypeError)));
}


#[test]
fn char_size_request_is_26_6_width_at_141_dpi() {
    assert_eq!(flatconvert::engine::char_size_request(12), (768, 0, 141, 0));
    assert_eq!(flatconvert::engine::char_size_request(0), (0, 0, 141, 0));
}
