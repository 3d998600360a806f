use jpeg_rusturbo::decode::baseline::handle_restart;
use jpeg_rusturbo::decode::huffman::BitReader;
use jpeg_rusturbo::decode::DecodeError;

#[test]
fn handle_restart_errors_on_truncated_input() {
    let bytes: &[u8] = &[];
    let mut br = BitReader::new(bytes, 0);
    let mut prev_dc = [42i32; 4];
    let mut expected = 0u8;
    let err = handle_restart(&mut br, &mut prev_dc, &mut expected).unwrap_err();
    assert!(
        matches!(err, DecodeError::UnexpectedEof),
        "expected UnexpectedEof, got {err:?}",
    );
    assert_eq!(prev_dc, [42, 42, 42, 42]);
}

#[test]
fn handle_restart_consumes_rst_marker_and_resets_predictors() {
    let bytes: &[u8] = &[0xFF, 0xD3];
    let mut br = BitReader::new(bytes, 0);
    let mut prev_dc = [123i32; 4];
    let mut expected = 3u8;
    handle_restart(&mut br, &mut prev_dc, &mut expected).expect("RST3 should be accepted");
    assert_eq!(prev_dc, [0; 4]);
    assert_eq!(expected, 4);
}

#[test]
fn handle_restart_rejects_non_rst_marker() {
    let bytes: &[u8] = &[0xFF, 0xD9];
    let mut br = BitReader::new(bytes, 0);
    let mut prev_dc = [0i32; 4];
    let mut expected = 0u8;
    let err = handle_restart(&mut br, &mut prev_dc, &mut expected).unwrap_err();
    assert!(matches!(err, DecodeError::Malformed(_)));
}
