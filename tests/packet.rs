use quack::packet::packet_element;

#[test]
fn element_skips_link_header() {
    let frame: Vec<u8> = (0u8..40).collect();
    assert_eq!(packet_element(&frame, 4), vec![14, 15, 16, 17]);
}

#[test]
fn short_frame_is_padded() {
    let frame: Vec<u8> = (0u8..16).collect();
    assert_eq!(packet_element(&frame, 4), vec![14, 15, 0, 0]);
    assert_eq!(packet_element(&frame[..14], 2), vec![0, 0]);
}
