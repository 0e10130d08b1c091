use ssd1683::signal::Payload;

#[test]
fn payload_lends_its_bytes() {
    let frame = [1u8, 2, 3, 4, 5];
    let borrowed = Payload::Frame(&frame);
    assert_eq!(borrowed.as_slice(), &[1, 2, 3, 4, 5]);
    assert_eq!(borrowed.len(), 5);

    let owned = Payload::Inline(vec![9, 8, 7]);
    assert_eq!(owned.as_slice(), &[9, 8, 7]);
    assert_eq!(owned.len(), 3);

    assert_eq!(Payload::Inline(Vec::new()).len(), 0);
    assert_eq!(Payload::Frame(&[]).as_slice(), &[] as &[u8]);
}

#[test]
fn payload_slice_takes_from_up_to_not_including_to() {
    let frame = [10u8, 11, 12, 13, 14, 15];
    let borrowed = Payload::Frame(&frame);
    assert_eq!(borrowed.slice(1, 4), Payload::Frame(&frame[1..4]));
    assert_eq!(borrowed.slice(1, 4).as_slice(), &[11, 12, 13]);
    assert_eq!(borrowed.slice(0, 6).as_slice(), &frame);
    assert_eq!(borrowed.slice(6, 6).len(), 0);
    assert_eq!(borrowed.slice(2, 2).len(), 0);

    let owned = Payload::Inline(vec![10, 11, 12, 13, 14, 15]);
    assert_eq!(owned.slice(4, 6), Payload::Inline(vec![14, 15]));
    assert_eq!(owned.slice(0, 1).as_slice(), &[10]);
    assert_eq!(owned.len(), 6);
}
