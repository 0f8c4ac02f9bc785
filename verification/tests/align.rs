use riders_codec::util::Alignment;

#[test]
fn align_4bit() {
    let alignment = Alignment::A4(1);
    assert_eq!(alignment.unwrap(), 4);
}

#[test]
fn align_8bit() {
    let alignment = Alignment::A8(5);
    assert_eq!(alignment.unwrap(), 8);
}

#[test]
fn align_16bit() {
    let alignment = Alignment::A16(9);
    assert_eq!(alignment.unwrap(), 16);
}

#[test]
fn align_32bit() {
    let alignment = Alignment::A32(16);
    assert_eq!(alignment.unwrap(), 32);
}

#[test]
fn align_keeps_exact_multiples() {
    assert_eq!(Alignment::A4(8).unwrap(), 8);
    assert_eq!(Alignment::A8(0).unwrap(), 0);
    assert_eq!(Alignment::A16(32).unwrap(), 32);
    assert_eq!(Alignment::A32(32).unwrap(), 32);
}

#[test]
fn align_rounds_up_to_next_boundary() {
    assert_eq!(Alignment::A4(5).unwrap(), 8);
    assert_eq!(Alignment::A8(9).unwrap(), 16);
    assert_eq!(Alignment::A16(17).unwrap(), 32);
    assert_eq!(Alignment::A32(33).unwrap(), 64);
    assert_eq!(Alignment::A32(95).unwrap(), 96);
}
