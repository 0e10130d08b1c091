use ssd1683::soft_spi::{PinOp, Shift, SoftSpi};

fn drain(mut shift: Shift) -> Vec<PinOp> {
    let mut ops = Vec::new();
    while let Some(op) = shift.next() {
        assert!(!shift.is_finished() || op == PinOp::CsHigh);
        ops.push(op);
    }
    assert!(shift.is_finished());
    assert_eq!(shift.next(), None);
    ops
}

/// What a receiver assembles that samples the data line on rising clock
/// edges while chip select is low.
fn receive(ops: &[PinOp]) -> Vec<u8> {
    let mut selected = false;
    let mut clock = true;
    let mut data = false;
    let mut register = 0u8;
    let mut bits = 0;
    let mut words = Vec::new();
    for op in ops {
        match op {
            PinOp::CsLow => selected = true,
            PinOp::CsHigh => selected = false,
            PinOp::MosiLow => data = false,
            PinOp::MosiHigh => data = true,
            PinOp::SckLow => clock = false,
            PinOp::SckHigh => {
                if selected && !clock {
                    register = (register << 1) | u8::from(data);
                    bits += 1;
                    if bits == 8 {
                        words.push(register);
                        bits = 0;
                    }
                }
                clock = true;
            }
        }
    }
    assert_eq!(bits, 0);
    words
}

#[test]
fn write_shifts_a_word_out_most_significant_bit_first() {
    let spi = SoftSpi::new();
    let ops = drain(spi.write(&[0xA5]));
    let low = [PinOp::SckLow, PinOp::MosiLow, PinOp::SckHigh];
    let high = [PinOp::SckLow, PinOp::MosiHigh, PinOp::SckHigh];
    let mut expected = vec![PinOp::CsLow];
    for bit in [high, low, high, low, low, high, low, high] {
        expected.extend(bit);
    }
    expected.push(PinOp::CsHigh);
    assert_eq!(ops, expected);
    assert_eq!(ops.len(), 26);
}

#[test]
fn write_of_no_word_only_frames() {
    let spi = SoftSpi::new();
    assert_eq!(drain(spi.write(&[])), vec![PinOp::CsLow, PinOp::CsHigh]);
}

#[test]
fn write_keeps_chip_select_low_across_words() {
    let spi = SoftSpi::new();
    let ops = drain(spi.write(&[0x80, 0x01, 0xFF]));
    assert_eq!(ops.len(), 2 + 24 * 3);
    assert_eq!(ops[0], PinOp::CsLow);
    assert_eq!(ops[ops.len() - 1], PinOp::CsHigh);
    assert!(ops[1..ops.len() - 1]
        .iter()
        .all(|op| *op != PinOp::CsLow && *op != PinOp::CsHigh));
    assert_eq!(ops[1..4], [PinOp::SckLow, PinOp::MosiHigh, PinOp::SckHigh]);
    assert_eq!(ops[4..7], [PinOp::SckLow, PinOp::MosiLow, PinOp::SckHigh]);
    assert_eq!(ops[46..49], [PinOp::SckLow, PinOp::MosiHigh, PinOp::SckHigh]);
}

#[test]
fn write_sets_the_data_line_between_the_clock_edges() {
    let spi = SoftSpi::new();
    let ops = drain(spi.write(&[0x3C, 0xC3]));
    for cycle in ops[1..ops.len() - 1].chunks(3) {
        assert_eq!(cycle[0], PinOp::SckLow);
        assert!(cycle[1] == PinOp::MosiLow || cycle[1] == PinOp::MosiHigh);
        assert_eq!(cycle[2], PinOp::SckHigh);
    }
}

#[test]
fn a_receiver_gets_every_word_back() {
    let spi = SoftSpi::new();
    let words: Vec<u8> = (0..=255u8).collect();
    assert_eq!(receive(&drain(spi.write(&words))), words);
    assert_eq!(receive(&drain(spi.write(&[0x24, 0xFF, 0x00, 0x7E]))), vec![0x24, 0xFF, 0x00, 0x7E]);
}
