use ssd1683::cmd;
use ssd1683::driver::{split_u16, Ssd1683, SETTLE_DELAY_MS};
use ssd1683::flag;
use ssd1683::interface::{TransferMode, RESET_DELAY_MS, SPIDEV_CEILING};
use ssd1683::script::{Action, Outcome, Script, Transaction};
use ssd1683::{Color, Error, FRAME_BYTES, HEIGHT, WIDTH};

#[derive(Clone, Debug, PartialEq, Eq)]
enum Op {
    SelectCommand,
    SelectData,
    ResetLow,
    ResetHigh,
    Delay(u32),
    Poll,
    Write(Vec<u8>),
    Flush,
}

fn op_of(action: Action) -> Op {
    match action {
        Action::SelectCommand => Op::SelectCommand,
        Action::SelectData => Op::SelectData,
        Action::ResetLow => Op::ResetLow,
        Action::ResetHigh => Op::ResetHigh,
        Action::DelayMs(ms) => Op::Delay(ms),
        Action::PollBusy => Op::Poll,
        Action::Write(bytes) => Op::Write(bytes.to_vec()),
        Action::Flush => Op::Flush,
    }
}

/// Carries a script out against lines that never fail and a controller that
/// is never busy, and lists what was done.
fn play(script: Script) -> Vec<Op> {
    let mut transaction = Transaction::new(script);
    let mut done = Vec::new();
    loop {
        let op = match transaction.current() {
            Some(action) => op_of(action),
            None => break,
        };
        let outcome = if op == Op::Poll { Outcome::BusyLow } else { Outcome::Done };
        done.push(op);
        transaction.resolve(outcome);
    }
    assert_eq!(transaction.result(), Some(Ok(())));
    done
}

/// What the controller takes in: every byte with the select line state it
/// crossed under (`true` for command).
fn controller_view(ops: &[Op]) -> Vec<(bool, u8)> {
    let mut command = false;
    let mut bytes = Vec::new();
    for op in ops {
        match op {
            Op::SelectCommand => command = true,
            Op::SelectData => command = false,
            Op::Write(payload) => {
                for byte in payload {
                    bytes.push((command, *byte));
                }
            }
            _ => {}
        }
    }
    bytes
}

fn whole_cmd(opcode: u8) -> Vec<Op> {
    vec![Op::SelectCommand, Op::Write(vec![opcode]), Op::Flush, Op::SelectData]
}

fn whole_cmd_with_data(opcode: u8, payload: &[u8]) -> Vec<Op> {
    let mut ops = whole_cmd(opcode);
    ops.extend(vec![Op::SelectData, Op::Write(payload.to_vec()), Op::Flush, Op::SelectData]);
    ops
}

fn chunked_cmd(opcode: u8) -> Vec<Op> {
    vec![Op::SelectCommand, Op::Write(vec![opcode]), Op::SelectData]
}

fn chunked_cmd_with_data(opcode: u8, payload: &[u8]) -> Vec<Op> {
    let mut ops = chunked_cmd(opcode);
    ops.extend(vec![Op::SelectData, Op::Write(payload.to_vec()), Op::SelectData]);
    ops
}

fn whole_full_frame() -> Vec<Op> {
    let mut ops = whole_cmd_with_data(0x44, &[0x00, 0x0F]);
    ops.extend(whole_cmd_with_data(0x45, &[0x00, 0x00, 0x27, 0x01]));
    ops.extend(whole_cmd_with_data(0x4E, &[0x00]));
    ops.extend(whole_cmd_with_data(0x4F, &[0x00, 0x00]));
    ops
}

fn chunked_full_frame() -> Vec<Op> {
    let mut ops = chunked_cmd_with_data(0x44, &[0x00, 0x0F]);
    ops.extend(chunked_cmd_with_data(0x45, &[0x00, 0x00, 0x27, 0x01]));
    ops.extend(chunked_cmd_with_data(0x4E, &[0x00]));
    ops.extend(chunked_cmd_with_data(0x4F, &[0x00, 0x00]));
    ops
}

/// A driver whose initialisation has been recorded elsewhere.
fn driver(mode: TransferMode) -> Ssd1683 {
    let mut init = Script::new();
    Ssd1683::new(&mut init, mode)
}

#[test]
fn panel_geometry() {
    assert_eq!(WIDTH, 128);
    assert_eq!(HEIGHT, 296);
    assert_eq!(WIDTH % 8, 0);
    assert_eq!(FRAME_BYTES, 4736);
    assert_eq!(FRAME_BYTES, u32::from(WIDTH) * u32::from(HEIGHT) / 8);
}

#[test]
fn split_u16_gives_high_then_low() {
    assert_eq!(split_u16(0x0127), (0x01, 0x27));
    assert_eq!(split_u16(0x0000), (0x00, 0x00));
    assert_eq!(split_u16(0x00FF), (0x00, 0xFF));
    assert_eq!(split_u16(0x0100), (0x01, 0x00));
    assert_eq!(split_u16(0xFFFF), (0xFF, 0xFF));
    assert_eq!(split_u16(HEIGHT - 1), (0x01, 0x27));
}

#[test]
fn set_ram_area_sends_x_range_then_y_range() {
    let driver = driver(TransferMode::Whole);
    let mut script = Script::new();
    assert_eq!(driver.set_ram_area(&mut script, 8, 3, 127, 295), Ok(()));
    let expected = vec![
        Op::SelectCommand,
        Op::Write(vec![0x44]),
        Op::Flush,
        Op::SelectData,
        Op::SelectData,
        Op::Write(vec![0x01, 0x0F]),
        Op::Flush,
        Op::SelectData,
        Op::SelectCommand,
        Op::Write(vec![0x45]),
        Op::Flush,
        Op::SelectData,
        Op::SelectData,
        Op::Write(vec![0x03, 0x00, 0x27, 0x01]),
        Op::Flush,
        Op::SelectData,
    ];
    assert_eq!(play(script), expected);
}

#[test]
fn set_ram_area_is_the_same_for_the_controller_in_every_mode() {
    let expected = vec![
        (true, 0x44),
        (false, 0x02),
        (false, 0x0C),
        (true, 0x45),
        (false, 0x10),
        (false, 0x00),
        (false, 0x2C),
        (false, 0x01),
    ];
    for mode in [TransferMode::Whole, TransferMode::Chunked(1), TransferMode::Chunked(4096)] {
        let driver = driver(mode);
        let mut script = Script::new();
        assert_eq!(driver.set_ram_area(&mut script, 16, 16, 103, 300), Ok(()));
        assert_eq!(controller_view(&play(script)), expected);
    }
}

#[test]
fn set_ram_area_splits_every_payload_under_a_ceiling_of_one() {
    let driver = driver(TransferMode::Chunked(1));
    let mut script = Script::new();
    assert_eq!(driver.set_ram_area(&mut script, 0, 0, 127, 295), Ok(()));
    let expected = vec![
        Op::SelectCommand,
        Op::Write(vec![0x44]),
        Op::SelectData,
        Op::SelectData,
        Op::Write(vec![0x00]),
        Op::Write(vec![0x0F]),
        Op::SelectData,
        Op::SelectCommand,
        Op::Write(vec![0x45]),
        Op::SelectData,
        Op::SelectData,
        Op::Write(vec![0x00]),
        Op::Write(vec![0x00]),
        Op::Write(vec![0x27]),
        Op::Write(vec![0x01]),
        Op::SelectData,
    ];
    assert_eq!(play(script), expected);
}

#[test]
fn set_ram_area_cuts_positions_outside_the_panel_to_their_bytes() {
    let driver = driver(TransferMode::Whole);
    let mut script = Script::new();
    // 2064 / 8 = 258, which leaves 2 in eight bits; 0x12345 leaves 0x45, 0x23.
    assert_eq!(driver.set_ram_area(&mut script, 7, 0x0001_2345, 2064, 0xFFFF_FFFF), Ok(()));
    let mut expected = whole_cmd_with_data(0x44, &[0x00, 0x02]);
    expected.extend(whole_cmd_with_data(0x45, &[0x45, 0x23, 0xFF, 0xFF]));
    assert_eq!(play(script), expected);
}

#[test]
fn set_ram_area_refuses_a_window_that_does_not_start_before_its_end() {
    let driver = driver(TransferMode::Whole);
    let windows = [
        (5, 0, 5, 9),
        (6, 0, 5, 9),
        (0, 9, 5, 9),
        (0, 10, 5, 9),
        (5, 9, 5, 9),
        (0, 0, 0, 0),
        (127, 295, 0, 0),
    ];
    for (start_x, start_y, end_x, end_y) in windows {
        let mut script = Script::new();
        assert_eq!(
            driver.set_ram_area(&mut script, start_x, start_y, end_x, end_y),
            Err(Error::InvalidArgument)
        );
        assert_eq!(script.len(), 0);
        assert_eq!(play(script), Vec::<Op>::new());
    }
}

#[test]
fn set_ram_area_refusal_leaves_an_earlier_recording_untouched() {
    let driver = driver(TransferMode::Whole);
    let mut script = Script::new();
    driver.set_ram_counter(&mut script, 0, 0);
    let before = script.len();
    assert_eq!(driver.set_ram_area(&mut script, 9, 9, 1, 1), Err(Error::InvalidArgument));
    assert_eq!(script.len(), before);
    let mut expected = whole_cmd_with_data(0x4E, &[0x00]);
    expected.extend(whole_cmd_with_data(0x4F, &[0x00, 0x00]));
    assert_eq!(play(script), expected);
}

#[test]
fn set_ram_counter_sends_column_byte_then_row_low_byte_first() {
    let driver = driver(TransferMode::Whole);
    let mut script = Script::new();
    driver.set_ram_counter(&mut script, 100, 295);
    let expected = vec![
        Op::SelectCommand,
        Op::Write(vec![0x4E]),
        Op::Flush,
        Op::SelectData,
        Op::SelectData,
        Op::Write(vec![100 >> 3]),
        Op::Flush,
        Op::SelectData,
        Op::SelectCommand,
        Op::Write(vec![0x4F]),
        Op::Flush,
        Op::SelectData,
        Op::SelectData,
        Op::Write(vec![0x27, 0x01]),
        Op::Flush,
        Op::SelectData,
    ];
    assert_eq!(play(script), expected);
}

#[test]
fn set_ram_counter_encodes_every_position_of_the_panel() {
    let driver = driver(TransferMode::Chunked(SPIDEV_CEILING));
    for x in 0..u32::from(WIDTH) {
        for y in [0, 1, 255, 256, 257, u32::from(HEIGHT) - 1] {
            let mut script = Script::new();
            driver.set_ram_counter(&mut script, x, y);
            let view = controller_view(&play(script));
            assert_eq!(view.len(), 5);
            assert_eq!(view[0], (true, 0x4E));
            assert_eq!(view[1], (false, (x >> 3) as u8));
            assert_eq!(view[2], (true, 0x4F));
            assert_eq!(u32::from(view[3].1) + 256 * u32::from(view[4].1), y);
            assert!(!view[3].0 && !view[4].0);
        }
    }
}

#[test]
fn use_full_frame_selects_the_whole_panel_and_the_origin() {
    let driver = driver(TransferMode::Whole);
    let mut script = Script::new();
    driver.use_full_frame(&mut script);
    assert_eq!(play(script), whole_full_frame());

    let mut again = Script::new();
    driver.use_full_frame(&mut again);
    driver.use_full_frame(&mut again);
    let mut twice = whole_full_frame();
    twice.extend(whole_full_frame());
    assert_eq!(play(again), twice);
}

#[test]
fn init_records_the_whole_bring_up_sequence() {
    let mut script = Script::new();
    let driver = Ssd1683::new(&mut script, TransferMode::Whole);
    assert_eq!(driver.transfer_mode(), TransferMode::Whole);
    let mut expected = vec![Op::ResetLow, Op::Delay(10), Op::ResetHigh, Op::Delay(10)];
    expected.extend(whole_cmd(0x12));
    expected.push(Op::Poll);
    expected.push(Op::Delay(10));
    expected.extend(whole_cmd_with_data(0x21, &[0x40, 0x00]));
    expected.extend(whole_cmd_with_data(0x3C, &[0x05]));
    expected.extend(whole_cmd_with_data(0x11, &[0x03]));
    expected.extend(whole_full_frame());
    expected.extend(whole_cmd_with_data(0x18, &[0x80]));
    expected.push(Op::Poll);
    assert_eq!(play(script), expected);
    assert_eq!(RESET_DELAY_MS, 10);
    assert_eq!(SETTLE_DELAY_MS, 10);
}

#[test]
fn init_can_be_recorded_again_on_an_existing_driver() {
    let mut first = Script::new();
    let driver = Ssd1683::new(&mut first, TransferMode::Chunked(SPIDEV_CEILING));
    let mut second = Script::new();
    driver.init(&mut second);
    let ops = play(second);
    assert_eq!(play(first), ops);
    let view = controller_view(&ops);
    let expected = vec![
        (true, cmd::SW_RESET),
        (true, cmd::UPDATE_DISPLAY_CTRL1),
        (false, 0x40),
        (false, 0x00),
        (true, cmd::BORDER_WAVEFORM_CONTROL),
        (false, flag::BORDER_WAVEFORM_FOLLOW_LUT | flag::BORDER_WAVEFORM_LUT1),
        (true, cmd::DATA_ENTRY_MODE),
        (false, flag::DATA_ENTRY_INCRY_INCRX),
        (true, cmd::SET_RAMXPOS),
        (false, 0),
        (false, 15),
        (true, cmd::SET_RAMYPOS),
        (false, 0),
        (false, 0),
        (false, 0x27),
        (false, 0x01),
        (true, cmd::SET_RAMX_COUNTER),
        (false, 0),
        (true, cmd::SET_RAMY_COUNTER),
        (false, 0),
        (false, 0),
        (true, cmd::TEMP_CONTROL),
        (false, flag::INTERNAL_TEMP_SENSOR),
    ];
    assert_eq!(view, expected);
}

#[test]
fn bus_failure_on_software_reset_stops_the_initialisation() {
    for mode in [TransferMode::Whole, TransferMode::Chunked(SPIDEV_CEILING)] {
        let mut script = Script::new();
        let _driver = Ssd1683::new(&mut script, mode);
        let mut transaction = Transaction::new(script);
        let mut done = Vec::new();
        loop {
            let op = match transaction.current() {
                Some(action) => op_of(action),
                None => break,
            };
            let outcome = if op == Op::Write(vec![cmd::SW_RESET]) {
                Outcome::BusError
            } else {
                Outcome::Done
            };
            done.push(op);
            transaction.resolve(outcome);
        }
        let expected = vec![
            Op::ResetLow,
            Op::Delay(10),
            Op::ResetHigh,
            Op::Delay(10),
            Op::SelectCommand,
            Op::Write(vec![0x12]),
            Op::SelectData,
        ];
        assert_eq!(done, expected);
        assert_eq!(transaction.result(), Some(Err(Error::Bus)));
        transaction.resolve(Outcome::Done);
        assert_eq!(transaction.current(), None);
        assert_eq!(transaction.result(), Some(Err(Error::Bus)));
    }
}

#[test]
fn clear_bw_frame_then_display_frame() {
    let driver = driver(TransferMode::Whole);
    let mut script = Script::new();
    driver.clear_bw_frame(&mut script, Color::White);
    driver.display_frame(&mut script);
    let ops = play(script);

    let mut expected = whole_full_frame();
    expected.extend(whole_cmd(0x24));
    expected.push(Op::SelectData);
    for _ in 0..128 * 296 / 8 {
        expected.push(Op::Write(vec![0xFF]));
        expected.push(Op::Flush);
    }
    expected.extend(whole_cmd_with_data(0x22, &[0xF7]));
    expected.extend(whole_cmd(0x20));
    expected.push(Op::Poll);
    assert_eq!(ops, expected);

    let view = controller_view(&ops);
    assert_eq!(view.len(), 13 + 1 + 4736 + 3);
    assert_eq!(view[13], (true, 0x24));
    assert!(view[14..14 + 4736].iter().all(|seen| *seen == (false, 0xFF)));
    assert_eq!(view[14 + 4736..], [(true, 0x22), (false, 0xF7), (true, 0x20)]);
}

#[test]
fn clear_bw_frame_writes_one_fill_byte_per_plane_byte() {
    for (color, fill) in [(Color::White, 0xFF), (Color::Black, 0x00)] {
        let driver = driver(TransferMode::Chunked(SPIDEV_CEILING));
        let mut script = Script::new();
        driver.clear_bw_frame(&mut script, color);
        let ops = play(script);
        let mut expected = chunked_full_frame();
        expected.extend(chunked_cmd(0x24));
        expected.push(Op::SelectData);
        for _ in 0..4736 {
            expected.push(Op::Write(vec![fill]));
        }
        assert_eq!(ops, expected);
        assert_eq!(color.byte_value(), fill);
        let writes = ops.iter().filter(|op| **op == Op::Write(vec![fill])).count();
        assert!(writes >= 4736);
    }
}

#[test]
fn clear_red_frame_fills_with_the_inverse_of_white() {
    let driver = driver(TransferMode::Whole);
    let mut script = Script::new();
    driver.clear_red_frame(&mut script);
    let view = controller_view(&play(script));
    assert_eq!(view.len(), 13 + 1 + 4736);
    assert_eq!(view[13], (true, 0x26));
    assert!(view[14..].iter().all(|seen| *seen == (false, 0x00)));
}

#[test]
fn clearing_keeps_the_script_short() {
    let driver = driver(TransferMode::Whole);
    let mut clear = Script::new();
    driver.clear_bw_frame(&mut clear, Color::White);
    let mut address = Script::new();
    driver.use_full_frame(&mut address);
    // Addressing, the plane command and a fill of two entries.
    assert_eq!(clear.len(), address.len() + 4 + 2);
}

#[test]
fn display_frame_selects_full_refresh_activates_and_waits() {
    let driver = driver(TransferMode::Whole);
    let mut script = Script::new();
    driver.display_frame(&mut script);
    let mut expected = whole_cmd_with_data(0x22, &[0xF7]);
    expected.extend(whole_cmd(0x20));
    expected.push(Op::Poll);
    assert_eq!(play(script), expected);
}

#[test]
fn update_bw_frame_streams_the_buffer_as_it_is() {
    let buffer: Vec<u8> = (0..4736u32).map(|i| (i % 251) as u8).collect();
    let driver = driver(TransferMode::Whole);
    let mut script = Script::new();
    assert_eq!(driver.update_bw_frame(&mut script, &buffer), Ok(()));
    let mut expected = whole_full_frame();
    expected.extend(whole_cmd_with_data(0x24, &buffer));
    assert_eq!(play(script), expected);
}

#[test]
fn update_red_frame_goes_out_in_pieces_under_a_ceiling() {
    let buffer: Vec<u8> = (0..4736u32).map(|i| (i % 253) as u8).collect();
    let driver = driver(TransferMode::Chunked(4096));
    let mut script = Script::new();
    assert_eq!(driver.update_red_frame(&mut script, &buffer), Ok(()));
    let mut expected = chunked_full_frame();
    expected.extend(chunked_cmd(0x26));
    expected.push(Op::SelectData);
    expected.push(Op::Write(buffer[..4096].to_vec()));
    expected.push(Op::Write(buffer[4096..].to_vec()));
    expected.push(Op::SelectData);
    let ops = play(script);
    assert_eq!(ops, expected);

    let view = controller_view(&ops);
    assert_eq!(view[13], (true, 0x26));
    let data: Vec<u8> = view[14..].iter().map(|seen| seen.1).collect();
    assert_eq!(data, buffer);
    assert!(view[14..].iter().all(|seen| !seen.0));
}

#[test]
fn update_red_frame_with_a_buffer_of_the_wrong_length() {
    let driver = driver(TransferMode::Whole);
    for len in [0usize, 1, 4735, 4737, 9472] {
        let buffer: Vec<u8> = (0..len).map(|i| (i % 249) as u8).collect();
        let mut script = Script::new();
        assert_eq!(driver.update_red_frame(&mut script, &buffer), Ok(()));
        let ops = play(script);
        let mut expected = whole_full_frame();
        expected.extend(whole_cmd_with_data(0x26, &buffer));
        assert_eq!(ops, expected);

        let view = controller_view(&ops);
        assert_eq!(view.len(), 13 + 1 + len);
        assert_eq!(view[13], (true, 0x26));
        let data: Vec<u8> = view[14..].iter().map(|seen| seen.1).collect();
        assert_eq!(data, buffer);
        assert!(view[14..].iter().all(|seen| !seen.0));
    }
}

#[test]
fn update_bw_frame_with_a_buffer_of_the_wrong_length() {
    let driver = driver(TransferMode::Chunked(SPIDEV_CEILING));
    for len in [0usize, 4095, 4096, 4097, 4735, 4737, 8192, 8193] {
        let buffer: Vec<u8> = (0..len).map(|i| (i % 247) as u8).collect();
        let mut script = Script::new();
        assert_eq!(driver.update_bw_frame(&mut script, &buffer), Ok(()));
        let ops = play(script);
        let mut expected = chunked_full_frame();
        expected.extend(chunked_cmd(0x24));
        expected.push(Op::SelectData);
        for piece in buffer.chunks(4096) {
            expected.push(Op::Write(piece.to_vec()));
        }
        expected.push(Op::SelectData);
        assert_eq!(ops, expected);

        let view = controller_view(&ops);
        assert_eq!(view[13], (true, 0x24));
        let data: Vec<u8> = view[14..].iter().map(|seen| seen.1).collect();
        assert_eq!(data, buffer);
    }
}

#[test]
fn update_frame_neither_pads_nor_cuts_a_short_buffer() {
    let driver = driver(TransferMode::Whole);
    let mut script = Script::new();
    assert_eq!(driver.update_red_frame(&mut script, &[0xDE, 0xAD]), Ok(()));
    driver.display_frame(&mut script);
    let view = controller_view(&play(script));
    assert_eq!(
        view[13..],
        [(true, 0x26), (false, 0xDE), (false, 0xAD), (true, 0x22), (false, 0xF7), (true, 0x20)]
    );
}

#[test]
fn scripts_grow_by_a_fixed_number_of_entries() {
    let whole = driver(TransferMode::Whole);
    let chunked = driver(TransferMode::Chunked(SPIDEV_CEILING));
    let narrow = driver(TransferMode::Chunked(1));

    let mut script = Script::new();
    assert_eq!(whole.set_ram_area(&mut script, 0, 0, 1, 1), Ok(()));
    assert_eq!(script.len(), 16);
    whole.set_ram_counter(&mut script, 0, 0);
    assert_eq!(script.len(), 32);
    whole.use_full_frame(&mut script);
    assert_eq!(script.len(), 64);
    whole.display_frame(&mut script);
    assert_eq!(script.len(), 64 + 8 + 4 + 1);

    let mut script = Script::new();
    whole.clear_bw_frame(&mut script, Color::Black);
    assert_eq!(script.len(), 32 + 4 + 2);
    whole.clear_red_frame(&mut script);
    assert_eq!(script.len(), 2 * (32 + 4 + 2));

    let mut script = Script::new();
    chunked.clear_bw_frame(&mut script, Color::White);
    assert_eq!(script.len(), 24 + 3 + 2);

    let mut script = Script::new();
    narrow.use_full_frame(&mut script);
    // Every payload byte is a piece of its own: 2 + 4 + 1 + 2 of them.
    assert_eq!(script.len(), 4 * 5 + 9);

    let mut script = Script::new();
    let _driver = Ssd1683::new(&mut script, TransferMode::Whole);
    assert_eq!(script.len(), 4 + 4 + 2 + 8 + 8 + 8 + 32 + 8 + 1);

    let buffer = vec![0u8; 4736];
    let mut script = Script::new();
    assert_eq!(whole.update_bw_frame(&mut script, &buffer), Ok(()));
    assert_eq!(script.len(), 32 + 8);
    let mut script = Script::new();
    assert_eq!(chunked.update_bw_frame(&mut script, &buffer), Ok(()));
    assert_eq!(script.len(), 24 + 3 + 2 + 2);
    let mut script = Script::new();
    assert_eq!(chunked.update_red_frame(&mut script, &[]), Ok(()));
    assert_eq!(script.len(), 24 + 3 + 2);
}

#[test]
fn color_bytes_and_inverse() {
    assert_eq!(Color::White.byte_value(), 0xFF);
    assert_eq!(Color::Black.byte_value(), 0x00);
    assert_eq!(Color::White.inverse(), Color::Black);
    assert_eq!(Color::Black.inverse(), Color::White);
    assert_eq!(Color::White.inverse().inverse(), Color::White);
    assert_eq!(Color::White.inverse().byte_value(), !Color::White.byte_value());
}

#[test]
fn command_and_flag_registry() {
    assert_eq!(cmd::SW_RESET, 0x12);
    assert_eq!(cmd::DATA_ENTRY_MODE, 0x11);
    assert_eq!(cmd::TEMP_CONTROL, 0x18);
    assert_eq!(cmd::MASTER_ACTIVATE, 0x20);
    assert_eq!(cmd::UPDATE_DISPLAY_CTRL1, 0x21);
    assert_eq!(cmd::UPDATE_DISPLAY_CTRL2, 0x22);
    assert_eq!(cmd::WRITE_BW_DATA, 0x24);
    assert_eq!(cmd::WRITE_RED_DATA, 0x26);
    assert_eq!(cmd::BORDER_WAVEFORM_CONTROL, 0x3C);
    assert_eq!(cmd::SET_RAMXPOS, 0x44);
    assert_eq!(cmd::SET_RAMYPOS, 0x45);
    assert_eq!(cmd::SET_RAMX_COUNTER, 0x4E);
    assert_eq!(cmd::SET_RAMY_COUNTER, 0x4F);
    assert_eq!(flag::BORDER_WAVEFORM_FOLLOW_LUT | flag::BORDER_WAVEFORM_LUT1, 0x05);
    assert_eq!(flag::BORDER_WAVEFORM_FOLLOW_LUT1, 0x05);
    assert_eq!(flag::DATA_ENTRY_INCRY_INCRX, 0x03);
    assert_eq!(flag::INTERNAL_TEMP_SENSOR, 0x80);
    assert_eq!(flag::DISPLAY_MODE_1, 0xF7);
}
