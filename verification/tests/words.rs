//! The pure parts: register values as bytes, polls, and the wiring table.

use usb4::board::{force_power_pad, rom_i2c_en_pad, I2CBus, POWER_SETTLE_US, RETIMER_ADDRESS};
use usb4::gpio::Pad;
use usb4::signal::HALF_PERIOD_US;
use usb4::retimer::{
    decode_word, encode_word, poll, Direction, Poll, RetimerError, CMD_AFRR, CMD_AUTH, CMD_BLKW,
    CMD_BOPS, CMD_PCYC, COMMAND_RETRIES, IECS_CMD, IECS_DATA, MSG_OUT_RDATA,
};
use usb4::rom::ROM_DUMP_LENGTH;
use usb4::update::{FirmwareUpdater, Phase, CHUNK_BYTES, DEVICE_ID, VENDOR_ID};

#[test]
fn encode_word_is_little_endian() {
    assert_eq!(encode_word(0x1234_5678), [0x78, 0x56, 0x34, 0x12]);
    assert_eq!(encode_word(0), [0, 0, 0, 0]);
    assert_eq!(encode_word(0xFFFF_FFFF), [0xFF, 0xFF, 0xFF, 0xFF]);
    assert_eq!(encode_word(0x0000_0100), [0x00, 0x01, 0x00, 0x00]);
}

#[test]
fn decode_word_is_little_endian() {
    assert_eq!(decode_word(&[0x78, 0x56, 0x34, 0x12]), Ok(0x1234_5678));
    assert_eq!(decode_word(&[0, 0, 0, 0x80]), Ok(0x8000_0000));
    assert_eq!(decode_word(&[0xFF, 0, 0, 0]), Ok(0xFF));
}

#[test]
fn decode_word_wants_exactly_four_bytes() {
    for n in [0usize, 1, 2, 3, 5, 8, 32] {
        assert_eq!(
            decode_word(&vec![0xAB; n]),
            Err(RetimerError::LengthMismatch { direction: Direction::Read, count: n })
        );
    }
}

#[test]
fn words_survive_the_round_trip() {
    for value in [0u32, 1, 0x80, 0x1234_5678, 0xDEAD_BEEF, 0xFFFF_FFFF, CMD_BLKW] {
        assert_eq!(decode_word(&encode_word(value)), Ok(value));
    }
}

#[test]
fn poll_tells_pending_from_success_from_failure() {
    assert_eq!(poll(CMD_AUTH, CMD_AUTH), Poll::Pending);
    assert_eq!(poll(CMD_AUTH, 0), Poll::Succeeded);
    assert_eq!(poll(CMD_AUTH, 1), Poll::Failed(1));
    assert_eq!(poll(CMD_AUTH, 0x2152_5245), Poll::Failed(0x2152_5245));
    assert_eq!(poll(CMD_AUTH, CMD_BLKW), Poll::Failed(CMD_BLKW));
    // Zero as an opcode is never seen to succeed.
    assert_eq!(poll(0, 0), Poll::Pending);
}

#[test]
fn opcodes_spell_their_names() {
    assert_eq!(CMD_AFRR.to_le_bytes(), [b'A', b'F', b'R', b'R']);
    assert_eq!(CMD_AUTH.to_le_bytes(), [b'A', b'U', b'T', b'H']);
    assert_eq!(CMD_BLKW.to_le_bytes(), [b'B', b'L', b'K', b'W']);
    assert_eq!(CMD_BOPS.to_le_bytes(), [b'B', b'O', b'P', b'S']);
    assert_eq!(CMD_PCYC.to_le_bytes(), [b'P', b'C', b'Y', b'C']);
}

#[test]
fn protocol_constants() {
    assert_eq!(IECS_CMD, 8);
    assert_eq!(IECS_DATA, 9);
    assert_eq!(MSG_OUT_RDATA, 18);
    assert_eq!(VENDOR_ID, 0);
    assert_eq!(DEVICE_ID, 1);
    assert_eq!(COMMAND_RETRIES, 1000);
    assert_eq!(CHUNK_BYTES, 64);
    assert_eq!(HALF_PERIOD_US, 5);
    assert_eq!(POWER_SETTLE_US, 40_000);
    assert_eq!(RETIMER_ADDRESS, 0x40);
    assert_eq!(ROM_DUMP_LENGTH, 32768);
}

#[test]
fn wiring_of_the_three_buses() {
    assert_eq!(I2CBus::I2C1.scl(), Pad { port: 0x6A, pad: 0x26 });
    assert_eq!(I2CBus::I2C1.sda(), Pad { port: 0x6A, pad: 0x24 });
    assert_eq!(I2CBus::SMLink0.scl(), Pad { port: 0x6A, pad: 0x06 });
    assert_eq!(I2CBus::SMLink0.sda(), Pad { port: 0x6A, pad: 0x08 });
    assert_eq!(I2CBus::SMLink1.scl(), Pad { port: 0x6A, pad: 0x0C });
    assert_eq!(I2CBus::SMLink1.sda(), Pad { port: 0x6A, pad: 0x0E });
}

#[test]
fn wiring_of_the_power_pads() {
    assert_eq!(force_power_pad(), Pad { port: 0x6E, pad: 0x82 });
    assert_eq!(rom_i2c_en_pad(), Pad { port: 0x6A, pad: 0x70 });
}

#[test]
fn new_updater_takes_an_image_of_any_length() {
    for len in [0usize, 1, 2, 3, 5, 63, 66, 130] {
        let updater = FirmwareUpdater::new(vec![0; len]);
        assert_eq!(updater.phase(), Phase::Idle);
        assert_eq!(updater.total(), len);
        assert_eq!(updater.written(), 0);
    }
}

#[test]
fn new_updater_is_idle() {
    let updater = FirmwareUpdater::new(vec![0; 256]);
    assert_eq!(updater.phase(), Phase::Idle);
    assert_eq!(updater.failure(), None);
    assert_eq!(updater.vendor(), None);
    assert_eq!(updater.device(), None);
    assert_eq!(updater.written(), 0);
    assert_eq!(updater.total(), 256);
    assert!(!updater.is_over());
}
