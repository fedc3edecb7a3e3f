//! One pad's register: what each operation reads and writes.

use std::cell::RefCell;
use std::rc::Rc;

use usb4::gpio::{
    has_mask, with_mask, with_pad_mode, Gpio, GpioNotFound, GpioPadMode, Pad, Register, Sideband,
    PAD_MODE, RX, RX_DIS, TX, TX_DIS,
};

/// A register that shows the values of a script, one at each read, then the
/// last again, and keeps a log of the accesses: `false` for a read, `true`
/// for a write.
struct Cell {
    shows: Rc<RefCell<Vec<u32>>>,
    log: Rc<RefCell<Vec<(bool, u32)>>>,
}

impl Register for Cell {
    fn read(&mut self) -> u32 {
        let mut shows = self.shows.borrow_mut();
        let value = if shows.len() > 1 { shows.remove(0) } else { shows[0] };
        self.log.borrow_mut().push((false, value));
        value
    }

    fn write(&mut self, value: u32) {
        self.log.borrow_mut().push((true, value));
    }
}

struct Board {
    shows: Rc<RefCell<Vec<u32>>>,
    log: Rc<RefCell<Vec<(bool, u32)>>>,
}

impl Board {
    fn new(shows: &[u32]) -> Self {
        Board {
            shows: Rc::new(RefCell::new(shows.to_vec())),
            log: Rc::new(RefCell::new(Vec::new())),
        }
    }

    fn pad(&self) -> Gpio<Cell> {
        Gpio::new(self, 0x6A, 0x26).unwrap()
    }

    fn log(&self) -> Vec<(bool, u32)> {
        self.log.borrow().clone()
    }
}

impl Sideband<Cell> for Board {
    fn gpio(&self, port: u8, pad: u8) -> Option<Cell> {
        if port == 0x6A && pad == 0x26 {
            Some(Cell { shows: self.shows.clone(), log: self.log.clone() })
        } else {
            None
        }
    }
}

#[test]
fn register_fields_are_where_the_hardware_has_them() {
    assert_eq!(PAD_MODE, 0b111 << 10);
    assert_eq!(RX_DIS, 1 << 9);
    assert_eq!(TX_DIS, 1 << 8);
    assert_eq!(RX, 1 << 1);
    assert_eq!(TX, 1 << 0);
}

#[test]
fn pad_mode_bits_are_in_place() {
    let modes = [
        GpioPadMode::Gpio,
        GpioPadMode::Nf1,
        GpioPadMode::Nf2,
        GpioPadMode::Nf3,
        GpioPadMode::Nf4,
        GpioPadMode::Nf5,
        GpioPadMode::Nf6,
        GpioPadMode::Nf7,
    ];
    for (i, mode) in modes.iter().enumerate() {
        assert_eq!(mode.bits(), (i as u32) << 10);
    }
}

#[test]
fn with_mask_sets_and_clears() {
    assert_eq!(with_mask(0x0000_0000, 0x100, true), 0x0000_0100);
    assert_eq!(with_mask(0xFFFF_FFFF, 0x100, false), 0xFFFF_FEFF);
    assert_eq!(with_mask(0x1234_5678, 0x200, true), 0x1234_5678);
    assert_eq!(with_mask(0x1234_5678, 0x8, false), 0x1234_5670);
}

#[test]
fn has_mask_wants_every_bit() {
    assert!(has_mask(0x0000_0002, 0x2));
    assert!(!has_mask(0xFFFF_FFFD, 0x2));
    assert!(has_mask(0x0000_1C00, 0x1C00));
    assert!(!has_mask(0x0000_1800, 0x1C00));
    assert!(has_mask(0, 0));
}

#[test]
fn with_pad_mode_replaces_the_selector() {
    assert_eq!(with_pad_mode(0xFFFF_FFFF, GpioPadMode::Gpio), 0xFFFF_E3FF);
    assert_eq!(with_pad_mode(0xFFFF_FFFF, GpioPadMode::Nf5), 0xFFFF_F7FF);
    assert_eq!(with_pad_mode(0x0000_0000, GpioPadMode::Nf7), 0x0000_1C00);
    assert_eq!(with_pad_mode(0x4400_0702, GpioPadMode::Nf2), 0x4400_0B02);
}

#[test]
fn new_reports_unresolved_pad() {
    let board = Board::new(&[0]);
    match Gpio::new(&board, 0x6A, 0x27) {
        Ok(_) => panic!("pad should not resolve"),
        Err(err) => assert_eq!(err, GpioNotFound { port: 0x6A, pad: 0x27 }),
    }
    assert!(board.log().is_empty());
}

#[test]
fn a_pad_knows_which_pad_it_is() {
    let board = Board::new(&[0]);
    let mut pad = board.pad();
    assert_eq!(pad.pad(), Pad { port: 0x6A, pad: 0x26 });
    pad.set_tx(true);
    pad.set_pad_mode(GpioPadMode::Nf1);
    assert_eq!(pad.pad(), Pad { port: 0x6A, pad: 0x26 });
    let cell = Cell { shows: board.shows.clone(), log: board.log.clone() };
    let other = Gpio::from_handle(Some(cell), 0x6E, 0x82).unwrap();
    assert_eq!(other.pad(), Pad { port: 0x6E, pad: 0x82 });
}

#[test]
fn new_does_not_touch_the_register() {
    let board = Board::new(&[0x1234]);
    let _pad = board.pad();
    assert!(board.log().is_empty());
}

#[test]
fn from_handle_wraps_what_it_is_given() {
    let board = Board::new(&[7]);
    let cell = Cell { shows: board.shows.clone(), log: board.log.clone() };
    let mut pad = Gpio::from_handle(Some(cell), 1, 2).unwrap();
    assert_eq!(pad.get_config(), 7);
    match Gpio::<Cell>::from_handle(None, 1, 2) {
        Ok(_) => panic!("there is no handle"),
        Err(err) => assert_eq!(err, GpioNotFound { port: 1, pad: 2 }),
    }
}

#[test]
fn get_config_and_set_config_are_single_accesses() {
    let board = Board::new(&[0xCAFE_F00D]);
    let mut pad = board.pad();
    assert_eq!(pad.get_config(), 0xCAFE_F00D);
    pad.set_config(0x0BAD_CAFE);
    assert_eq!(board.log(), vec![(false, 0xCAFE_F00D), (true, 0x0BAD_CAFE)]);
}

#[test]
fn set_pad_mode_rewrites_only_the_mode_field() {
    let board = Board::new(&[0xFFFF_FFFF]);
    let mut pad = board.pad();
    pad.set_pad_mode(GpioPadMode::Nf3);
    assert_eq!(board.log(), vec![(false, 0xFFFF_FFFF), (true, 0xFFFF_EFFF)]);
}

#[test]
fn enable_rx_has_the_inverted_sense() {
    let board = Board::new(&[0x4400_0702]);
    let mut pad = board.pad();
    pad.enable_rx(true);
    pad.enable_rx(false);
    assert_eq!(
        board.log(),
        vec![(false, 0x4400_0702), (true, 0x4400_0502), (false, 0x4400_0702), (true, 0x4400_0702)]
    );
}

#[test]
fn enable_tx_has_the_inverted_sense() {
    let board = Board::new(&[0x4400_0702]);
    let mut pad = board.pad();
    pad.enable_tx(true);
    pad.enable_tx(false);
    assert_eq!(
        board.log(),
        vec![(false, 0x4400_0702), (true, 0x4400_0602), (false, 0x4400_0702), (true, 0x4400_0702)]
    );
}

#[test]
fn set_tx_drives_the_level_bit() {
    let board = Board::new(&[0x4400_0200]);
    let mut pad = board.pad();
    pad.set_tx(true);
    pad.set_tx(false);
    assert_eq!(
        board.log(),
        vec![(false, 0x4400_0200), (true, 0x4400_0201), (false, 0x4400_0200), (true, 0x4400_0200)]
    );
}

#[test]
fn get_rx_and_get_tx_read_the_level_bits() {
    let board = Board::new(&[0x2, 0x1, 0x3, 0x0]);
    let mut pad = board.pad();
    assert!(pad.get_rx());
    assert!(!pad.get_rx());
    assert!(pad.get_tx());
    assert!(!pad.get_tx());
    assert_eq!(board.log(), vec![(false, 0x2), (false, 0x1), (false, 0x3), (false, 0x0)]);
}

#[test]
fn get_mask_reads_once() {
    let board = Board::new(&[0x0300]);
    let mut pad = board.pad();
    assert!(pad.get_mask(0x0300));
    assert!(!pad.get_mask(0x0700));
    assert_eq!(board.log(), vec![(false, 0x0300), (false, 0x0300)]);
}

#[test]
fn every_operation_reads_the_live_register() {
    // The register shows something else at each read; nothing is cached.
    let board = Board::new(&[0x0000_0000, 0xFFFF_FFFF, 0x0000_0300]);
    let mut pad = board.pad();
    pad.set_mask(0x10, true);
    pad.set_mask(0x10, false);
    pad.enable_tx(true);
    assert_eq!(
        board.log(),
        vec![
            (false, 0x0000_0000),
            (true, 0x0000_0010),
            (false, 0xFFFF_FFFF),
            (true, 0xFFFF_FFEF),
            (false, 0x0000_0300),
            (true, 0x0000_0200),
        ]
    );
}
