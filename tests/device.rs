use tas2563::hl::Tas2563;
use tas2563::ll::i2c::Address;
use tas2563::ll::spi::{read_frame, write_frame};
use tas2563::ll::{consecutive_writes, RegisterAddress, Tas2563Device};

fn addr(book: u8, page: u8, register: u8) -> RegisterAddress {
    RegisterAddress {
        book,
        page,
        register,
    }
}

/// Runs the bank-select part of an access, with every write going through; returns the
/// meta-register writes made.
fn select<T>(dev: &mut Tas2563Device<T>, address: &RegisterAddress) -> Vec<(u8, u8)> {
    let mut writes = Vec::new();
    while let Some((register, value)) = dev.next_bank_write(address) {
        writes.push((register, value));
        dev.bank_written(register, value);
    }
    writes
}

#[test]
fn fresh_cache_selects_once_per_bank() {
    let mut dev = Tas2563Device::new_i2c((), Address::Global);
    assert_eq!(select(&mut dev, &addr(0, 0, 0x02)), vec![(0x00, 0x00), (0x7f, 0x00)]);
    assert_eq!(select(&mut dev, &addr(0, 0, 0x03)), vec![]);
}

#[test]
fn reset_assumptions_forces_reselect() {
    let mut dev = Tas2563Device::new_spi(());
    assert_eq!(select(&mut dev, &addr(0, 0, 0x02)).len(), 2);
    dev.reset_assumptions();
    assert_eq!(select(&mut dev, &addr(0, 0, 0x02)), vec![(0x00, 0x00), (0x7f, 0x00)]);
}

#[test]
fn page_is_selected_before_book() {
    let mut dev = Tas2563Device::new_i2c((), Address::Address0x4C);
    select(&mut dev, &addr(0, 0, 0x10));
    assert_eq!(select(&mut dev, &addr(3, 0, 0x10)), vec![(0x7f, 0x03)]);
    assert_eq!(select(&mut dev, &addr(3, 7, 0x10)), vec![(0x00, 0x07)]);
    assert_eq!(select(&mut dev, &addr(4, 8, 0x10)), vec![(0x00, 0x08), (0x7f, 0x04)]);
}

#[test]
fn failed_book_write_keeps_page() {
    let mut dev = Tas2563Device::new_i2c((), Address::Global);
    let a = addr(2, 5, 0x10);
    let first = dev.next_bank_write(&a).unwrap();
    assert_eq!(first, (0x00, 0x05));
    dev.bank_written(first.0, first.1);
    // The book write fails: nothing is recorded, so it is asked for again.
    assert_eq!(dev.next_bank_write(&a), Some((0x7f, 0x02)));
    assert_eq!(dev.next_bank_write(&a), Some((0x7f, 0x02)));
}

#[test]
fn meta_writes_follow_bank_transitions() {
    let mut dev = Tas2563Device::new_i2c((), Address::Global);
    let seq = [
        addr(0, 0, 1),
        addr(0, 0, 2),
        addr(0, 1, 3),
        addr(0, 1, 4),
        addr(1, 1, 5),
        addr(1, 1, 6),
        addr(0, 0, 7),
    ];
    let total: usize = seq.iter().map(|a| select(&mut dev, a).len()).sum();
    // Page changes: 0, 1, 0 (3); book changes: 0, 1, 0 (3).
    assert_eq!(total, 6);
}

#[test]
fn direct_register_writes_update_cache() {
    let mut dev = Tas2563Device::new_i2c((), Address::Global);
    dev.bank_written(0x00, 0x04);
    dev.bank_written(0x7f, 0x09);
    dev.bank_written(0x30, 0x01);
    assert_eq!(dev.next_bank_write(&addr(0x09, 0x04, 0x30)), None);
}

#[test]
fn register_address_u32_conversions() {
    let a = RegisterAddress::from(0x00_8c_02_30u32);
    assert_eq!(a, addr(0x8c, 0x02, 0x30));
    let back: u32 = a.into();
    assert_eq!(back, 0x00_8c_02_30);
    assert_eq!(RegisterAddress::from(0xff_01_02_03u32), addr(1, 2, 3));
}

#[test]
fn i2c_addresses() {
    assert_eq!(Address::Global.as_u8(), 0x48);
    assert_eq!(Address::Address0x4C.as_u8(), 0x4c);
    assert_eq!(Address::Address0x4F.as_u8(), 0x4f);
}

#[test]
fn spi_frames() {
    assert_eq!(write_frame(0x02, 0x0d), [0x04, 0x0d]);
    assert_eq!(read_frame(0x02), [0x05, 0x00]);
    assert_eq!(write_frame(0x7f, 0x01), [0xfe, 0x01]);
    assert_eq!(read_frame(0x7f), [0xff, 0x00]);
}

#[test]
fn bursts_unroll_to_ascending_single_writes() {
    assert_eq!(
        consecutive_writes(0x5c, &[0x0f, 0xa0, 0x01]),
        vec![(0x5c, 0x0f), (0x5d, 0xa0), (0x5e, 0x01)]
    );
    assert_eq!(consecutive_writes(0xff, &[0x07]), vec![(0xff, 0x07)]);
    assert_eq!(consecutive_writes(0x10, &[]), vec![]);
}

#[test]
fn handles_give_back_their_bus() {
    let mut hl = Tas2563::new_i2c(41u32, Address::Address0x4D);
    assert_eq!(hl.ll().next_bank_write(&addr(0, 0, 1)), Some((0x00, 0x00)));
    assert_eq!(hl.take(), 41);
    let spi = Tas2563::new_spi("bus");
    assert_eq!(spi.take(), "bus");
    let mut dev = Tas2563Device::new_i2c(7u8, Address::Global);
    *dev.interface().bus() = 8;
    assert_eq!(dev.interface().address(), Address::Global);
    assert_eq!(dev.take(), 8);
}

#[test]
fn burst_over_bank_selects_updates_cache() {
    let mut dev = Tas2563Device::new_i2c((), Address::Global);
    select(&mut dev, &addr(0, 0, 0x10));
    // A burst from 0x7e writes 0x7e, then book 0x05 at 0x7f, then 0x80.
    dev.bank_burst_written(&[0x7e, 0x11, 0x05, 0x22]);
    assert_eq!(dev.next_bank_write(&addr(0x05, 0, 0x10)), None);
    assert_eq!(dev.next_bank_write(&addr(0, 0, 0x10)), Some((0x7f, 0x00)));
    // One that wraps past 0xff lands on the page register.
    dev.bank_burst_written(&[0xff, 0x01, 0x09]);
    assert_eq!(dev.next_bank_write(&addr(0x05, 0x09, 0x10)), None);
}
