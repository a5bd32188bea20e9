use split_puzzle::cell_set::CellBitmap;
use split_puzzle::index::CellIdx;

#[test]
fn empty_holds_no_cell() {
    let set = CellBitmap::empty();
    assert_eq!(set.bits, 0);
    for cell in 0..64 {
        assert!(!set.get(CellIdx::new(cell)));
    }
    assert!(set.is_empty());
    assert_eq!(set.lowest_true_bit(), CellIdx::new(64));
}

#[test]
fn from_bits_keeps_the_word() {
    let set = CellBitmap::from_bits(0b1010);
    assert_eq!(set.bits, 0b1010);
    assert!(!set.get(CellIdx::new(0)));
    assert!(set.get(CellIdx::new(1)));
    assert!(!set.get(CellIdx::new(2)));
    assert!(set.get(CellIdx::new(3)));
}

#[test]
fn set_and_unset_change_one_cell() {
    let mut set = CellBitmap::empty();
    set.set(CellIdx::new(5));
    set.set(CellIdx::new(63));
    assert!(set.get(CellIdx::new(5)));
    assert!(set.get(CellIdx::new(63)));
    assert!(!set.get(CellIdx::new(6)));
    assert_eq!(set.bits, (1u64 << 5) | (1u64 << 63));
    set.unset(CellIdx::new(5));
    assert!(!set.get(CellIdx::new(5)));
    assert!(set.get(CellIdx::new(63)));
    set.unset(CellIdx::new(5));
    assert_eq!(set.bits, 1u64 << 63);
}

#[test]
fn lowest_true_bit_is_the_lowest_member() {
    let mut set = CellBitmap::empty();
    set.set(CellIdx::new(40));
    assert_eq!(set.lowest_true_bit(), CellIdx::new(40));
    set.set(CellIdx::new(7));
    assert_eq!(set.lowest_true_bit(), CellIdx::new(7));
    set.set(CellIdx::new(0));
    assert_eq!(set.lowest_true_bit(), CellIdx::new(0));
}

#[test]
fn singleton_and_below() {
    assert_eq!(CellBitmap::singleton(CellIdx::new(3)).bits, 0b1000);
    assert_eq!(CellBitmap::below(CellIdx::new(3)).bits, 0b0111);
    assert_eq!(CellBitmap::below(CellIdx::new(0)).bits, 0);
    assert_eq!(CellBitmap::singleton(CellIdx::new(63)).bits, 1u64 << 63);
    assert_eq!(CellBitmap::below(CellIdx::new(63)).bits, u64::MAX >> 1);
}

#[test]
fn operators_are_the_set_operations() {
    let a = CellBitmap::from_bits(0b0110);
    let b = CellBitmap::from_bits(0b0011);
    assert_eq!((a | b).bits, 0b0111);
    assert_eq!((a & b).bits, 0b0010);
    assert_eq!((!a).bits, !0b0110u64);
    assert_eq!((a & !b).bits, 0b0100);
    let mut c = a;
    c |= b;
    assert_eq!(c.bits, 0b0111);
    let mut d = a;
    d &= b;
    assert_eq!(d.bits, 0b0010);
}

#[test]
fn complement_twice_is_the_set() {
    let a = CellBitmap::from_bits(0xdead_beef_0123_4567);
    assert_eq!(!!a, a);
    assert_eq!((a & !a), CellBitmap::empty());
    assert_eq!((a | !a).bits, u64::MAX);
}
