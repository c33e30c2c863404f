use naia_lite::rollover_counter::RolloverCounter;
use naia_lite::seq_num::SeqNum;

#[test]
fn rollover_counter_infer() {
    let counter = RolloverCounter { rollovers: 1, seq: 10.into() };
    assert_eq!(counter.value(), 1 << SeqNum::SIZE_BITS | 10);
    assert_eq!(counter.infer(SeqNum(9)), counter.value() - 1);
    assert_eq!(counter.infer(SeqNum(11)), counter.value() + 1);

    let counter = RolloverCounter { rollovers: 1, seq: 0.into() };
    assert_eq!(counter.infer(SeqNum::max()), counter.value() - 1);

    let counter = RolloverCounter { rollovers: 1, seq: SeqNum::max() };
    assert_eq!(counter.infer(0.into()), counter.value() + 1);
}

#[test]
fn rollover_counter_incr() {
    let mut counter = RolloverCounter { rollovers: 0, seq: SeqNum::max() };
    assert_eq!(counter.value(), SeqNum::max().0.into());

    counter.incr();
    assert_eq!(counter.value(), 1 << SeqNum::SIZE_BITS);

    counter = RolloverCounter::max();
    counter.incr();
    assert_eq!(counter.value(), 0);
}

#[test]
fn rollover_counter_update() {
    let mut counter = RolloverCounter { rollovers: 0, seq: SeqNum::max() };
    assert_eq!(counter.value(), SeqNum::max().0.into());

    // forward
    counter.advance(3.into());
    assert_eq!(counter.rollovers, 1);
    assert_eq!(counter.seq, 3.into());

    // backward
    counter.advance(0.into());
    assert_eq!(counter.rollovers, 1);
    assert_eq!(counter.seq, 3.into());
}

#[test]
fn rollover_counter_infer_clamps_at_zero() {
    let counter = RolloverCounter::zero();
    assert_eq!(counter.infer(SeqNum(65535)), 0);
    assert_eq!(counter.infer(SeqNum(5)), 5);
    assert_eq!(counter.seq(), SeqNum(0));
}

#[test]
fn seq_num_diff_and_add_diff() {
    assert_eq!(SeqNum(5).diff(SeqNum(3)), 2);
    assert_eq!(SeqNum(3).diff(SeqNum(5)), -2);
    assert_eq!(SeqNum(1).diff(SeqNum(65535)), 2);
    assert_eq!(SeqNum(65535).diff(SeqNum(1)), -2);
    assert_eq!(SeqNum(32768).diff(SeqNum(0)), -32768);
    assert_eq!(SeqNum(0).diff(SeqNum(32768)), -32768);
    assert_eq!(SeqNum(65535).add_diff(2), SeqNum(1));
    assert_eq!(SeqNum(1).add_diff(-2), SeqNum(65535));
    let a = SeqNum(12);
    let b = SeqNum(60000);
    assert_eq!(b.add_diff(a.diff(b)), a);
}

#[test]
fn seq_num_order_wraps() {
    assert!(SeqNum(5) > SeqNum(3));
    assert!(SeqNum(0) > SeqNum(65535));
    assert!(SeqNum(65535) < SeqNum(0));
    assert!(SeqNum(32768) > SeqNum(0));
    assert!(!(SeqNum(0) > SeqNum(32768)));
    assert!(SeqNum(7) >= SeqNum(7));
    let mut s = SeqNum::max();
    s.incr();
    assert_eq!(s, SeqNum::zero());
    assert_eq!(SeqNum::min(), SeqNum(0));
    assert_eq!(SeqNum::default(), SeqNum(0));
    assert_eq!(SeqNum(2).plus(65535), SeqNum(1));
    assert_eq!(SeqNum(2).minus(3), SeqNum(65535));
}

#[test]
fn seq_num_operators_wrap() {
    assert_eq!(SeqNum(65535) + 1u16, SeqNum(0));
    assert_eq!(SeqNum(10) + SeqNum(5), SeqNum(15));
    assert_eq!(SeqNum(0) - 1u16, SeqNum(65535));
    assert_eq!(SeqNum(3) - SeqNum(5), SeqNum(65534));
    let mut s = SeqNum(65534);
    s += 3u16;
    assert_eq!(s, SeqNum(1));
    s -= 2u16;
    assert_eq!(s, SeqNum(65535));
    let raw: u16 = SeqNum(42).into();
    assert_eq!(raw, 42);
}
