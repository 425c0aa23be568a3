use fan_controller::window::CircleBuf;

#[test]
fn max_after_filling_reports_largest() {
    let mut w: CircleBuf<u8> = CircleBuf::new(vec![0u8; 4]);
    w.push(5);
    w.push(10);
    w.push(20);
    w.push(15);
    assert_eq!(w.max(), 20);
}

#[test]
fn mean_after_filling_reports_arithmetic_mean() {
    let mut w: CircleBuf<u32> = CircleBuf::new(vec![0u32; 4]);
    w.push(10);
    w.push(20);
    w.push(30);
    w.push(40);
    assert_eq!(w.mean(), 25);
}

#[test]
fn push_beyond_capacity_overwrites_oldest() {
    let mut w: CircleBuf<u32> = CircleBuf::new(vec![0u32; 3]);
    w.push(1);
    w.push(2);
    w.push(3);
    // the fourth push replaces the first value
    w.push(9);
    assert_eq!(w.mean(), (9 + 2 + 3) / 3);

    let mut m: CircleBuf<u8> = CircleBuf::new(vec![0u8; 3]);
    m.push(9);
    m.push(8);
    m.push(7);
    m.push(1);
    assert_eq!(m.max(), 8);
}

#[test]
fn initial_slots_count_until_overwritten() {
    let mut w: CircleBuf<u32> = CircleBuf::new(vec![600u32; 3]);
    w.push(300);
    // one slot overwritten, two still hold the seed value
    assert_eq!(w.mean(), (300 + 600 + 600) / 3);
}

#[test]
fn capacity_is_fixed() {
    let mut w: CircleBuf<u8> = CircleBuf::new(vec![0u8; 5]);
    assert_eq!(w.len(), 5);
    for i in 0..12u8 {
        w.push(i);
    }
    assert_eq!(w.len(), 5);
    assert_eq!(w.max(), 11);
}
