use lab_allocator::addr;

#[test]
fn ceil_addr() {
    assert_eq!(addr::ceil_addr(0, 16), 0);
    assert_eq!(addr::ceil_addr(1, 16), 16);
    assert_eq!(addr::ceil_addr(15, 16), 16);
    assert_eq!(addr::ceil_addr(16, 16), 16);
    assert_eq!(addr::ceil_addr(17, 16), 32);
}

#[test]
fn floor_addr() {
    assert_eq!(addr::floor_addr(0, 16), 0);
    assert_eq!(addr::floor_addr(1, 16), 0);
    assert_eq!(addr::floor_addr(15, 16), 0);
    assert_eq!(addr::floor_addr(16, 16), 16);
    assert_eq!(addr::floor_addr(17, 16), 16);
}

#[test]
fn lib_ceil_addr() {
    assert_eq!(addr::ceil_addr(0, 16), 0);
    assert_eq!(addr::ceil_addr(1, 16), 16);
    assert_eq!(addr::ceil_addr(15, 16), 16);
    assert_eq!(addr::ceil_addr(16, 16), 16);
    assert_eq!(addr::ceil_addr(17, 16), 32);
}

#[test]
fn lib_floor_addr() {
    assert_eq!(addr::floor_addr(0, 16), 0);
    assert_eq!(addr::floor_addr(1, 16), 0);
    assert_eq!(addr::floor_addr(15, 16), 0);
    assert_eq!(addr::floor_addr(16, 16), 16);
    assert_eq!(addr::floor_addr(17, 16), 16);
}
