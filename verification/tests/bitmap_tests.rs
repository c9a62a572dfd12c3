use lab_allocator::bitmap::Bitmap;

#[test]
fn bitmap_set() {
    let mut bitmap = Bitmap::new(vec![0, 0]);

    bitmap.set(5, 10);
    assert_eq!(bitmap.bits, vec![0x07fe000000000000, 0x0000000000000000]);

    bitmap.unset(7, 10);
    assert_eq!(bitmap.bits, vec![0x0600000000000000, 0x0000000000000000]);

    bitmap.set(56, 10);
    assert_eq!(bitmap.bits, vec![0x06000000000000ff, 0xc000000000000000]);

    bitmap.unset(62, 10);
    assert_eq!(bitmap.bits, vec![0x06000000000000fc, 0x0000000000000000]);
}

#[test]
fn bitmap_clear_zeroes_words() {
    let mut bitmap = Bitmap::new(vec![0xdead_beef_0123_4567, 0xffff_ffff_ffff_ffff]);
    bitmap.clear();
    assert_eq!(bitmap.bits, vec![0, 0]);
}

// Writing a clear range and clearing it again restores every bit.
#[test]
fn bitmap_set_unset_roundtrip() {
    let original = vec![0xdead_0000_0000_0000u64, 0x0000_0000_0000_ffffu64];
    let mut bitmap = Bitmap::new(original.clone());
    // bits 20..30 of the first word and 64..112 of the second are clear
    bitmap.set(20, 10);
    assert_ne!(bitmap.bits, original);
    bitmap.unset(20, 10);
    assert_eq!(bitmap.bits, original);

    bitmap.set(64, 48);
    bitmap.unset(64, 48);
    assert_eq!(bitmap.bits, original);
}

// Setting a full word and beyond uses whole-word strides; exact values.
#[test]
fn bitmap_set_across_words() {
    let mut bitmap = Bitmap::new(vec![0, 0, 0]);
    bitmap.set(0, 64);
    assert_eq!(bitmap.bits, vec![u64::MAX, 0, 0]);
    bitmap.set(64, 100);
    assert_eq!(bitmap.bits, vec![u64::MAX, u64::MAX, 0xffff_ffff_f000_0000]);
    bitmap.unset(0, 192);
    assert_eq!(bitmap.bits, vec![0, 0, 0]);
}
