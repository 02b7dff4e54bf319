use sf_winmd_gen::text::{push_decimal, push_hex};

#[test]
fn decimal_and_hex_text() {
    let mut s = String::new();
    push_decimal(&mut s, 0);
    push_decimal(&mut s, 1234567890);
    push_hex(&mut s, 0);
    push_hex(&mut s, 0xbeef10);
    assert_eq!(s, "012345678900x00xbeef10");
    let mut max = String::new();
    push_hex(&mut max, u32::MAX as u64);
    assert_eq!(max, format!("{:#x}", u32::MAX));
}
