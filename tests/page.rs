use lightdb::block::Block;
use lightdb::page::{Page, PageError, PAGE_SIZE};

fn bound_page() -> Page {
    Page::new(Some(Block {
        name: "lightdb.bin".to_string(),
        id: 0,
    }))
}

#[test]
fn int_read_write() {
    let mut page = bound_page();
    page.set_int(10, 20).unwrap();
    let val = page.get_u64(10).unwrap();
    assert_eq!(val, 20);
}

#[test]
fn string_read_write() {
    let mut page = bound_page();
    page.set_string(10, String::from("abcde")).unwrap();
    let string = page.get_string(10).unwrap();
    assert_eq!(string, String::from("abcde"));
}

#[test]
fn u64_read_write() {
    let mut page = bound_page();
    page.set_u64(0, 20).unwrap();
    assert_eq!(page.get_u64(0), Ok(20));
}

#[test]
fn fresh_page_is_zero() {
    let page = Page::new(None);
    assert_eq!(page.get_u64(0), Ok(0));
    assert_eq!(page.get_content().len(), PAGE_SIZE);
    assert!(page.get_content().iter().all(|b| *b == 0));
    assert!(page.get_block().is_none());
}

#[test]
fn block_is_kept() {
    let page = bound_page();
    let b = page.get_block().unwrap();
    assert_eq!(b, Block { name: "lightdb.bin".to_string(), id: 0 });
}

#[test]
fn int_layout_is_little_endian() {
    let mut page = Page::new(None);
    page.set_int(0, 0x0102_0304).unwrap();
    assert_eq!(&page.get_content()[0..4], &[4u8, 3, 2, 1]);
    page.set_int(4, -2).unwrap();
    assert_eq!(&page.get_content()[4..8], &[0xfeu8, 0xff, 0xff, 0xff]);
    assert_eq!(page.get_int(4), Ok(-2));
    assert_eq!(page.get_int(0), Ok(0x0102_0304));
}

#[test]
fn int_extremes_round_trip() {
    let mut page = Page::new(None);
    for v in [i32::MIN, -1, 0, 1, i32::MAX] {
        page.set_int(4092, v).unwrap();
        assert_eq!(page.get_int(4092), Ok(v));
    }
    for v in [0u64, 1, u64::MAX, 0x0102_0304_0506_0708] {
        page.set_u64(4088, v).unwrap();
        assert_eq!(page.get_u64(4088), Ok(v));
    }
    page.set_u64(0, 0x0102_0304_0506_0708).unwrap();
    assert_eq!(&page.get_content()[0..8], &[8u8, 7, 6, 5, 4, 3, 2, 1]);
}

#[test]
fn out_of_bounds_leaves_page_unchanged() {
    let mut page = Page::new(None);
    page.set_u64(100, 7).unwrap();
    let before = page.get_content().to_vec();
    assert_eq!(page.set_int(4093, 1), Err(PageError::OutOfBounds));
    assert_eq!(page.set_u64(4089, 1), Err(PageError::OutOfBounds));
    assert_eq!(page.set_u64(u64::MAX, 1), Err(PageError::OutOfBounds));
    assert_eq!(page.write_u8_vec(4090, &vec![1, 2, 3, 4, 5, 6, 7]), Err(PageError::OutOfBounds));
    assert_eq!(page.set_string(4090, String::from("abc")), Err(PageError::OutOfBounds));
    assert_eq!(page.get_content(), &before[..]);
    assert_eq!(page.get_int(4093), Err(PageError::OutOfBounds));
    assert_eq!(page.get_u64(4089), Err(PageError::OutOfBounds));
    assert_eq!(page.get_string(4089), Err(PageError::OutOfBounds));
    let mut out = vec![9u8];
    assert_eq!(page.read_u8_vec(4000, 4097, &mut out), Err(PageError::OutOfBounds));
    assert_eq!(out, vec![9u8]);
}

#[test]
fn string_with_length_past_page_is_refused() {
    let mut page = Page::new(None);
    page.set_u64(4000, 100).unwrap();
    assert_eq!(page.get_string(4000), Err(PageError::InvalidLength));
}

#[test]
fn non_ascii_string_round_trip() {
    let mut page = Page::new(None);
    let s = String::from("héllo wörld ✓ 🦀");
    page.set_string(0, s.clone()).unwrap();
    assert_eq!(page.get_u64(0), Ok(s.len() as u64));
    assert_eq!(page.get_string(0), Ok(s));
}

#[test]
fn empty_string_and_full_page_string() {
    let mut page = Page::new(None);
    page.set_string(0, String::new()).unwrap();
    assert_eq!(page.get_string(0), Ok(String::new()));
    let long = "x".repeat(PAGE_SIZE - 8);
    page.set_string(0, long.clone()).unwrap();
    assert_eq!(page.get_string(0), Ok(long));
    assert_eq!(page.set_string(1, "y".repeat(PAGE_SIZE - 8)), Err(PageError::OutOfBounds));
}

#[test]
fn invalid_utf8_is_replaced() {
    let mut page = Page::new(None);
    page.set_u64(0, 3).unwrap();
    page.write_u8_vec(8, &vec![b'a', 0xff, b'b']).unwrap();
    assert_eq!(page.get_string(0), Ok(String::from("a\u{fffd}b")));
}

#[test]
fn byte_ranges() {
    let mut page = Page::new(None);
    page.write_u8_vec(4093, &vec![1, 2, 3]).unwrap();
    let mut out = vec![0u8];
    page.read_u8_vec(4092, 4096, &mut out).unwrap();
    assert_eq!(out, vec![0u8, 0, 1, 2, 3]);
    let mut empty = Vec::new();
    page.read_u8_vec(10, 10, &mut empty).unwrap();
    page.read_u8_vec(20, 10, &mut empty).unwrap();
    assert!(empty.is_empty());
    assert_eq!(page.read_u8_vec(5000, 10, &mut empty), Err(PageError::OutOfBounds));
    assert_eq!(page.read_u8_vec(5000, 5000, &mut empty), Err(PageError::OutOfBounds));
    assert!(empty.is_empty());
}

#[test]
fn mutable_content_writes_through() {
    let mut page = Page::new(None);
    page.get_mut_content()[3] = 42;
    assert_eq!(page.get_int(0), Ok(42 << 24));
}
