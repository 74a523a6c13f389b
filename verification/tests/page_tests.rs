use shortener::store::bptree::page::{Page, PageKind, HEADER_LEN, MAGIC};
use shortener::store::bptree::pager::{len_pages_for, page_offset, PAGE_SIZE};

#[test]
fn new_page_is_zeroed() {
    let p = Page::new(3);
    assert_eq!(p.id, 3);
    assert!(p.buf.iter().all(|b| *b == 0));
    assert!(!p.ok_magic());
    assert_eq!(p.read_kind(), PageKind::Meta);
    assert_eq!(p.payload_len(), 0);
    assert_eq!(p.lsn(), 0);
    assert_eq!(p.payload().len(), PAGE_SIZE - HEADER_LEN);
}

#[test]
fn header_fields_read_back() {
    let mut p = Page::new(1);
    p.set_magic();
    p.write_kind(PageKind::Leaf);
    p.set_payload_len(100);
    p.set_lsn(0x0102_0304_0506_0708);
    assert!(p.ok_magic());
    assert_eq!(p.read_kind(), PageKind::Leaf);
    assert_eq!(p.payload_len(), 100);
    assert_eq!(p.lsn(), 0x0102_0304_0506_0708);
    assert_eq!(&p.buf[0..4], &MAGIC.to_le_bytes());
    assert_eq!(p.buf[8], 2);
    assert_eq!(&p.buf[16..24], &[8, 7, 6, 5, 4, 3, 2, 1]);
    p.write_kind(PageKind::Internal);
    assert_eq!(p.read_kind(), PageKind::Internal);
    assert_eq!(p.lsn(), 0x0102_0304_0506_0708);
    p.write_kind(PageKind::Meta);
    assert_eq!(p.buf[8], 0);
}

#[test]
fn unknown_kind_reads_as_meta() {
    let mut p = Page::new(1);
    p.buf[8] = 9;
    assert_eq!(p.read_kind(), PageKind::Meta);
}

#[test]
fn payload_length_is_cut_to_32_bits() {
    let mut p = Page::new(1);
    p.set_payload_len((1usize << 32) + 5);
    assert_eq!(p.payload_len(), 5);
}

#[test]
fn payload_writes_land_after_the_header() {
    let mut p = Page::new(1);
    {
        let pl = p.payload_mut();
        pl[0] = 0xAB;
        pl[1] = 0xCD;
    }
    assert_eq!(p.buf[HEADER_LEN], 0xAB);
    assert_eq!(p.buf[HEADER_LEN + 1], 0xCD);
    assert_eq!(&p.payload()[0..2], &[0xAB, 0xCD]);
}

#[test]
fn pager_arithmetic() {
    assert_eq!(len_pages_for(0), 4096);
    assert_eq!(len_pages_for(8192), 12288);
    assert_eq!(page_offset(0), 0);
    assert_eq!(page_offset(3), 3 * 4096);
}
