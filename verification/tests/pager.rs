use sqjson::pager::Pager;
use sqjson::util::PAGE_SIZE;
use sqjson::DbError;

fn fresh_pager(pages: usize) -> Pager {
    Pager::new(memmap2::MmapMut::map_anon(PAGE_SIZE * pages).unwrap())
}

#[test]
fn written_page_reads_back() {
    let mut p = fresh_pager(4);
    let mut data = vec![0u8; PAGE_SIZE];
    data[0] = 0xab;
    data[PAGE_SIZE - 1] = 0xcd;
    p.write_page(2, &data).unwrap();
    let back = p.get_page(2).unwrap();
    assert_eq!(back, data);
    // Neighbouring pages stay zeroed.
    assert!(p.get_page(1).unwrap().iter().all(|&b| b == 0));
    assert!(p.get_page(3).unwrap().iter().all(|&b| b == 0));
}

#[test]
fn partial_write_changes_only_its_range() {
    let mut p = fresh_pager(2);
    p.write_page(1, &[7u8, 8, 9]).unwrap();
    let back = p.get_page(1).unwrap();
    assert_eq!(&back[0..3], &[7, 8, 9]);
    assert!(back[3..].iter().all(|&b| b == 0));
}

#[test]
fn out_of_range_page_is_rejected() {
    let mut p = fresh_pager(2);
    assert_eq!(p.get_page(2).unwrap_err(), DbError::PageOutOfBounds);
    assert_eq!(
        p.write_page(2, &[1u8]).unwrap_err(),
        DbError::PageOutOfBounds
    );
    assert_eq!(p.get_page(u32::MAX).unwrap_err(), DbError::PageOutOfBounds);
}

#[test]
fn oversized_write_is_rejected() {
    let mut p = fresh_pager(2);
    let data = vec![0u8; PAGE_SIZE + 1];
    assert_eq!(p.write_page(0, &data).unwrap_err(), DbError::ValueTooLarge);
}

#[test]
fn flush_succeeds_on_anonymous_map() {
    let mut p = fresh_pager(1);
    p.write_page(0, &[1u8, 2, 3]).unwrap();
    assert_eq!(p.flush(), Ok(()));
    assert_eq!(&p.get_page(0).unwrap()[0..3], &[1, 2, 3]);
}

#[test]
fn into_map_keeps_the_bytes() {
    let mut p = fresh_pager(1);
    p.write_page(0, &[42u8]).unwrap();
    let m = p.into_map();
    assert_eq!(m[0], 42);
}
