use rand::{thread_rng, RngCore};
use storage_core::page::{Page, PAGE_SIZE};

#[test]
fn page_should_read_write_page() {
    let mut page = Page::new();
    let mut copy = [0; PAGE_SIZE];
    page.access_page_data(|mut data| {
        thread_rng().fill_bytes(&mut data);
        copy.clone_from_slice(&data);
        (data, ())
    });
    page.reset();
    page.access_page_data(|data| {
        assert_ne!(&copy[..], &data[..]);
        (data, ())
    });
}

#[test]
fn should_pin_unpin_page() {
    let mut page = Page::new();
    page.pin();
    page.pin();
    assert_eq!(page.get_pin_count(), 2);
    page.unpin();
    page.unpin();
    assert_eq!(page.get_pin_count(), 0);
}

#[test]
fn should_set_unset_is_dirty() {
    let mut page = Page::new();
    page.set_dirty(true);
    assert!(page.is_dirty());
    page.set_dirty(false);
    assert!(!page.is_dirty());
}

#[test]
fn should_set_reset_page_id() {
    let mut page = Page::new();
    page.set_page_id(123);
    assert_eq!(page.get_page_id(), Some(123));
    page.reset();
    assert_eq!(page.get_page_id(), None);
}

#[test]
fn reset_keeps_pin_count_and_clears_dirty() {
    let mut page = Page::new();
    page.pin();
    page.set_dirty(true);
    page.set_page_id(5);
    page.access_page_data(|mut data| {
        data[0] = 9;
        (data, ())
    });
    page.reset();
    assert_eq!(page.get_pin_count(), 1);
    assert!(!page.is_dirty());
    let all_zero = page.access_page_data(|data| {
        let zero = data.iter().all(|b| *b == 0);
        (data, zero)
    });
    assert!(all_zero);
}

#[test]
fn access_page_data_keeps_what_the_function_gives_back() {
    let mut page = Page::new();
    let r = page.access_page_data(|mut data| {
        data[7] = 42;
        (data, data[7] as u32 + 1)
    });
    assert_eq!(r, 43);
    assert_eq!(page.data[7], 42);
    assert_eq!(page.data.iter().filter(|b| **b != 0).count(), 1);
}
