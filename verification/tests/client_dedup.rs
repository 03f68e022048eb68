//! Messages that were seen.

use rust_im::client::dedup::DedupWindow;

#[test]
fn admits_first_and_rejects_duplicate() {
    let mut window = DedupWindow::new(4);
    assert!(window.accept((1, 100)));
    assert!(!window.accept((1, 100)), "重复应被拦截");
    assert!(window.accept((2, 100)));
}

#[test]
fn evicts_oldest_when_full() {
    let mut window = DedupWindow::new(2);
    assert!(window.accept((1, 1)));
    assert!(window.accept((1, 2)));
    assert!(window.accept((1, 3)), "满了逐出最旧，新键照常放行");
    assert!(window.accept((1, 1)), "被逐出的键视为没见过（有界语义）");
    assert!(!window.accept((1, 3)), "窗口内的键仍被拦截");
}

/// Keys with the same numbers in another order are different.
#[test]
fn sender_and_number_do_not_mix() {
    let mut window = DedupWindow::new(8);
    assert!(window.accept((1, 2)));
    assert!(window.accept((2, 1)));
    assert!(!window.accept((1, 2)));
}
