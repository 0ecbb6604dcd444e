use mydisk::sd_driver::{interrupt_handler, new};
use mydisk::upcalls::UpcallCounter;

// The queue holds 32 calls; the 33rd is handed back.
#[test]
fn sd_driver_queue_is_bounded() {
    let mut d = new();
    for i in 0..16u8 {
        assert!(d.single_read([i; 512]).is_ok());
        assert!(d.single_write([i; 512]).is_ok());
    }
    assert!(d.single_read([0; 512]).is_err());
    assert!(d.single_write([1; 512]).is_err());
}

#[test]
fn sd_driver_fresh_accepts() {
    let mut d = new();
    assert!(d.single_write([7; 512]).is_ok());
    assert!(d.single_read([7; 512]).is_ok());
    interrupt_handler();
}

#[test]
fn upcall_counter_adds() {
    let mut s = UpcallCounter::new();
    s.one();
    s.two();
    s.one();
    assert_eq!(s.counter, 4);
}
