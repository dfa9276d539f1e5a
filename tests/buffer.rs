use std::cell::Cell;
use std::mem::ManuallyDrop;
use std::rc::Rc;

use circbuf::{Buffer, TryRecv};

fn got<T: Copy>(r: Option<ManuallyDrop<T>>) -> Option<T> {
    r.map(ManuallyDrop::into_inner)
}

#[test]
fn scenario_capacity_four() {
    let mut b: Buffer<&'static str> = Buffer::new(4);
    b.write(0, "a");
    b.write(1, "b");
    assert_eq!(got(b.read(0)), Some("a"));
    assert_eq!(got(b.read(1)), Some("b"));
    assert_eq!(got(b.read(2)), None);
    b.write(4, "e");
    assert_eq!(got(b.read(0)), None);
    assert_eq!(got(b.read(4)), Some("e"));
}

#[test]
fn new_buffer_reads_nothing() {
    for cap in [1usize, 2, 8, 64] {
        let b: Buffer<u32> = Buffer::new(cap);
        assert_eq!(b.cap(), cap);
        for p in 0..(3 * cap) {
            assert_eq!(got(b.read(p)), None);
        }
    }
}

#[test]
fn reused_slot_hides_stale_value() {
    let mut b: Buffer<u64> = Buffer::new(8);
    b.write(5, 50);
    assert_eq!(got(b.read(5)), Some(50));
    b.write(13, 130);
    assert_eq!(got(b.read(5)), None);
    assert_eq!(got(b.read(13)), Some(130));
    assert_eq!(got(b.read(21)), None);
}

#[test]
fn write_leaves_other_slots_alone() {
    let mut b: Buffer<i32> = Buffer::new(4);
    b.write(2, -2);
    b.write(3, -3);
    b.write(6, -6);
    assert_eq!(got(b.read(3)), Some(-3));
    assert_eq!(got(b.read(2)), None);
    assert_eq!(got(b.read(6)), Some(-6));
}

#[test]
fn last_write_wins_over_many_cycles() {
    let mut b: Buffer<usize> = Buffer::new(4);
    for p in 0..40usize {
        b.write(p, p * 10);
    }
    for p in 0..36usize {
        assert_eq!(got(b.read(p)), None);
    }
    for p in 36..40usize {
        assert_eq!(got(b.read(p)), Some(p * 10));
    }
}

#[test]
fn masking_shares_slots_one_cycle_apart() {
    let b: Buffer<u8> = Buffer::new(8);
    for p in 0..32usize {
        assert!(std::ptr::eq(b.at(p), b.at(p + 8)));
        for q in 0..32usize {
            if q != p && p.abs_diff(q) < 8 {
                assert!(!std::ptr::eq(b.at(p), b.at(q)));
            }
        }
    }
}

#[test]
fn masking_handles_large_positions() {
    let mut b: Buffer<u8> = Buffer::new(16);
    let p = usize::MAX - 3;
    b.write(p, 1);
    assert_eq!(got(b.read(p)), Some(1));
    assert_eq!(got(b.read(p - 16)), None);
    assert!(std::ptr::eq(b.at(p), b.at(p - 16)));
}

#[test]
fn read_unchecked_returns_stale_payload() {
    let mut b: Buffer<char> = Buffer::new(2);
    b.write(1, 'x');
    assert_eq!(ManuallyDrop::into_inner(b.read_unchecked(1)), 'x');
    assert_eq!(ManuallyDrop::into_inner(b.read_unchecked(3)), 'x');
    assert_eq!(got(b.read(3)), None);
    b.write(3, 'y');
    assert_eq!(ManuallyDrop::into_inner(b.read_unchecked(1)), 'y');
}

struct Counted(Rc<Cell<usize>>);

impl Drop for Counted {
    fn drop(&mut self) {
        self.0.set(self.0.get() + 1);
    }
}

#[test]
fn discarding_buffer_destroys_nothing() {
    let drops = Rc::new(Cell::new(0usize));
    {
        let mut b: Buffer<Counted> = Buffer::new(4);
        b.write(0, Counted(drops.clone()));
        b.write(1, Counted(drops.clone()));
        b.write(4, Counted(drops.clone()));
        assert_eq!(drops.get(), 0);
    }
    assert_eq!(drops.get(), 0);
    assert_eq!(Rc::strong_count(&drops), 4);
}

#[test]
fn try_recv_map_applies_to_data_only() {
    let d: TryRecv<u32> = TryRecv::Data(21);
    assert_eq!(d.map(|x| x * 2), TryRecv::Data(42));
    let e: TryRecv<u32> = TryRecv::Empty;
    assert_eq!(e.map(|x| x * 2), TryRecv::Empty);
    let r: TryRecv<u32> = TryRecv::Retry;
    assert_eq!(r.map(|x| x * 2), TryRecv::Retry);
}

#[test]
fn try_recv_map_changes_type() {
    let d: TryRecv<u8> = TryRecv::Data(7);
    assert_eq!(d.map(|x| format!("v{}", x)), TryRecv::Data(String::from("v7")));
}
