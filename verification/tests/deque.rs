use algorithms::deque::Stolen::{Data, Empty};
use algorithms::deque::{new, Deque, Stolen};

#[test]
fn smoke() {
    let (w, s) = new::<isize>();
    assert_eq!(w.pop(), None);
    assert_eq!(s.steal(), Empty);
    w.push(1);
    assert_eq!(w.pop(), Some(1));
    w.push(1);
    assert_eq!(s.steal(), Data(1));
    w.push(1);
    assert_eq!(s.clone().steal(), Data(1));

    assert_eq!(w.pop(), None);
    assert_eq!(s.steal(), Empty);
}

#[test]
fn worker_pops_last_pushed_and_stealer_takes_oldest() {
    let (w, s) = new::<i32>();
    for i in 0..100 {
        w.push(i);
    }
    assert_eq!(w.pop(), Some(99));
    assert_eq!(s.steal(), Data(0));
    assert_eq!(s.steal(), Data(1));
    assert_eq!(w.pop(), Some(98));
    let mut left = 0;
    while let Data(_) = s.steal() {
        left += 1;
    }
    assert_eq!(left, 96);
    assert_eq!(w.pop(), None);
}

#[test]
fn deque_grows_past_its_first_ring() {
    let mut d: Deque<u64> = Deque::new();
    for i in 0..10 {
        d.push(i);
    }
    for i in 0..5 {
        assert!(d.steal() == Stolen::Data(i));
    }
    for i in 10..80 {
        d.push(i);
    }
    for i in (5..80).rev() {
        assert_eq!(d.pop(), Some(i));
    }
    assert_eq!(d.pop(), None);
    assert!(d.steal() == Stolen::Empty);
}
