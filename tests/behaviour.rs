use rasengan::Rasengan;

#[test]
fn retains_at_most_capacity_values() {
    let mut b = Rasengan::<u32, 3>::new();
    for v in 1..=5u32 {
        b.write(v);
    }
    assert_eq!(b.read(), Some(3));
    assert_eq!(b.read(), Some(4));
    assert_eq!(b.read(), Some(5));
    assert_eq!(b.read(), None);
}

#[test]
fn retains_every_value_below_capacity() {
    let mut b = Rasengan::<u32, 4>::new();
    b.write(10);
    b.write(20);
    assert_eq!(b.read(), Some(10));
    assert_eq!(b.read(), Some(20));
    assert_eq!(b.read(), None);
}

#[test]
fn reads_oldest_first_after_many_wraps() {
    let mut b = Rasengan::<u32, 3>::new();
    for v in 0..100u32 {
        b.write(v);
    }
    assert_eq!(b.read(), Some(97));
    assert_eq!(b.read(), Some(98));
    assert_eq!(b.read(), Some(99));
    assert_eq!(b.read(), None);
}

#[test]
fn capacity_one_keeps_newest() {
    let mut b = Rasengan::<i64, 1>::new();
    b.write(-1);
    b.write(-2);
    b.write(-3);
    assert_eq!(b.read(), Some(-3));
    assert_eq!(b.read(), None);
}

#[test]
fn eviction_drops_first_of_capacity_plus_one() {
    let mut b = Rasengan::<u8, 4>::new();
    for v in 1..=5u8 {
        b.write(v);
    }
    assert_eq!(b.read(), Some(2));
    assert_eq!(b.read(), Some(3));
    assert_eq!(b.read(), Some(4));
    assert_eq!(b.read(), Some(5));
}

#[test]
fn empty_reads_return_none_repeatedly() {
    let mut b = Rasengan::<u8, 2>::new();
    assert_eq!(b.read(), None);
    assert_eq!(b.read(), None);
    b.write(7);
    assert_eq!(b.read(), Some(7));
    assert_eq!(b.read(), None);
    assert_eq!(b.read(), None);
    b.write(8);
    assert_eq!(b.read(), Some(8));
}

#[test]
fn interleaving_scenario() {
    let mut b = Rasengan::<u8, 3>::new();
    b.write(1);
    assert_eq!(b.read(), Some(1));
    b.write(2);
    b.write(3);
    assert_eq!(b.read(), Some(2));
    b.write(4);
    b.write(5);
    b.write(6);
    assert_eq!(b.read(), Some(4));
    assert_eq!(b.read(), Some(5));
    assert_eq!(b.read(), Some(6));
    assert_eq!(b.read(), None);
}

#[test]
fn round_trip_at_capacity() {
    let mut b = Rasengan::<char, 3>::new();
    b.write('a');
    b.write('b');
    b.write('c');
    assert_eq!(b.read(), Some('a'));
    assert_eq!(b.read(), Some('b'));
    assert_eq!(b.read(), Some('c'));
    assert_eq!(b.read(), None);
}

#[test]
fn write_unique_skips_consecutive_duplicates() {
    let mut b = Rasengan::<u8, 3>::new();
    b.write_unique(1);
    b.write_unique(2);
    b.write_unique(2);
    assert_eq!(b.read(), Some(1));
    assert_eq!(b.read(), Some(2));
    assert_eq!(b.read(), None);
}

#[test]
fn write_unique_stores_non_consecutive_repeats() {
    let mut b = Rasengan::<u8, 3>::new();
    b.write_unique(1);
    b.write_unique(2);
    b.write_unique(1);
    assert_eq!(b.read(), Some(1));
    assert_eq!(b.read(), Some(2));
    assert_eq!(b.read(), Some(1));
    assert_eq!(b.read(), None);
}

#[test]
fn write_unique_compares_with_last_written_even_when_read() {
    let mut b = Rasengan::<u8, 3>::new();
    b.write_unique(5);
    assert_eq!(b.read(), Some(5));
    b.write_unique(5);
    assert_eq!(b.read(), None);
    b.write_unique(6);
    assert_eq!(b.read(), Some(6));
}

#[test]
fn write_unique_first_write_always_stored() {
    let mut b = Rasengan::<u8, 2>::new();
    b.write_unique(0);
    assert_eq!(b.read(), Some(0));
}

#[test]
fn new_const_default_starts_empty() {
    let mut b = Rasengan::<u16, 2>::new_const_default();
    assert_eq!(b.read(), None);
    b.write(300);
    b.write(301);
    b.write(302);
    assert_eq!(b.read(), Some(301));
    assert_eq!(b.read(), Some(302));
    assert_eq!(b.read(), None);
}
