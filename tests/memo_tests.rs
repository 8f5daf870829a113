use bigfib::{BigInteger, Fib, IteratorExtensions, MemoizedSequence};
use std::cell::Cell;
use std::rc::Rc;

fn read_at<T: Iterator>(seq: &mut MemoizedSequence<T>, index: usize) -> Option<T::Item>
where
    T::Item: Clone,
{
    let mut cursor = seq.into_iter();
    for _ in 0..index {
        cursor.next(seq)?;
    }
    cursor.next(seq)
}

struct Counting {
    next_value: u64,
    calls: Rc<Cell<usize>>,
}

impl Iterator for Counting {
    type Item = u64;

    fn next(&mut self) -> Option<u64> {
        self.calls.set(self.calls.get() + 1);
        let v = self.next_value;
        self.next_value += 1;
        Some(v)
    }
}

#[test]
fn fibonacci_through_the_adapter() {
    let mut seq = Fib::new().memoized();
    let mut cursor = seq.into_iter();
    let expected = ["0", "1", "1", "2", "3", "5", "8", "13", "21", "34"];
    for e in expected.iter() {
        let x: BigInteger = cursor.next(&mut seq).unwrap();
        assert_eq!(x.to_string(), *e);
    }
}

#[test]
fn fibonacci_out_of_order() {
    let mut seq = Fib::new().memoized();
    assert_eq!(read_at(&mut seq, 9).unwrap().to_string(), "34");
    assert_eq!(read_at(&mut seq, 2).unwrap().to_string(), "1");
    assert_eq!(read_at(&mut seq, 50).unwrap().to_string(), "12586269025");
    assert_eq!(read_at(&mut seq, 100).unwrap().to_string(), "354224848179261915075");
    assert_eq!(read_at(&mut seq, 100).unwrap().get_code(), "00000013, 33db76a7, c594bfc3");
}

#[test]
fn source_is_polled_once_per_index() {
    let calls = Rc::new(Cell::new(0usize));
    let mut seq = Counting { next_value: 10, calls: calls.clone() }.memoized();
    assert_eq!(read_at(&mut seq, 4), Some(14));
    assert_eq!(calls.get(), 5);
    assert_eq!(read_at(&mut seq, 2), Some(12));
    assert_eq!(read_at(&mut seq, 4), Some(14));
    assert_eq!(calls.get(), 5);
    assert_eq!(read_at(&mut seq, 7), Some(17));
    assert_eq!(read_at(&mut seq, 0), Some(10));
    assert_eq!(read_at(&mut seq, 7), Some(17));
    assert_eq!(calls.get(), 8);
}

#[test]
fn one_cursor_walks_the_cache_then_the_source() {
    let calls = Rc::new(Cell::new(0usize));
    let mut seq = Counting { next_value: 0, calls: calls.clone() }.memoized();
    assert_eq!(read_at(&mut seq, 3), Some(3));
    let mut cursor = seq.into_iter();
    for i in 0..6u64 {
        assert_eq!(cursor.next(&mut seq), Some(i));
    }
    assert_eq!(calls.get(), 6);
}

#[test]
fn reading_twice_gives_equal_values() {
    let mut seq = Fib::new().memoized();
    let first = read_at(&mut seq, 12).unwrap();
    let again = read_at(&mut seq, 12).unwrap();
    assert_eq!(first.to_string(), "144");
    assert_eq!(first.to_string(), again.to_string());
    assert_eq!(first.get_code(), again.get_code());
    let mut cursor = seq.into_iter();
    let a = cursor.next(&mut seq).unwrap();
    let mut fresh = seq.into_iter();
    let b = fresh.next(&mut seq).unwrap();
    assert_eq!(a.to_string(), b.to_string());
}

#[test]
fn finite_source_ends_without_harm() {
    let mut seq = vec![7u32, 8, 9].into_iter().memoized();
    assert_eq!(read_at(&mut seq, 3), None);
    assert_eq!(read_at(&mut seq, 5), None);
    assert_eq!(read_at(&mut seq, 0), Some(7));
    assert_eq!(read_at(&mut seq, 1), Some(8));
    assert_eq!(read_at(&mut seq, 2), Some(9));
    assert_eq!(read_at(&mut seq, 3), None);
}

#[test]
fn cursor_stays_put_at_the_end() {
    let mut seq = vec![1u8].into_iter().memoized();
    let mut cursor = seq.into_iter();
    assert_eq!(cursor.next(&mut seq), Some(1));
    assert_eq!(cursor.next(&mut seq), None);
    assert_eq!(cursor.next(&mut seq), None);
}

#[test]
fn empty_source_gives_nothing() {
    let mut seq = Vec::<u8>::new().into_iter().memoized();
    assert_eq!(read_at(&mut seq, 0), None);
}

#[test]
fn fib_source_counts_from_zero() {
    let mut f = Fib::new();
    let terms: Vec<String> = (0..8).map(|_| f.next().unwrap().to_string()).collect();
    assert_eq!(terms, vec!["0", "1", "1", "2", "3", "5", "8", "13"]);
}

#[test]
fn fibonacci_through_next_term() {
    let mut seq = Fib::new().memoized();
    let mut cursor = seq.into_iter();
    let expected = ["0", "1", "1", "2", "3", "5", "8", "13", "21", "34"];
    for e in expected.iter() {
        let x = cursor.next_term(&mut seq).unwrap();
        assert_eq!(x.to_string(), *e);
    }
    let mut again = seq.into_iter();
    assert_eq!(again.next_term(&mut seq).unwrap().get_code(), "00000000");
    assert_eq!(again.next_term(&mut seq).unwrap().get_code(), "00000001");
}

#[test]
fn next_term_reads_past_the_cache() {
    let mut seq = Fib::new().memoized();
    let mut first = seq.into_iter();
    assert_eq!(first.next_term(&mut seq).unwrap().to_string(), "0");
    let mut skip = seq.into_iter();
    for _ in 0..20 {
        skip.next_term(&mut seq).unwrap();
    }
    assert_eq!(skip.next_term(&mut seq).unwrap().to_string(), "6765");
    assert_eq!(first.next_term(&mut seq).unwrap().to_string(), "1");
}

struct Stuttering {
    calls: Rc<Cell<usize>>,
}

impl Iterator for Stuttering {
    type Item = u32;

    fn next(&mut self) -> Option<u32> {
        self.calls.set(self.calls.get() + 1);
        if self.calls.get() % 2 == 1 {
            None
        } else {
            Some(self.calls.get() as u32)
        }
    }
}

#[test]
fn end_signal_is_not_remembered() {
    let calls = Rc::new(Cell::new(0usize));
    let mut seq = Stuttering { calls: calls.clone() }.memoized();
    let mut cursor = seq.into_iter();
    assert_eq!(cursor.next(&mut seq), None);
    assert_eq!(calls.get(), 1);
    assert_eq!(cursor.next(&mut seq), Some(2));
    assert_eq!(calls.get(), 2);
    assert_eq!(read_at(&mut seq, 0), Some(2));
    assert_eq!(calls.get(), 2);
}

#[test]
fn reading_past_the_end_drains_the_source() {
    let mut seq = vec![10u32, 20, 30].into_iter().memoized();
    assert_eq!(read_at(&mut seq, 7), None);
    let mut cursor = seq.into_iter();
    assert_eq!(cursor.next(&mut seq), Some(10));
    assert_eq!(cursor.next(&mut seq), Some(20));
    assert_eq!(cursor.next(&mut seq), Some(30));
    assert_eq!(cursor.next(&mut seq), None);
}
