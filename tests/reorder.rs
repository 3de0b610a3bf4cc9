use simple_parallel::{unordered_step, Completion, Packet, Polled, Received, Reorder};

/// Feeds `arrivals` to a fresh reorder buffer as the ordered iterator does,
/// and returns the released values and the position of the fatal signal, if any.
fn drive_ordered(arrivals: Vec<Packet<i64>>) -> (Vec<i64>, Option<usize>) {
    let mut buffer = Reorder::new();
    let mut out = Vec::new();
    let mut incoming = arrivals.into_iter();
    loop {
        match buffer.poll() {
            Polled::Ready(x) => {
                out.push(x);
                continue;
            }
            Polled::Failed(idx) => return (out, Some(idx)),
            Polled::Wait => {}
        }
        match incoming.next() {
            Some(p) => {
                assert!(buffer.accepts(p.idx));
                buffer.push(p);
            }
            None => return (out, None),
        }
    }
}

fn tokens(results: &[Option<i64>], order: &[usize]) -> Vec<Packet<i64>> {
    order
        .iter()
        .map(|&i| match results[i] {
            Some(v) => Packet::success(i, v),
            None => Packet::failure(i),
        })
        .collect()
}

fn drive_unordered(arrivals: Vec<Packet<i64>>) -> Vec<Received<i64>> {
    let mut out: Vec<Received<i64>> = arrivals.into_iter().map(|p| unordered_step(Some(p))).collect();
    out.push(unordered_step(None));
    out
}

#[test]
fn squares_come_out_in_input_order() {
    let inputs = [1i64, 2, 3, 4, 5];
    let results: Vec<Option<i64>> = inputs.iter().map(|x| Some(x * x)).collect();
    let (out, failed) = drive_ordered(tokens(&results, &[4, 2, 0, 3, 1]));
    assert_eq!(out, vec![1, 4, 9, 16, 25]);
    assert_eq!(failed, None);
}

#[test]
fn squares_unordered_give_every_index_value_pair() {
    let inputs = [1i64, 2, 3, 4, 5];
    let results: Vec<Option<i64>> = inputs.iter().map(|x| Some(x * x)).collect();
    let out = drive_unordered(tokens(&results, &[3, 0, 4, 1, 2]));
    assert_eq!(out.len(), 6);
    let mut pairs: Vec<(usize, i64)> = Vec::new();
    for r in &out[..5] {
        match r {
            Received::Item(i, v) => pairs.push((*i, *v)),
            _ => panic!("expected an item"),
        }
    }
    assert!(matches!(out[5], Received::Closed));
    pairs.sort();
    assert_eq!(pairs, vec![(0, 1), (1, 4), (2, 9), (3, 16), (4, 25)]);
}

#[test]
fn failure_on_second_input_stops_the_ordered_stream() {
    // the function fails on input 2, which stands at position 1
    let results = [Some(1i64), None, Some(3)];
    for order in [[0usize, 1, 2], [2, 1, 0], [2, 0, 1], [1, 2, 0]] {
        let (out, failed) = drive_ordered(tokens(&results, &order));
        assert_eq!(out, vec![1]);
        assert_eq!(failed, Some(1));
    }
}

#[test]
fn empty_input_ends_both_iterators_at_once() {
    let (out, failed) = drive_ordered(Vec::new());
    assert!(out.is_empty());
    assert_eq!(failed, None);
    let mut buffer: Reorder<i64> = Reorder::new();
    assert!(matches!(buffer.poll(), Polled::Wait));
    assert_eq!(buffer.looking_for(), 0);
    assert!(matches!(unordered_step::<i64>(None), Received::Closed));
}

#[test]
fn ordered_equals_sequential_map_for_every_arrival_order() {
    let inputs: Vec<i64> = (0..6).map(|x| x * 7 - 3).collect();
    let expected: Vec<i64> = inputs.iter().map(|x| x * x + 1).collect();
    let results: Vec<Option<i64>> = expected.iter().map(|&v| Some(v)).collect();
    let orders: [[usize; 6]; 4] = [[0, 1, 2, 3, 4, 5], [5, 4, 3, 2, 1, 0], [1, 0, 3, 2, 5, 4], [2, 5, 0, 4, 1, 3]];
    for order in orders {
        let (out, failed) = drive_ordered(tokens(&results, &order));
        assert_eq!(out, expected);
        assert_eq!(failed, None);
    }
}

#[test]
fn unordered_values_match_ordered_values_as_multiset() {
    let results = [Some(5i64), Some(5), Some(-2), Some(7), Some(-2)];
    let out = drive_unordered(tokens(&results, &[2, 4, 1, 0, 3]));
    let mut unordered: Vec<i64> = out
        .iter()
        .filter_map(|r| match r {
            Received::Item(_, v) => Some(*v),
            _ => None,
        })
        .collect();
    let (mut ordered, failed) = drive_ordered(tokens(&results, &[3, 0, 4, 2, 1]));
    assert_eq!(failed, None);
    unordered.sort();
    ordered.sort();
    assert_eq!(unordered, ordered);
    assert_eq!(unordered, vec![-2, -2, 5, 5, 7]);
}

#[test]
fn unordered_reports_the_single_failure_once_among_all_yields() {
    let results = [Some(10i64), Some(11), Some(12), None, Some(14)];
    let out = drive_unordered(tokens(&results, &[4, 3, 0, 2, 1]));
    assert_eq!(out.len(), 6);
    assert!(matches!(out[1], Received::Failed(3)));
    let failures = out.iter().filter(|r| matches!(r, Received::Failed(_))).count();
    assert_eq!(failures, 1);
    let mut pairs: Vec<(usize, i64)> = out
        .iter()
        .filter_map(|r| match r {
            Received::Item(i, v) => Some((*i, *v)),
            _ => None,
        })
        .collect();
    pairs.sort();
    assert_eq!(pairs, vec![(0, 10), (1, 11), (2, 12), (4, 14)]);
}

#[test]
fn ordered_yields_prefix_before_failure_at_k() {
    let results = [Some(0i64), Some(1), Some(2), None, Some(4), Some(5)];
    let (out, failed) = drive_ordered(tokens(&results, &[5, 4, 3, 2, 1, 0]));
    assert_eq!(out, vec![0, 1, 2]);
    assert_eq!(failed, Some(3));
}

#[test]
fn buffer_holds_tokens_that_race_ahead() {
    let mut buffer = Reorder::new();
    buffer.push(Packet::success(2, 20i64));
    buffer.push(Packet::success(1, 10i64));
    assert_eq!(buffer.buffered(), 2);
    assert!(matches!(buffer.poll(), Polled::Wait));
    buffer.push(Packet::success(0, 0i64));
    assert!(matches!(buffer.poll(), Polled::Ready(0)));
    assert!(matches!(buffer.poll(), Polled::Ready(10)));
    assert_eq!(buffer.looking_for(), 2);
    assert_eq!(buffer.buffered(), 1);
    assert!(matches!(buffer.poll(), Polled::Ready(20)));
    assert_eq!(buffer.buffered(), 0);
    assert!(matches!(buffer.poll(), Polled::Wait));
}

#[test]
fn buffer_refuses_stale_duplicate_and_last_positions() {
    let mut buffer = Reorder::new();
    buffer.push(Packet::success(0, 1i64));
    buffer.push(Packet::success(3, 4i64));
    assert!(matches!(buffer.poll(), Polled::Ready(1)));
    assert!(!buffer.accepts(0));
    assert!(!buffer.accepts(3));
    assert!(!buffer.accepts(usize::MAX));
    assert!(buffer.accepts(1));
    assert!(buffer.accepts(2));
    assert!(buffer.accepts(4));
}

#[test]
fn failure_token_is_reported_with_its_position() {
    let p: Packet<i64> = Packet::failure(7);
    assert!(p.is_failure());
    assert!(matches!(unordered_step(Some(p)), Received::Failed(7)));
    let q = Packet::success(8, 64i64);
    assert!(!q.is_failure());
    assert!(matches!(unordered_step(Some(q)), Received::Item(8, 64)));
}

#[test]
fn guard_sends_failure_unless_finished() {
    let unfinished = Completion::new(4);
    let token: Option<Packet<i64>> = unfinished.on_exit();
    let token = token.expect("a failure token");
    assert_eq!(token.idx, 4);
    assert!(token.data.is_none());

    let mut finished = Completion::new(5);
    let sent = finished.finish(25i64);
    assert_eq!(sent.idx, 5);
    assert_eq!(sent.data, Some(25));
    assert!(finished.all_ok);
    assert!(finished.on_exit::<i64>().is_none());
}

#[test]
fn failure_stays_reported_and_hides_later_positions() {
    let mut buffer = Reorder::new();
    buffer.push(Packet::success(0, 1i64));
    buffer.push(Packet::failure(1));
    buffer.push(Packet::success(2, 3i64));
    assert!(matches!(buffer.poll(), Polled::Ready(1)));
    for _ in 0..4 {
        assert!(matches!(buffer.poll(), Polled::Failed(1)));
        assert_eq!(buffer.looking_for(), 1);
    }
    assert_eq!(buffer.buffered(), 2);
    assert!(buffer.accepts(3));
    buffer.push(Packet::success(3, 4i64));
    assert!(matches!(buffer.poll(), Polled::Failed(1)));
}
