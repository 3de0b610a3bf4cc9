use std::sync::mpsc::{self, Sender};

use simple_parallel::{Completion, Packet, Polled, Reorder};

struct Guarded {
    tx: Sender<Packet<i64>>,
    guard: Completion,
}

impl Drop for Guarded {
    fn drop(&mut self) {
        if let Some(p) = self.guard.on_exit() {
            let _ = self.tx.send(p);
        }
    }
}

/// Runs one scoped thread per input and collects what the ordered iterator
/// would yield, stopping at the first fatal signal.
fn run(inputs: &[i64], f: fn(i64) -> i64) -> (Vec<i64>, Option<usize>) {
    let (tx, rx) = mpsc::channel();
    let mut out = Vec::new();
    let mut failed = None;
    let _ = crossbeam::scope(|s| {
        for (idx, &x) in inputs.iter().enumerate() {
            let tx = tx.clone();
            s.spawn(move |_| {
                let mut g = Guarded { tx, guard: Completion::new(idx) };
                let v = f(x);
                let p = g.guard.finish(v);
                let _ = g.tx.send(p);
            });
        }
    });
    drop(tx);
    let mut buffer = Reorder::new();
    loop {
        match buffer.poll() {
            Polled::Ready(v) => {
                out.push(v);
                continue;
            }
            Polled::Failed(i) => {
                failed = Some(i);
                break;
            }
            Polled::Wait => {}
        }
        match rx.recv() {
            Ok(p) => {
                assert!(buffer.accepts(p.idx));
                buffer.push(p);
            }
            Err(_) => break,
        }
    }
    (out, failed)
}

fn square(x: i64) -> i64 {
    x * x
}

fn square_but_not_two(x: i64) -> i64 {
    if x == 2 {
        panic!("no square for two");
    }
    x * x
}

#[test]
fn threads_square_in_order() {
    assert_eq!(run(&[1, 2, 3, 4, 5], square), (vec![1, 4, 9, 16, 25], None));
}

#[test]
fn threads_panicking_worker_surfaces_at_its_position() {
    assert_eq!(run(&[1, 2, 3], square_but_not_two), (vec![1], Some(1)));
}

#[test]
fn threads_no_input_no_output() {
    assert_eq!(run(&[], square), (vec![], None));
}
