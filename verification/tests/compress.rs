use ruchei::compress::{BatchAction, BatchPhase, Seen, batch_start, batch_step};

#[test]
fn batch_start_needs_live_credits() {
    assert_eq!(batch_start(false, true), None);
    assert_eq!(batch_start(false, false), None);
    assert_eq!(batch_start(true, true), Some(BatchPhase::Crediting));
    assert_eq!(batch_start(true, false), Some(BatchPhase::Idle));
}

#[test]
fn batch_step_from_idle() {
    assert_eq!(batch_step(BatchPhase::Idle, Seen::Value), (BatchPhase::Crediting, BatchAction::Hold));
    assert_eq!(batch_step(BatchPhase::Idle, Seen::Ended), (BatchPhase::Idle, BatchAction::Finish));
    assert_eq!(batch_step(BatchPhase::Idle, Seen::Pending), (BatchPhase::Idle, BatchAction::Wait));
}

#[test]
fn batch_step_from_crediting() {
    assert_eq!(batch_step(BatchPhase::Crediting, Seen::Value), (BatchPhase::Idle, BatchAction::Yield));
    assert_eq!(batch_step(BatchPhase::Crediting, Seen::Ended), (BatchPhase::Idle, BatchAction::Finish));
    assert_eq!(
        batch_step(BatchPhase::Crediting, Seen::Pending),
        (BatchPhase::Gathering, BatchAction::Continue)
    );
}

#[test]
fn batch_step_from_gathering() {
    assert_eq!(
        batch_step(BatchPhase::Gathering, Seen::Value),
        (BatchPhase::Gathering, BatchAction::Merge)
    );
    assert_eq!(
        batch_step(BatchPhase::Gathering, Seen::Ended),
        (BatchPhase::Idle, BatchAction::YieldWithCredits)
    );
    assert_eq!(
        batch_step(BatchPhase::Gathering, Seen::Pending),
        (BatchPhase::Crediting, BatchAction::Wait)
    );
}

/// Items read while no credit is ready are merged into one batch, which goes out with the next
/// credit.
#[test]
fn batch_merges_until_a_credit_comes() {
    let mut batch: Vec<i32> = Vec::new();
    let mut out: Vec<Vec<i32>> = Vec::new();
    let items = [vec![1], vec![2], vec![3]];
    let mut items = items.into_iter();
    let mut phase = batch_start(true, false).unwrap();
    // The first item is held, no credit is ready, the other two are merged, then the items run
    // dry for now.
    let mut credits = [Seen::Pending, Seen::Value].into_iter();
    loop {
        let seen = match phase {
            BatchPhase::Crediting => credits.next().unwrap(),
            _ => {
                if items.len() > 0 {
                    Seen::Value
                } else {
                    Seen::Pending
                }
            }
        };
        let (next, action) = batch_step(phase, seen);
        phase = next;
        match action {
            BatchAction::Hold => batch = items.next().unwrap(),
            BatchAction::Merge => batch.extend(items.next().unwrap()),
            BatchAction::Continue => {}
            BatchAction::Yield => {
                out.push(std::mem::take(&mut batch));
                break;
            }
            BatchAction::Wait => {}
            other => panic!("unexpected {:?}", other),
        }
    }
    assert_eq!(out, vec![vec![1, 2, 3]]);
}

#[test]
fn batches_flatten_to_the_items_read() {
    // items [1, 2], [3], [4, 5], then the end; the credit stream is not ready
    let mut phase = BatchPhase::Idle;
    let mut held: Option<Vec<i32>> = None;
    let mut read: Vec<i32> = Vec::new();
    let mut out: Vec<Vec<i32>> = Vec::new();
    let items = vec![vec![1, 2], vec![3], vec![4, 5]];
    let mut next_item = 0;
    let credits = [Seen::Pending];
    let mut next_credit = 0;
    for _ in 0..20 {
        let (seen, incoming) = match phase {
            BatchPhase::Crediting => {
                let c = credits[next_credit.min(credits.len() - 1)];
                next_credit += 1;
                (c, None)
            }
            _ => {
                if next_item < items.len() {
                    next_item += 1;
                    (Seen::Value, Some(items[next_item - 1].clone()))
                } else {
                    (Seen::Ended, None)
                }
            }
        };
        if let Some(i) = &incoming {
            read.extend(i.iter().copied());
        }
        let (next, action) = batch_step(phase, seen);
        phase = next;
        match action {
            BatchAction::Hold => held = incoming,
            BatchAction::Merge => held.as_mut().unwrap().extend(incoming.unwrap()),
            BatchAction::Yield | BatchAction::YieldWithCredits => out.push(held.take().unwrap()),
            BatchAction::Finish => break,
            BatchAction::Continue | BatchAction::Wait => {}
        }
    }
    assert_eq!(out, vec![vec![1, 2, 3, 4, 5]]);
    let flat: Vec<i32> = out.into_iter().flatten().collect();
    assert_eq!(flat, read);
    assert!(held.is_none());
}

#[test]
fn each_batch_takes_one_credit_while_credits_are_ready() {
    let mut phase = BatchPhase::Idle;
    let mut credits_read = 0;
    let mut yields = 0;
    let mut items = 2;
    loop {
        let seen = match phase {
            BatchPhase::Crediting => {
                credits_read += 1;
                Seen::Value
            }
            _ if items > 0 => {
                items -= 1;
                Seen::Value
            }
            _ => Seen::Ended,
        };
        let (next, action) = batch_step(phase, seen);
        phase = next;
        match action {
            BatchAction::Yield | BatchAction::YieldWithCredits => yields += 1,
            BatchAction::Finish => break,
            _ => {}
        }
    }
    assert_eq!(yields, 2);
    assert_eq!(credits_read, 2);
}
