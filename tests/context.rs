use rian::arena::Offset;
use rian::context::{ContextData, ControlBlock, Step};
use rian::ids::ContextId;
use rian::lookup::BroadcastGroup;

fn drain(data: &mut ContextData<&'static str>, block: &mut ControlBlock) -> (Vec<&'static str>, Step<&'static str>) {
    let mut ran = Vec::new();
    loop {
        match data.next_step(block) {
            Step::RunLocal(m) => ran.push(m),
            other => return (ran, other),
        }
    }
}

#[test]
fn routing_local_and_remote() {
    let mut data = ContextData::new(ContextId(2));
    let mut block = ControlBlock::new();
    block.acquire(1);
    data.send_msg(ContextId(2), "local1");
    data.send_msg(ContextId(3), "to3a");
    data.send_msg(ContextId(1), "to1");
    data.send_msg(ContextId(2), "local2");
    data.send_msg(ContextId(3), "to3b");
    let (ran, step) = drain(&mut data, &mut block);
    assert_eq!(ran, vec!["local1", "local2"]);
    assert!(data.local_is_empty());
    match step {
        Step::Send(batch) => assert_eq!(batch, vec![(1, "to3a"), (0, "to1"), (1, "to3b")]),
        _ => panic!("expected a batch"),
    }
    // one event settled, three sent: net two more
    assert_eq!(block.unhandled_events(), 4);
}

#[test]
fn batched_outbound_balances() {
    let mut block = ControlBlock::new();
    // a message arrives from outside
    block.acquire(1);
    let mut s = ContextData::new(ContextId(1));
    s.send_msg(ContextId(2), "m1");
    s.send_msg(ContextId(2), "m2");
    s.send_msg(ContextId(2), "m3");
    let (_, step) = drain(&mut s, &mut block);
    match step {
        Step::Send(batch) => assert_eq!(batch, vec![(0, "m1"), (0, "m2"), (0, "m3")]),
        _ => panic!("expected a batch"),
    }
    assert_eq!(block.unhandled_events(), 4);
    // the receiving context handles the three, sending nothing on
    let mut t = ContextData::<&'static str>::new(ContextId(2));
    for _ in 0..3 {
        assert!(matches!(t.next_step(&mut block), Step::Receive));
    }
    assert_eq!(block.unhandled_events(), 1);
}

#[test]
fn quiescence_shuts_down_once() {
    let mut block = ControlBlock::new();
    let mut data = ContextData::<u8>::new(ContextId(1));
    assert!(matches!(data.next_step(&mut block), Step::Shutdown));
    assert!(block.stopped());
    assert_eq!(block.unhandled_events(), 0);
}

#[test]
fn accessor_keeps_system_alive() {
    let mut block = ControlBlock::new();
    block.acquire(1);
    assert!(!block.release());
    assert!(!block.stopped());
    assert!(block.release());
    assert!(block.stopped());
}

#[test]
fn settle_counts() {
    let mut block = ControlBlock::new();
    block.acquire(2);
    assert!(!block.settle(1));
    assert_eq!(block.unhandled_events(), 3);
    assert!(!block.settle(4));
    assert_eq!(block.unhandled_events(), 6);
    assert!(!block.settle(0));
    assert_eq!(block.unhandled_events(), 5);
}

#[test]
fn broadcast_splits_local_and_remote() {
    let mut data = ContextData::new(ContextId(1));
    let group = BroadcastGroup {
        by_context: vec![
            (ContextId(2), vec![(Offset(0), ()), (Offset(4), ())]),
            (ContextId(1), vec![(Offset(8), ())]),
            (ContextId(3), vec![(Offset(0), ())]),
        ],
    };
    data.broadcast(&group, |c: ContextId, targets: &Vec<(Offset, ())>| (c.0, targets.len()));
    let mut block = ControlBlock::new();
    match data.next_step(&mut block) {
        Step::RunLocal(m) => assert_eq!(m, (1, 1)),
        _ => panic!("expected local work"),
    }
    match data.next_step(&mut block) {
        Step::Send(batch) => assert_eq!(batch, vec![(0, (2, 2)), (1, (3, 1))]),
        _ => panic!("expected a batch"),
    }
}

#[test]
fn broadcast_to_empty_group_is_a_no_op() {
    let mut data = ContextData::<u32>::new(ContextId(1));
    let group: BroadcastGroup<()> = BroadcastGroup { by_context: Vec::new() };
    data.broadcast(&group, |c: ContextId, _t: &Vec<(Offset, ())>| c.0);
    assert!(data.local_is_empty());
    let mut block = ControlBlock::new();
    block.acquire(1);
    assert!(matches!(data.next_step(&mut block), Step::Receive));
    assert_eq!(block.unhandled_events(), 1);
}
