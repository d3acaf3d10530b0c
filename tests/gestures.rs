use gamebot::gesture::{
    click, first_pending, gesture, move_segments, moves_remaining, next_wake_time, segment_active,
    segment_progress, test_gesture, updown_events, MoveSegment, TouchAction, TouchEvent,
};
use gamebot::geometry::Point;

fn ev(x: i32, y: i32, id: usize, action: TouchAction, time: u64, step: usize) -> TouchEvent {
    TouchEvent { x, y, id, action, time, step }
}

#[test]
fn two_fingers_merge_by_time() {
    let path = test_gesture();
    let events = gesture(&path);
    assert_eq!(
        events,
        vec![
            ev(600, 500, 1, TouchAction::Down, 0, 0),
            ev(600, 500, 3, TouchAction::Down, 100, 0),
            ev(1000, 0, 1, TouchAction::Move, 500, 1),
            ev(1000, 0, 1, TouchAction::Up, 600, 2),
            ev(1000, 0, 3, TouchAction::Move, 600, 1),
            ev(1000, 0, 3, TouchAction::Up, 700, 2),
        ]
    );
}

#[test]
fn stream_is_ordered_and_fingers_start_down_end_up() {
    let path = vec![
        vec![(30, (1, 1)), (0, (2, 2)), (50, (3, 3))],
        vec![(10, (5, 5))],
        vec![(0, (7, 7)), (20, (8, 8))],
    ];
    let events = gesture(&path);
    assert_eq!(events.len(), 3 + 2 + 2);
    for w in events.windows(2) {
        assert!(w[0].time <= w[1].time);
    }
    for f in 0..path.len() {
        let mine: Vec<_> = events.iter().filter(|e| e.id == f).collect();
        assert_eq!(mine.first().unwrap().action, TouchAction::Down);
        assert_eq!(mine.last().unwrap().action, TouchAction::Up);
        assert_eq!((mine[0].x, mine[0].y), path[f][0].1);
        assert_eq!((mine.last().unwrap().x, mine.last().unwrap().y), path[f].last().unwrap().1);
        for e in &mine[1..mine.len() - 1] {
            assert_eq!(e.action, TouchAction::Move);
        }
    }
}

#[test]
fn two_waypoints_give_no_move() {
    let events = gesture(&vec![vec![(0, (1, 2)), (10, (3, 4))]]);
    assert_eq!(
        events,
        vec![ev(1, 2, 0, TouchAction::Down, 0, 0), ev(3, 4, 0, TouchAction::Up, 10, 1)]
    );
    let single = gesture(&vec![vec![(5, (1, 2))]]);
    assert_eq!(
        single,
        vec![ev(1, 2, 0, TouchAction::Down, 5, 0), ev(1, 2, 0, TouchAction::Up, 5, 1)]
    );
}

#[test]
fn empty_paths_produce_nothing() {
    assert!(gesture(&vec![]).is_empty());
    assert!(gesture(&vec![vec![], vec![]]).is_empty());
    assert!(move_segments(&vec![vec![]]).is_empty());
}

#[test]
fn tap_is_down_then_up() {
    assert_eq!(
        click(4, 9),
        vec![ev(4, 9, 0, TouchAction::Down, 0, 0), ev(4, 9, 0, TouchAction::Up, 0, 1)]
    );
    assert_eq!(Point::new(4, 9).click(), click(4, 9));
}

#[test]
fn smooth_driver_pieces() {
    let path = vec![vec![(10, (0, 0)), (100, (50, 0)), (40, (50, 80))]];
    let segs = move_segments(&path);
    assert_eq!(
        segs,
        vec![
            MoveSegment { x1: 0, y1: 0, x2: 50, y2: 0, id: 0, start: 10, end: 110 },
            MoveSegment { x1: 50, y1: 0, x2: 50, y2: 80, id: 0, start: 110, end: 150 },
        ]
    );
    assert_eq!(segment_progress(&segs[0], 35), (25, 100));
    assert!(moves_remaining(&segs, 149));
    assert!(!moves_remaining(&segs, 150));
    assert!(segment_active(&segs[1], 110));
    assert!(!segment_active(&segs[1], 150));
    let ud = updown_events(&path);
    assert_eq!(
        ud,
        vec![ev(0, 0, 0, TouchAction::Down, 10, 0), ev(50, 80, 0, TouchAction::Up, 150, 2)]
    );
    assert_eq!(first_pending(&ud, 0, 9), 0);
    assert_eq!(first_pending(&ud, 0, 10), 1);
    assert_eq!(first_pending(&ud, 1, 200), 2);
    assert_eq!(next_wake_time(Some(150), true, 100, 33), Some(133));
    assert_eq!(next_wake_time(Some(120), true, 100, 33), Some(120));
    assert_eq!(next_wake_time(None, true, u64::MAX - 1, 33), Some(u64::MAX));
    assert_eq!(next_wake_time(Some(5), false, 100, 33), Some(5));
    assert_eq!(next_wake_time(None, false, 100, 33), None);
}
