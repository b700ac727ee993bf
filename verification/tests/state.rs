use raptor_routing::routing::state::{RaptorLabel, RaptorState};

fn label(arrival_time: i64, from_stop_id: i32, source_round: usize) -> RaptorLabel {
    RaptorLabel {
        arrival_time,
        journey_id: Some(5),
        from_stop_id,
        boarding_stop_id: from_stop_id,
        transfer_duration: None,
        source_round,
    }
}

#[test]
fn new_state_knows_the_departure_stop() {
    let s = RaptorState::new(10, 500);
    assert_eq!(s.labels_per_round.len(), 1);
    let found = s.get_label(10, 0).unwrap();
    assert_eq!(
        *found,
        RaptorLabel {
            arrival_time: 500,
            journey_id: None,
            from_stop_id: 10,
            boarding_stop_id: 10,
            transfer_duration: None,
            source_round: 0,
        },
    );
    assert_eq!(s.best_arrival.get(&10), Some(&500));
    assert!(s.marked_stops.contains(&10));
    assert!(s.round_improved_stops.is_empty());
}

#[test]
fn rounds_are_added_up_to_the_one_asked_for() {
    let mut s = RaptorState::new(10, 500);
    s.ensure_round(3);
    assert_eq!(s.labels_per_round.len(), 4);
    s.ensure_round(1);
    assert_eq!(s.labels_per_round.len(), 4);
    assert!(s.labels_per_round[3].is_empty());
}

#[test]
fn accepted_offer_is_recorded() {
    let mut s = RaptorState::new(10, 500);
    assert!(s.try_improve(20, label(600, 10, 0), 1, 500, None, true));
    assert_eq!(s.get_label(20, 1), Some(&label(600, 10, 0)));
    assert_eq!(s.best_arrival.get(&20), Some(&600));
    assert!(s.marked_stops.contains(&20));
    assert!(s.round_improved_stops.contains(&20));
}

#[test]
fn offer_may_leave_the_marks_alone() {
    let mut s = RaptorState::new(10, 500);
    assert!(s.try_improve(20, label(600, 10, 0), 1, 500, None, false));
    assert_eq!(s.get_label(20, 1), Some(&label(600, 10, 0)));
    assert!(!s.marked_stops.contains(&20));
    assert!(!s.round_improved_stops.contains(&20));
}

#[test]
fn offer_after_the_time_limit_is_refused() {
    let mut s = RaptorState::new(10, 500);
    assert!(!s.try_improve(20, label(601, 10, 0), 1, 500, Some(600), true));
    assert!(s.best_arrival.get(&20).is_none());
    assert!(s.try_improve(20, label(600, 10, 0), 1, 500, Some(600), true));
}

#[test]
fn offer_that_takes_no_time_is_refused() {
    let mut s = RaptorState::new(10, 500);
    assert!(!s.try_improve(20, label(500, 10, 0), 1, 500, None, true));
    assert!(!s.try_improve(20, label(400, 10, 0), 1, 500, None, true));
    assert!(s.best_arrival.get(&20).is_none());
    assert!(s.try_improve(20, label(501, 10, 0), 1, 500, None, true));
}

#[test]
fn offer_is_accepted_only_once() {
    let mut s = RaptorState::new(10, 500);
    assert!(s.try_improve(20, label(600, 10, 0), 1, 500, None, true));
    assert!(!s.try_improve(20, label(600, 10, 0), 1, 500, None, true));
    assert!(!s.try_improve(20, label(650, 30, 1), 2, 500, None, true));
    assert_eq!(s.labels_per_round.len(), 2);
    assert_eq!(s.get_label(20, 1), Some(&label(600, 10, 0)));
}

#[test]
fn earlier_arrival_takes_the_place_of_a_later_one() {
    let mut s = RaptorState::new(10, 500);
    assert!(s.try_improve(20, label(600, 10, 0), 1, 500, None, true));
    assert!(s.try_improve(20, label(590, 30, 0), 1, 500, None, true));
    assert_eq!(s.get_label(20, 1), Some(&label(590, 30, 0)));
    assert_eq!(s.best_arrival.get(&20), Some(&590));
}

#[test]
fn labels_are_found_by_round_and_stop() {
    let s = RaptorState::new(10, 500);
    assert!(s.get_label(20, 0).is_none());
    assert!(s.get_label(10, 1).is_none());
    assert!(s.get_label(10, 7).is_none());
}

#[test]
fn previous_label_is_that_of_the_latest_earlier_round() {
    let mut s = RaptorState::new(10, 500);
    assert!(s.try_improve(20, label(900, 10, 0), 1, 500, None, true));
    assert!(s.try_improve(20, label(800, 30, 2), 3, 500, None, true));
    assert!(s.get_previous_label(20, 1).is_none());
    assert_eq!(s.get_previous_label(20, 2), Some((&label(900, 10, 0), 1)));
    assert_eq!(s.get_previous_label(20, 3), Some((&label(900, 10, 0), 1)));
    assert_eq!(s.get_previous_label(20, 4), Some((&label(800, 30, 2), 3)));
    assert_eq!(s.get_previous_label(20, 9), Some((&label(800, 30, 2), 3)));
    assert!(s.get_previous_label(20, 0).is_none());
    assert!(s.get_previous_label(99, 4).is_none());
}
