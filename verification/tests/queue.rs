use iwaks::queue::{Queue, RepeatMode};

#[test]
fn new_queue_is_empty_and_off() {
    let q = Queue::new(0);
    assert_eq!(q.len, 0);
    assert_eq!(q.index, None);
    assert_eq!(q.repeat, RepeatMode::Off);
    assert!(!q.shuffle);
}

#[test]
fn start_clamps_out_of_range_index() {
    let q = Queue::new(3).start(9);
    assert_eq!(q.current(), Some(2));
}

#[test]
fn start_on_empty_stays_unselected() {
    assert_eq!(Queue::new(0).start(2).current(), None);
}

#[test]
fn user_next_advances_in_middle() {
    let q = Queue::new(3).start(1);
    assert_eq!(q.user_next(), Some(2));
}

#[test]
fn user_next_at_end_stops_unless_all() {
    let stop = Queue::new(3).start(2);
    assert_eq!(stop.user_next(), None, "repeat off => stop");

    let wrap = stop.with_repeat(RepeatMode::All);
    assert_eq!(wrap.user_next(), Some(0), "repeat all => wrap");
}

#[test]
fn user_prev_wraps_to_last() {
    let q = Queue::new(3).start(0);
    assert_eq!(q.user_prev(), Some(2));
    assert_eq!(Queue::new(3).start(1).user_prev(), Some(0));
}

#[test]
fn after_end_advances_mid_list() {
    let q = Queue::new(3).start(0);
    assert_eq!(q.after_end(), Some(1));
}

#[test]
fn after_end_repeat_one_loops_same_track() {
    let q = Queue::new(3).start(1).with_repeat(RepeatMode::One);
    assert_eq!(q.after_end(), Some(1));
}

#[test]
fn after_end_wraps_or_stops_on_last() {
    let last = Queue::new(3).start(2);
    assert_eq!(last.after_end(), None, "off => stop");
    assert_eq!(
        last.with_repeat(RepeatMode::All).after_end(),
        Some(0),
        "all => wrap"
    );
}

#[test]
fn unselected_queue_has_no_moves() {
    let q = Queue::new(3);
    assert_eq!(q.user_next(), None);
    assert_eq!(q.user_prev(), None);
    assert_eq!(q.after_end(), None);
}

#[test]
fn with_repeat_keeps_position() {
    let q = Queue::new(2).start(1).with_repeat(RepeatMode::One);
    assert_eq!(q.current(), Some(1));
    assert_eq!(q.repeat, RepeatMode::One);
}

// ---------- shuffle ----------

#[test]
fn shuffle_is_a_permutation_and_pins_current() {
    let q = Queue::new(5).start(2).with_shuffle(42);
    assert!(q.shuffle);
    assert_eq!(q.current(), Some(2), "current track never changes");
    assert_eq!(q.index, Some(0), "current track pinned to the front");
    let mut sorted = q.order.clone();
    sorted.sort();
    assert_eq!(sorted, (0..5).collect::<Vec<_>>(), "order is a permutation");
}

#[test]
fn shuffle_is_deterministic_for_seed() {
    let a = Queue::new(8).with_shuffle(7);
    let b = Queue::new(8).with_shuffle(7);
    assert_eq!(a.order, b.order);
}

#[test]
fn shuffle_next_walks_every_track_before_stopping() {
    let q = Queue::new(6).start(0).with_shuffle(99);
    // Current track sits at the front, so walking forward covers all 6.
    let mut walked = vec![q.current().unwrap()];
    let mut pos = q.index.expect("selected");
    while pos + 1 < 6 {
        pos += 1;
        walked.push(q.order[pos]);
    }
    assert_eq!(walked.len(), 6, "all tracks visited exactly once");
    for (i, t) in walked.iter().enumerate() {
        assert!(!walked[..i].contains(t), "no track repeats");
    }

    // user_next returns exactly that same sequence, None at the end.
    let mut cursor = q.clone();
    let mut nexts: Vec<usize> = Vec::new();
    while let Some(n) = cursor.user_next() {
        nexts.push(n);
        cursor.index = Some(cursor.index.unwrap() + 1);
    }
    assert_eq!(
        &nexts[..],
        &walked[1..],
        "user_next matches the walked order"
    );

    assert_eq!(
        Queue::new(6).with_shuffle(5).user_next(),
        None,
        "unselected stays unselected even when shuffled"
    );
}

#[test]
fn reshuffle_keeps_current_track_with_shuffle_on() {
    let q = Queue::new(6).start(3).with_shuffle(11);
    let after = q.reshuffle(22);
    assert!(after.shuffle);
    assert_eq!(after.current(), Some(3), "current pinned through reshuffle");
    assert_eq!(after.index, q.index, "current keeps its position");
    assert_ne!(after.order, q.order, "the rest is reordered");
}

#[test]
fn reshuffle_with_shuffle_off_enables_shuffle() {
    let q = Queue::new(4).start(1);
    let after = q.reshuffle(5);
    assert!(after.shuffle);
    assert_eq!(after.current(), Some(1));
}

#[test]
fn disabling_shuffle_restores_identity_and_current() {
    let q = Queue::new(5).start(2).with_shuffle(42);
    let off = q.with_shuffle_off();
    assert!(!off.shuffle);
    assert_eq!(off.current(), Some(2), "same track stays selected");
    assert_eq!(off.order, (0..5).collect::<Vec<_>>());
    assert_eq!(off.user_next(), Some(3), "linear order after disable");
}

#[test]
fn shuffle_repeat_all_wraps_to_shuffled_start() {
    let q = Queue::new(4)
        .start(0)
        .with_shuffle(9)
        .with_repeat(RepeatMode::All);
    let first = q.order[0];
    // At the last shuffled position, next wraps to the shuffled front.
    let at_last = Queue {
        index: Some(3),
        ..q.clone()
    };
    assert_eq!(at_last.after_end(), Some(first), "after_end wraps");
    assert_eq!(at_last.user_next(), Some(first), "user_next wraps");
}

// ---------- further cases ----------

#[test]
fn shuffle_order_is_the_splitmix_fisher_yates_permutation() {
    // The shuffle is a pure function of the seed: the same seed gives the
    // same order for a fresh queue and for one whose current track is the
    // track that the shuffle already puts first.
    let plain = Queue::new(8).with_shuffle(7);
    assert_eq!(plain.index, None);
    let mut sorted = plain.order.clone();
    sorted.sort();
    assert_eq!(sorted, (0..8).collect::<Vec<_>>());
    let pinned = Queue::new(8).start(plain.order[0]).with_shuffle(7);
    assert_eq!(pinned.order, plain.order);
    assert_eq!(pinned.index, Some(0));
}

#[test]
fn shuffle_of_empty_and_single_lists() {
    let empty = Queue::new(0).with_shuffle(3);
    assert!(empty.shuffle);
    assert!(empty.order.is_empty());
    assert_eq!(empty.current(), None);
    let one = Queue::new(1).start(0).with_shuffle(3);
    assert_eq!(one.order, vec![0]);
    assert_eq!(one.current(), Some(0));
    assert_eq!(one.user_next(), None);
    assert_eq!(one.user_prev(), Some(0));
}

#[test]
fn reshuffle_without_selection_reshuffles_everything() {
    let q = Queue::new(6).with_shuffle(1);
    let after = q.reshuffle(2);
    assert_eq!(after.index, None);
    assert_eq!(after.order, Queue::new(6).with_shuffle(2).order);
}

#[test]
fn start_locates_track_inside_shuffled_order() {
    let q = Queue::new(5).with_shuffle(42);
    for t in 0..5 {
        let s = q.start(t);
        assert_eq!(s.current(), Some(t));
        assert_eq!(s.order[s.index.unwrap()], t);
    }
}

#[test]
fn repeat_one_user_moves_still_step() {
    let q = Queue::new(3).start(1).with_repeat(RepeatMode::One);
    assert_eq!(q.user_next(), Some(2));
    assert_eq!(q.user_prev(), Some(0));
    let last = q.start(2);
    assert_eq!(last.user_next(), None, "repeat one does not wrap a manual next");
    assert_eq!(last.after_end(), Some(2));
}

#[test]
fn shuffle_on_then_off_gives_back_the_queue() {
    let q = Queue::new(7).start(4).with_repeat(RepeatMode::All);
    assert_eq!(q.with_shuffle(123).with_shuffle_off(), q);
    let unselected = Queue::new(3);
    assert_eq!(unselected.with_shuffle(9).with_shuffle_off(), unselected);
}

// ---------- reordering the play order ----------

#[test]
fn reorder_moves_a_track_later_and_the_current_follows() {
    let q = Queue::new(5).start(2);
    let r = q.reorder(1, 3);
    assert_eq!(r.ordered_indices(), vec![0, 2, 3, 1, 4]);
    assert_eq!(r.current(), Some(2), "playing track unchanged");
    assert_eq!(r.index, Some(1), "current slides back into the gap");
}

#[test]
fn reorder_moves_a_track_earlier() {
    let q = Queue::new(5).start(1);
    let r = q.reorder(3, 0);
    assert_eq!(r.ordered_indices(), vec![3, 0, 1, 2, 4]);
    assert_eq!(r.current(), Some(1));
    assert_eq!(r.index, Some(2));
}

#[test]
fn reorder_the_playing_track_moves_its_position() {
    let q = Queue::new(4).start(0);
    let r = q.reorder(0, 2);
    assert_eq!(r.ordered_indices(), vec![1, 2, 0, 3]);
    assert_eq!(r.index, Some(2));
    assert_eq!(r.current(), Some(0));
    assert_eq!(r.user_next(), Some(3), "next follows the new order");
}

#[test]
fn reorder_clamps_target_to_last_slot() {
    let q = Queue::new(4).start(3);
    let r = q.reorder(0, 99);
    assert_eq!(r.ordered_indices(), vec![1, 2, 3, 0]);
    assert_eq!(r.current(), Some(3));
    assert_eq!(r.index, Some(2));
}

#[test]
fn reorder_out_of_range_or_empty_is_a_noop() {
    let q = Queue::new(3).start(1);
    assert_eq!(q.reorder(3, 0), q);
    assert_eq!(q.reorder(1, 1), q);
    let empty = Queue::new(0);
    assert_eq!(empty.reorder(0, 0), empty);
}

#[test]
fn reorder_keeps_shuffle_and_a_permutation() {
    let q = Queue::new(6).start(2).with_shuffle(11);
    let before = q.ordered_indices();
    let r = q.reorder(4, 1);
    assert!(r.shuffle);
    assert_eq!(r.current(), Some(2));
    let mut sorted = r.ordered_indices();
    sorted.sort();
    assert_eq!(sorted, (0..6).collect::<Vec<_>>());
    assert_eq!(r.ordered_indices()[1], before[4]);
}

#[test]
fn ordered_indices_is_the_play_order() {
    assert_eq!(Queue::new(4).ordered_indices(), vec![0, 1, 2, 3]);
    let q = Queue::new(5).with_shuffle(3);
    assert_eq!(q.ordered_indices(), q.order);
}
