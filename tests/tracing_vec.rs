use tracing_vec::{IndexError, TimedIndex, TimelessIndex, Trace, TracingIndex, TracingVec};

fn timed(pos: usize, pseudotime: usize) -> TracingIndex {
    TracingIndex::from(TimedIndex { pos, pseudotime })
}

fn timeless(pos: usize) -> TracingIndex {
    TracingIndex::from(TimelessIndex { pos })
}

fn latest_of(v: &TracingVec<&'static str>) -> Vec<&'static str> {
    v.latest().into_iter().copied().collect()
}

fn abc() -> TracingVec<&'static str> {
    let mut v = TracingVec::new();
    v.push("A");
    v.push("B");
    v.push("C");
    v
}

#[test]
fn new_is_empty() {
    let v: TracingVec<u32> = TracingVec::new();
    assert!(v.is_empty());
    assert_eq!(v.len(), 0);
    assert_eq!(v.try_first_index(), None);
    assert_eq!(v.try_last_index(), None);
    let d: TracingVec<u32> = TracingVec::default();
    assert_eq!(d, v);
}

#[test]
fn append_then_remove_scenario() {
    let mut v = abc();
    assert_eq!(latest_of(&v), vec!["A", "B", "C"]);
    assert_eq!(v.last_index().pseudotime, 0);
    let b = timed(1, 0);
    let removed = v.remove(b);
    assert_eq!(removed, TimelessIndex { pos: 1 });
    assert_eq!(v.last_index().pseudotime, 1);
    assert_eq!(latest_of(&v), vec!["A", "C"]);
    assert_eq!(v.get(b), Ok(&"B"));
    assert!(!v.is_alive(timeless(1)));
    assert!(!v.is_alive(b));
}

#[test]
fn replace_scenario() {
    let mut v = abc();
    let removed = v.replace(vec![timed(0, 0), timed(2, 0)], "M");
    assert_eq!(removed, vec![TimelessIndex { pos: 0 }, TimelessIndex { pos: 2 }]);
    assert_eq!(latest_of(&v), vec!["M", "B"]);
    assert!(!v.is_alive(timeless(0)));
    assert!(!v.is_alive(timeless(2)));
    assert!(v.is_alive(timeless(3)));
    assert!(v.is_alive(timeless(1)));
    assert_eq!(v.last_index().pseudotime, 1);
}

#[test]
fn push_keeps_pseudotime_and_coordinates() {
    let mut v = TracingVec::new();
    for i in 0..5u32 {
        v.push(i);
        assert_eq!(v.last_index(), TimedIndex { pos: i as usize, pseudotime: 0 });
    }
    let values: Vec<u32> = v.latest().into_iter().copied().collect();
    assert_eq!(values, vec![0, 1, 2, 3, 4]);
    let first = timed(0, 0);
    v.push(5);
    assert_eq!(v.get(first), Ok(&0));
    assert_eq!(v.into_timed(first), Ok(TimedIndex { pos: 0, pseudotime: 0 }));
}

#[test]
fn inserted_coordinate_survives_later_edits() {
    let mut v = abc();
    let x = v.insert_before(timed(1, 0), "X");
    assert_eq!(x, TimedIndex { pos: 1, pseudotime: 1 });
    assert_eq!(latest_of(&v), vec!["A", "X", "B", "C"]);
    v.remove(timed(0, 0));
    v.insert_after(timed(3, 1), "Y");
    v.pop();
    assert_eq!(v.get(TracingIndex::from(x)), Ok(&"X"));
    assert_eq!(v.into_timed(TracingIndex::from(x)), Ok(TimedIndex { pos: 0, pseudotime: 4 }));
}

#[test]
fn insert_after_places_value_next() {
    let mut v = abc();
    let y = v.insert_after(timed(2, 0), "Y");
    assert_eq!(y, TimedIndex { pos: 3, pseudotime: 1 });
    assert_eq!(latest_of(&v), vec!["A", "B", "C", "Y"]);
    assert_eq!(
        v.try_insert_after(timeless(9), "Z"),
        Err(IndexError::DataDoesNotExist(TimelessIndex { pos: 9 }))
    );
    assert_eq!(latest_of(&v), vec!["A", "B", "C", "Y"]);
}

#[test]
fn pop_advances_even_when_empty() {
    let mut v: TracingVec<u8> = TracingVec::new();
    assert_eq!(v.pop(), None);
    v.push(7);
    assert_eq!(v.last_index(), TimedIndex { pos: 0, pseudotime: 1 });
    assert_eq!(v.pop(), Some(TimelessIndex { pos: 0 }));
    assert!(v.is_empty());
    assert_eq!(v.get(timeless(0)), Ok(&7));
}

#[test]
fn dead_entry_has_no_current_position() {
    let mut v = abc();
    let gone = v.remove(timed(1, 0));
    assert_eq!(
        v.into_timed(TracingIndex::from(gone)),
        Err(IndexError::DataAlreadyDead(TimelessIndex { pos: 1 }))
    );
    assert_eq!(
        v.try_remove(timed(1, 0)),
        Err(IndexError::DataAlreadyDead(TimelessIndex { pos: 1 }))
    );
    assert_eq!(v.get(TracingIndex::from(gone)), Ok(&"B"));
    assert!(v.contains(TracingIndex::from(gone)));
    v.push("D");
    assert!(!v.is_alive(TracingIndex::from(gone)));
}

#[test]
fn resolution_errors() {
    let mut v = abc();
    let too_late = TimedIndex { pos: 0, pseudotime: 3 };
    assert_eq!(v.get(TracingIndex::from(too_late)), Err(IndexError::VersionDoesNotExist(too_late)));
    let too_far = TimedIndex { pos: 3, pseudotime: 0 };
    assert_eq!(v.into_timeless(TracingIndex::from(too_far)), Err(IndexError::IndexOutOfBounds(too_far)));
    assert_eq!(
        v.try_insert_before(timeless(3), "Q"),
        Err(IndexError::DataDoesNotExist(TimelessIndex { pos: 3 }))
    );
    let none: Vec<TracingIndex> = vec![];
    assert_eq!(v.try_replace(none, "Q"), Err(IndexError::NoIndicesProvided));
    assert!(!v.contains(TracingIndex::from(too_far)));
    assert!(!v.is_alive(TracingIndex::from(too_far)));
    assert_eq!(latest_of(&v), vec!["A", "B", "C"]);
    assert_eq!(v.last_index().pseudotime, 0);
}

#[test]
fn batch_failure_changes_nothing() {
    let mut v = abc();
    assert_eq!(
        v.try_replace(vec![timed(0, 0), timed(5, 0)], "Q"),
        Err(IndexError::IndexOutOfBounds(TimedIndex { pos: 5, pseudotime: 0 }))
    );
    assert_eq!(
        v.try_replace(vec![timed(0, 0), timeless(0)], "Q"),
        Err(IndexError::DataAlreadyDead(TimelessIndex { pos: 0 }))
    );
    assert_eq!(latest_of(&v), vec!["A", "B", "C"]);
    assert_eq!(v.last_index().pseudotime, 0);
}

#[test]
fn replace_with_merges_values() {
    let mut v: TracingVec<String> = TracingVec::from_vec(vec!["a".to_string(), "b".to_string(), "c".to_string()]);
    let m = v.replace_with(vec![timed(2, 0), timed(1, 0)], |parts: Vec<String>| parts.concat());
    assert_eq!(m, TimedIndex { pos: 1, pseudotime: 1 });
    let latest: Vec<String> = v.latest().into_iter().cloned().collect();
    assert_eq!(latest, vec!["a".to_string(), "cb".to_string()]);
    assert_eq!(v.get(TracingIndex::from(m)), Ok(&"cb".to_string()));
}

#[test]
fn replace_with_out_of_order_anchor_goes_last() {
    let mut v = abc();
    let m = v.try_replace_with(vec![timed(2, 0), timed(0, 0)], |parts: Vec<&str>| parts[0]).unwrap();
    assert_eq!(m, TimedIndex { pos: 1, pseudotime: 1 });
    assert_eq!(latest_of(&v), vec!["B", "C"]);
}

#[test]
fn replace_at_last_uses_last_anchor() {
    let mut v = abc();
    let m = v.try_replace_at_last_with(vec![timed(0, 0), timed(2, 0)], |_parts: Vec<&str>| "M").unwrap();
    assert_eq!(m, TimedIndex { pos: 1, pseudotime: 1 });
    assert_eq!(latest_of(&v), vec!["B", "M"]);
    assert_eq!(
        v.try_replace_at_last_with(vec![timed(0, 0)], |_parts: Vec<&str>| "N"),
        Err(IndexError::DataAlreadyDead(TimelessIndex { pos: 0 }))
    );
}

#[test]
fn replace_single_keeps_place() {
    let mut v = abc();
    let removed = v.try_replace(vec![timed(1, 0)], "Q").unwrap();
    assert_eq!(removed, vec![TimelessIndex { pos: 1 }]);
    assert_eq!(latest_of(&v), vec!["A", "Q", "C"]);
}

#[test]
fn accessors_follow_latest_version() {
    let mut v = abc();
    v.remove(timed(0, 0));
    assert_eq!(v.len(), 2);
    assert_eq!(v.first_index(), TimedIndex { pos: 0, pseudotime: 1 });
    assert_eq!(v.try_last_index(), Some(TimedIndex { pos: 1, pseudotime: 1 }));
    assert_eq!(v.indices(), vec![TimedIndex { pos: 0, pseudotime: 1 }, TimedIndex { pos: 1, pseudotime: 1 }]);
    assert_eq!(v.timeless_indices(), vec![TimelessIndex { pos: 1 }, TimelessIndex { pos: 2 }]);
    let pairs: Vec<(TimedIndex, &str)> = v.iter_indices().into_iter().map(|(i, x)| (i, *x)).collect();
    assert_eq!(pairs, vec![(TimedIndex { pos: 0, pseudotime: 1 }, "B"), (TimedIndex { pos: 1, pseudotime: 1 }, "C")]);
    let pairs: Vec<(TimelessIndex, &str)> = v.iter_timeless_indices().into_iter().map(|(i, x)| (i, *x)).collect();
    assert_eq!(pairs, vec![(TimelessIndex { pos: 1 }, "B"), (TimelessIndex { pos: 2 }, "C")]);
    let values: Vec<&str> = v.iter().into_iter().copied().collect();
    assert_eq!(values, vec!["B", "C"]);
    let oldest: Vec<&str> = v.oldest().into_iter().copied().collect();
    assert_eq!(oldest, vec!["A", "B", "C"]);
}

#[test]
fn ordering_and_identity_queries() {
    let mut v = abc();
    v.insert_before(timed(0, 0), "Z");
    assert_eq!(v.is_before(timed(2, 0), timed(0, 0)), Ok(false));
    assert_eq!(v.is_before(timed(0, 1), timed(0, 0)), Ok(true));
    assert_eq!(v.is_before(timed(1, 1), timed(0, 0)), Ok(true));
    assert_eq!(v.indices_eq(timed(1, 1), timed(0, 0)), Ok(true));
    assert_eq!(v.indices_eq(timed(0, 1), timeless(3)), Ok(true));
    assert_eq!(v.indices_eq(timed(0, 1), timeless(0)), Ok(false));
    assert_eq!(
        v.indices_eq(timed(0, 1), timeless(4)),
        Err(IndexError::DataDoesNotExist(TimelessIndex { pos: 4 }))
    );
    v.remove(timeless(1));
    assert_eq!(
        v.is_before(timeless(1), timeless(0)),
        Err(IndexError::DataAlreadyDead(TimelessIndex { pos: 1 }))
    );
    assert_eq!(v.into_timeless(timed(2, 1)), Ok(TimelessIndex { pos: 1 }));
}

#[test]
fn get_mut_changes_only_that_value() {
    let mut v = abc();
    v.remove(timed(1, 0));
    *v.get_mut(timed(1, 0)).unwrap() = "b";
    *v.get_mut(timeless(2)).unwrap() = "c";
    assert_eq!(latest_of(&v), vec!["A", "c"]);
    assert_eq!(v.get(timed(1, 0)), Ok(&"b"));
    assert_eq!(v.get_mut(timeless(3)), Err(IndexError::DataDoesNotExist(TimelessIndex { pos: 3 })));
}

#[test]
fn from_vec_seeds_first_version() {
    let v = TracingVec::from_vec(vec![10u8, 20, 30]);
    let values: Vec<u8> = v.latest().into_iter().copied().collect();
    assert_eq!(values, vec![10, 20, 30]);
    assert_eq!(v.last_index(), TimedIndex { pos: 2, pseudotime: 0 });
    let (mem, snapshots) = v.into_parts();
    assert_eq!(mem, vec![Trace { val: 10, birth: 0 }, Trace { val: 20, birth: 0 }, Trace { val: 30, birth: 0 }]);
    assert_eq!(snapshots, vec![vec![0, 1, 2]]);
}

#[test]
fn from_raw_parts_uses_given_chain() {
    let v = TracingVec::from_raw_parts(vec!['x', 'y', 'z'], vec![vec![0, 1], vec![2, 0]]);
    let values: Vec<char> = v.latest().into_iter().copied().collect();
    assert_eq!(values, vec!['z', 'x']);
    assert_eq!(v.get(timed(1, 0)), Ok(&'y'));
    assert!(!v.is_alive(timeless(1)));
}

#[test]
fn parts_round_trip_preserves_resolution() {
    let mut v = abc();
    let b = timed(1, 0);
    v.remove(b);
    let x = v.insert_after(timed(0, 1), "X");
    let copy = v.clone();
    let (mem, snapshots) = v.into_parts();
    assert_eq!(mem[3], Trace { val: "X", birth: 2 });
    let w = TracingVec::from_parts(mem, snapshots).unwrap();
    assert_eq!(w, copy);
    assert_eq!(w.get(b), Ok(&"B"));
    assert_eq!(w.get(TracingIndex::from(x)), Ok(&"X"));
    assert_eq!(latest_of(&w), vec!["A", "X", "C"]);
}

#[test]
fn from_parts_rejects_inconsistent_parts() {
    let t = |val: u8, birth: usize| Trace { val, birth };
    assert!(TracingVec::from_parts(vec![t(1, 0)], vec![]).is_none());
    assert!(TracingVec::from_parts(vec![t(1, 0)], vec![vec![1]]).is_none());
    assert!(TracingVec::from_parts(vec![t(1, 0), t(2, 0)], vec![vec![0, 0]]).is_none());
    assert!(TracingVec::from_parts(vec![t(1, 1)], vec![vec![0]]).is_none());
    assert!(TracingVec::from_parts(vec![t(1, 1)], vec![vec![], vec![0]]).is_some());
}

#[test]
fn latest_mut_changes_live_values_only() {
    let mut v = TracingVec::from_vec(vec![1u32, 2, 3]);
    v.remove(timed(0, 0));
    for x in v.latest_mut() {
        *x *= 10;
    }
    let values: Vec<u32> = v.latest().into_iter().copied().collect();
    assert_eq!(values, vec![20, 30]);
    assert_eq!(v.get(timeless(0)), Ok(&1));
}

#[test]
fn iter_mut_follows_latest_order() {
    let mut v = TracingVec::from_raw_parts(vec![1u32, 2, 3], vec![vec![2, 0]]);
    let refs = v.iter_mut();
    assert_eq!(refs.len(), 2);
    for (k, x) in refs.into_iter().enumerate() {
        *x += k as u32 * 100;
    }
    let values: Vec<u32> = v.latest().into_iter().copied().collect();
    assert_eq!(values, vec![3, 101]);
    assert_eq!(v.get(timeless(1)), Ok(&2));
}

#[test]
fn iter_mut_indices_pairs_coordinates() {
    let mut v = abc();
    v.remove(timed(0, 0));
    let pairs = v.iter_mut_indices();
    let keys: Vec<TimedIndex> = pairs.iter().map(|(k, _)| *k).collect();
    assert_eq!(keys, vec![TimedIndex { pos: 0, pseudotime: 1 }, TimedIndex { pos: 1, pseudotime: 1 }]);
    for (_, x) in pairs {
        *x = "Z";
    }
    assert_eq!(latest_of(&v), vec!["Z", "Z"]);
    let pairs = v.iter_mut_timeless_indices();
    let keys: Vec<TimelessIndex> = pairs.iter().map(|(k, _)| *k).collect();
    assert_eq!(keys, vec![TimelessIndex { pos: 1 }, TimelessIndex { pos: 2 }]);
    for (k, x) in pairs {
        if k.pos == 2 {
            *x = "C";
        }
    }
    assert_eq!(latest_of(&v), vec!["Z", "C"]);
    assert_eq!(v.get(timeless(0)), Ok(&"A"));
}

#[test]
fn from_vec_conversion_matches_from_vec() {
    let v: TracingVec<u8> = TracingVec::from(vec![4, 5]);
    assert_eq!(v, TracingVec::from_vec(vec![4, 5]));
    assert_eq!(v.indices(), vec![TimedIndex { pos: 0, pseudotime: 0 }, TimedIndex { pos: 1, pseudotime: 0 }]);
    let e: TracingVec<u8> = TracingVec::from(Vec::new());
    assert!(e.is_empty());
    assert_eq!(e, TracingVec::new());
}

#[test]
fn batch_resolves_all_before_refusing_repeats() {
    let mut v = abc();
    let too_far = TimedIndex { pos: 3, pseudotime: 0 };
    assert_eq!(
        v.try_replace(vec![timed(0, 0), timed(0, 0), TracingIndex::from(too_far)], "Q"),
        Err(IndexError::IndexOutOfBounds(too_far))
    );
    assert_eq!(
        v.try_replace_with(vec![timeless(0), timed(0, 0), timeless(7)], |_parts: Vec<&str>| "Q"),
        Err(IndexError::DataDoesNotExist(TimelessIndex { pos: 7 }))
    );
    assert_eq!(
        v.try_replace_at_last_with(vec![timed(2, 0), timed(1, 0), timeless(2)], |_parts: Vec<&str>| "Q"),
        Err(IndexError::DataAlreadyDead(TimelessIndex { pos: 2 }))
    );
    assert_eq!(latest_of(&v), vec!["A", "B", "C"]);
    assert_eq!(v.last_index().pseudotime, 0);
}
