use interval_map::interval_map::IntervalMap;

fn sample() -> IntervalMap<i32, i32> {
    let mut map: IntervalMap<i32, i32> = IntervalMap::new(3);
    assert!(map.assign(&2, &4, &5));
    assert!(map.assign(&4, &10, &6));
    map
}

#[test]
fn empty_map_has_default_everywhere() {
    let map: IntervalMap<i64, u8> = IntervalMap::new(9);
    for key in [i64::MIN, -1, 0, 1, 1 << 40, i64::MAX] {
        assert_eq!(map[&key], 9);
    }
    assert_eq!(map.entries(), vec![]);
    assert_eq!(map.min_key(), None);
    assert_eq!(map.max_key(), None);
}

#[test]
fn first_assignment_writes_both_ends() {
    let mut map: IntervalMap<i32, char> = IntervalMap::new('a');
    assert!(map.assign(&3, &8, &'x'));
    assert_eq!(map.entries(), vec![(3, 'x'), (8, 'a')]);
}

#[test]
fn default_value_on_empty_map_is_refused() {
    let mut map: IntervalMap<i32, char> = IntervalMap::new('a');
    assert!(!map.assign(&3, &8, &'a'));
    assert_eq!(map.entries(), vec![]);
}

#[test]
fn inverted_and_empty_ranges_change_nothing() {
    let mut map = sample();
    let before = map.entries();
    assert!(!map.assign(&1, &1, &7));
    assert!(!map.assign(&1, &-1, &7));
    assert!(!map.assign(&i32::MAX, &i32::MIN, &7));
    assert_eq!(map.entries(), before);
}

#[test]
fn redundant_assignment_is_refused() {
    let mut map: IntervalMap<i32, char> = IntervalMap::new('a');
    assert!(map.assign(&0, &10, &'b'));
    let before = map.entries();
    assert!(!map.assign(&2, &5, &'b'));
    assert_eq!(map.entries(), before);
    assert_eq!(map.entries().len(), 2);
}

#[test]
fn value_in_effect_before_begin_is_refused() {
    let mut map: IntervalMap<i32, char> = IntervalMap::new('a');
    assert!(map.assign(&0, &10, &'b'));
    assert!(!map.assign(&10, &20, &'b'));
    assert!(!map.assign(&-5, &0, &'b'));
    assert_eq!(map.entries(), vec![(0, 'b'), (10, 'a')]);
}

#[test]
fn truncation_reanchors_tail() {
    let mut map: IntervalMap<i32, char> = IntervalMap::new('a');
    assert!(map.assign(&0, &10, &'b'));
    assert!(map.assign(&0, &7, &'c'));
    assert_eq!(map.entries(), vec![(0, 'c'), (7, 'b'), (10, 'a')]);
    for key in 0..7 {
        assert_eq!(map[&key], 'c');
    }
    for key in 7..10 {
        assert_eq!(map[&key], 'b');
    }
    assert_eq!(map[&10], 'a');
    assert_eq!(map[&1000], 'a');
    assert_eq!(map[&-1], 'a');
}

#[test]
fn overwrite_same_range() {
    let mut map: IntervalMap<i32, char> = IntervalMap::new('a');
    assert!(map.assign(&2, &5, &'b'));
    assert!(map.assign(&2, &5, &'c'));
    assert_eq!(map.entries(), vec![(2, 'c'), (5, 'a')]);
    assert_eq!(map[&1], 'a');
    assert_eq!(map[&2], 'c');
    assert_eq!(map[&3], 'c');
    assert_eq!(map[&4], 'c');
    assert_eq!(map[&5], 'a');
}

#[test]
fn swallowing_several_runs() {
    let mut map: IntervalMap<i32, char> = IntervalMap::new('a');
    assert!(map.assign(&0, &2, &'b'));
    assert!(map.assign(&2, &4, &'c'));
    assert!(map.assign(&6, &8, &'d'));
    assert_eq!(map.entries(), vec![(0, 'b'), (2, 'c'), (4, 'a'), (6, 'd'), (8, 'a')]);
    assert!(map.assign(&1, &7, &'z'));
    assert_eq!(map.entries(), vec![(0, 'b'), (1, 'z'), (7, 'd'), (8, 'a')]);
    assert_eq!(map[&0], 'b');
    assert_eq!(map[&1], 'z');
    assert_eq!(map[&6], 'z');
    assert_eq!(map[&7], 'd');
    assert_eq!(map[&8], 'a');
}

#[test]
fn end_on_existing_breakpoint_keeps_it() {
    let mut map: IntervalMap<i32, char> = IntervalMap::new('a');
    assert!(map.assign(&0, &5, &'b'));
    assert!(map.assign(&5, &9, &'c'));
    assert!(map.assign(&-3, &5, &'d'));
    assert_eq!(map.entries(), vec![(-3, 'd'), (5, 'c'), (9, 'a')]);
}

#[test]
fn range_inside_default_run_ends_with_default() {
    let mut map: IntervalMap<i32, char> = IntervalMap::new('a');
    assert!(map.assign(&0, &2, &'b'));
    assert!(map.assign(&10, &12, &'b'));
    assert!(map.assign(&5, &7, &'c'));
    assert_eq!(
        map.entries(),
        vec![(0, 'b'), (2, 'a'), (5, 'c'), (7, 'a'), (10, 'b'), (12, 'a')]
    );
}

#[test]
fn range_strictly_inside_a_run_ends_with_default() {
    let mut map: IntervalMap<i32, char> = IntervalMap::new('a');
    assert!(map.assign(&0, &10, &'b'));
    assert!(map.assign(&3, &5, &'c'));
    assert_eq!(map.entries(), vec![(0, 'b'), (3, 'c'), (5, 'a'), (10, 'a')]);
    assert_eq!(map[&2], 'b');
    assert_eq!(map[&3], 'c');
    assert_eq!(map[&4], 'c');
    assert_eq!(map[&5], 'a');
    assert_eq!(map[&9], 'a');
    assert_eq!(map[&10], 'a');
}

#[test]
fn boundary_extremes_are_independent() {
    let mut map: IntervalMap<i32, char> = IntervalMap::new('a');
    assert!(map.assign(&(i32::MAX - 1), &i32::MAX, &'b'));
    assert!(map.assign(&i32::MIN, &(i32::MIN + 1), &'c'));
    assert_eq!(map[&i32::MIN], 'c');
    assert_eq!(map[&(i32::MIN + 1)], 'a');
    assert_eq!(map[&0], 'a');
    assert_eq!(map[&(i32::MAX - 2)], 'a');
    assert_eq!(map[&(i32::MAX - 1)], 'b');
    assert_eq!(map[&i32::MAX], 'a');
    assert_eq!(map.min_key(), Some(&i32::MIN));
    assert_eq!(map.max_key(), Some(&i32::MAX));
}

#[test]
fn breakpoints_stay_canonical_over_a_sequence() {
    let mut map: IntervalMap<i32, char> = IntervalMap::new('a');
    let steps = [
        (2, 5, 'b'),
        (2, 5, 'c'),
        (5, 6, 'h'),
        (2, 5, 'e'),
        (0, 10, 'd'),
        (-4, 3, 'q'),
        (3, 12, 'q'),
        (20, 30, 'd'),
        (8, 25, 'a'),
    ];
    for (begin, end, value) in steps {
        map.assign(&begin, &end, &value);
        let entries = map.entries();
        let mut before = 'a';
        for (_, held) in entries.iter() {
            assert_ne!(*held, before);
            before = *held;
        }
        if let Some((_, last)) = entries.last() {
            assert_eq!(*last, 'a');
        }
    }
}

#[test]
fn min_and_max_key() {
    let map = sample();
    assert_eq!(map.min_key(), Some(&2));
    assert_eq!(map.max_key(), Some(&10));
}

#[test]
fn next_and_previous_key() {
    let map = sample();
    assert_eq!(map.next_key(&-5), Some(&2));
    assert_eq!(map.next_key(&2), Some(&4));
    assert_eq!(map.next_key(&3), Some(&4));
    assert_eq!(map.next_key(&9), Some(&10));
    assert_eq!(map.next_key(&10), None);
    assert_eq!(map.previous_key(&2), None);
    assert_eq!(map.previous_key(&3), Some(&2));
    assert_eq!(map.previous_key(&4), Some(&2));
    assert_eq!(map.previous_key(&10), Some(&4));
    assert_eq!(map.previous_key(&11), Some(&10));
}

#[test]
fn next_and_previous_value() {
    let map = sample();
    assert_eq!(*map.next_value(&0), 5);
    assert_eq!(*map.next_value(&2), 6);
    assert_eq!(*map.next_value(&4), 3);
    assert_eq!(*map.next_value(&10), 3);
    assert_eq!(*map.previous_value(&2), 3);
    assert_eq!(*map.previous_value(&4), 5);
    assert_eq!(*map.previous_value(&5), 6);
    assert_eq!(*map.previous_value(&100), 3);
}

#[test]
fn key_exceeds_threshold() {
    let map = sample();
    assert!(map.key_exceeds(&2, &3));
    assert!(!map.key_exceeds(&2, &4));
    assert!(!map.key_exceeds(&2, &5));
    assert!(map.key_exceeds(&4, &9));
    assert!(map.key_exceeds(&10, &100));
}

#[test]
fn keys_in_half_open_range() {
    let map = sample();
    assert_eq!(map.keys_in_range(&2, &10), vec![2, 4]);
    assert_eq!(map.keys_in_range(&3, &11), vec![4, 10]);
    assert_eq!(map.keys_in_range(&-100, &100), vec![2, 4, 10]);
    assert_eq!(map.keys_in_range(&5, &5), vec![]);
    assert_eq!(map.keys_in_range(&10, &2), vec![]);
}

#[test]
fn values_that_are_not_copy() {
    let mut map: IntervalMap<u8, String> = IntervalMap::new(String::from("none"));
    assert!(map.assign(&10, &20, &String::from("low")));
    assert!(map.assign(&15, &30, &String::from("high")));
    assert_eq!(map[&9], "none");
    assert_eq!(map[&10], "low");
    assert_eq!(map[&14], "low");
    assert_eq!(map[&15], "high");
    assert_eq!(map[&29], "high");
    assert_eq!(map[&30], "none");
    assert_eq!(map[&255], "none");
}

#[test]
fn refusal_looks_only_at_the_two_ends() {
    let mut map: IntervalMap<i32, char> = IntervalMap::new('a');
    assert!(map.assign(&0, &5, &'b'));
    assert!(map.assign(&5, &10, &'c'));
    assert!(!map.assign(&5, &20, &'b'));
    assert!(!map.assign(&-7, &7, &'c'));
    assert_eq!(map.entries(), vec![(0, 'b'), (5, 'c'), (10, 'a')]);
}

#[test]
fn same_value_over_a_whole_run_is_rewritten() {
    let mut map: IntervalMap<i32, char> = IntervalMap::new('a');
    assert!(map.assign(&2, &5, &'b'));
    assert!(map.assign(&2, &5, &'b'));
    assert_eq!(map.entries(), vec![(2, 'b'), (5, 'a')]);
}

#[test]
fn default_is_in_effect_outside_the_breakpoints() {
    let map = sample();
    assert_eq!(map[&i32::MIN], 3);
    assert_eq!(map[&1], 3);
    assert_eq!(map[&10], 3);
    assert_eq!(map[&11], 3);
    assert_eq!(map[&i32::MAX], 3);
}

#[test]
fn debug_output_names_the_breakpoints() {
    let map = sample();
    let shown = format!("{:?}", map);
    assert!(shown.contains("2: 5"));
    assert!(shown.contains("4: 6"));
    assert!(shown.contains("10: 3"));
}
