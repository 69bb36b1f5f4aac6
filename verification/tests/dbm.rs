use agent_engine::dbm::DoubleBufferedMap;

#[test]
fn reads_see_only_published_writes() {
    let mut m: DoubleBufferedMap<u64> = DoubleBufferedMap::new();
    m.insert(1, 10);
    assert_eq!(m.get(1), None);
    assert_eq!(m.get_write(1), Some(&10));
    m.update();
    assert_eq!(m.get(1), Some(&10));
}

#[test]
fn double_update_changes_nothing() {
    let mut m: DoubleBufferedMap<u64> = DoubleBufferedMap::new();
    m.insert(1, 10);
    m.insert(2, 20);
    m.update();
    let first: Vec<u64> = {
        let mut ks = m.keys();
        ks.sort();
        ks
    };
    m.update();
    let mut second = m.keys();
    second.sort();
    assert_eq!(first, second);
    assert_eq!(m.get(1), Some(&10));
    assert_eq!(m.get(2), Some(&20));
    assert_eq!(m.get_write(1), Some(&10));
    assert_eq!(m.get_write(2), Some(&20));
}

#[test]
fn lazy_update_publishes_when_dirty() {
    let mut m: DoubleBufferedMap<u64> = DoubleBufferedMap::new();
    m.insert(7, 70);
    m.lazy_update();
    assert_eq!(m.get(7), Some(&70));
    m.lazy_update();
    assert_eq!(m.get(7), Some(&70));
}

#[test]
fn staged_entries_carry_over_between_ticks() {
    let mut m: DoubleBufferedMap<u64> = DoubleBufferedMap::new();
    m.insert(1, 10);
    m.update();
    m.insert(2, 20);
    m.update();
    // An entry untouched in the second tick carries over.
    assert_eq!(m.get(1), Some(&10));
    assert_eq!(m.get(2), Some(&20));
}

#[test]
fn removal_is_queued_until_update() {
    let mut m: DoubleBufferedMap<u64> = DoubleBufferedMap::new();
    m.insert(1, 10);
    m.update();
    m.remove(1);
    assert_eq!(m.get(1), Some(&10));
    assert_eq!(m.get_write(1), None);
    m.update();
    assert_eq!(m.get(1), None);
}

#[test]
fn insert_after_remove_wins() {
    let mut m: DoubleBufferedMap<u64> = DoubleBufferedMap::new();
    m.insert(1, 10);
    m.update();
    m.remove(1);
    m.insert(1, 11);
    m.update();
    assert_eq!(m.get(1), Some(&11));
}

#[test]
fn clear_empties_the_next_tick_only() {
    let mut m: DoubleBufferedMap<u64> = DoubleBufferedMap::new();
    m.insert(1, 10);
    m.insert(2, 20);
    m.update();
    m.clear();
    assert_eq!(m.get(1), Some(&10));
    assert!(m.w_keys().is_empty());
    m.update();
    assert_eq!(m.get(1), None);
    assert_eq!(m.get(2), None);
    assert!(m.keys().is_empty());
}

#[test]
fn write_keys_merge_staged_over_published() {
    let mut m: DoubleBufferedMap<u64> = DoubleBufferedMap::new();
    m.insert(1, 10);
    m.update();
    m.insert(2, 20);
    m.remove(1);
    let mut wk = m.w_keys();
    wk.sort();
    assert_eq!(wk, vec![2]);
    m.insert(3, 30);
    let mut wk = m.w_keys();
    wk.sort();
    assert_eq!(wk, vec![2, 3]);
}
