//! Tables, bitmaps, the tie between harts and the small lifecycle.
use sqware::bits::{Bitmap, Ipi, MAX_HART_SLOTS};
use sqware::lifecycle::{self, Lifecycle};
use sqware::room;
use sqware::room::messenger::wait::site::{HoleDir, WakeKey};
use sqware::table::Table;
use sqware::tie::{self, Halt, Tie};

#[test]
fn a_table_keeps_what_was_inserted() {
    let mut t: Table<usize, &'static str> = Table::new();
    assert_eq!(t.len(), 0);
    assert!(t.insert(7, "seven").is_none());
    assert!(t.insert(9, "nine").is_none());
    assert_eq!(t.insert(7, "sept"), Some("seven"));
    assert_eq!(t.len(), 2);
    assert_eq!(t.get(7), Some(&"sept"));
    assert_eq!(t.get(9), Some(&"nine"));
    assert!(t.get(8).is_none());
    assert!(t.contains(9));
    assert!(!t.contains(8));
}

#[test]
fn a_table_forgets_what_was_removed() {
    let mut t: Table<u64, u32> = Table::new();
    for k in 0..40u64 {
        t.insert(k, k as u32 * 3);
    }
    assert_eq!(t.remove(11), Some(33));
    assert_eq!(t.remove(11), None);
    assert_eq!(t.len(), 39);
    for k in 0..40u64 {
        if k == 11 {
            assert!(!t.contains(k));
        } else {
            assert_eq!(t.get(k), Some(&(k as u32 * 3)));
        }
    }
}

#[test]
fn a_table_lists_every_key_once() {
    let mut t: Table<usize, ()> = Table::new();
    for k in [5usize, 1, 9, 3] {
        t.insert(k, ());
    }
    t.remove(1);
    let mut keys: Vec<usize> = Vec::new();
    for i in 0..t.len() {
        keys.push(t.key_at(i));
    }
    keys.sort();
    assert_eq!(keys, vec![3, 5, 9]);
}

#[test]
fn a_table_lends_a_value_for_change() {
    let mut t: Table<usize, u8> = Table::new();
    t.insert(2, 10);
    *t.get_mut(2).unwrap() += 5;
    assert!(t.get_mut(3).is_none());
    assert_eq!(t.get(2), Some(&15));
}

#[test]
fn a_cleared_table_is_empty_and_usable() {
    let mut t: Table<usize, u8> = Table::new();
    t.insert(2, 10);
    t.clear();
    assert_eq!(t.len(), 0);
    assert!(!t.contains(2));
    t.insert(2, 11);
    assert_eq!(t.get(2), Some(&11));
}

#[test]
fn reserving_room_changes_no_contents() {
    let mut t: Table<usize, u8> = Table::new();
    t.insert(2, 10);
    assert!(t.try_reserve());
    assert_eq!(t.len(), 1);
    assert_eq!(t.get(2), Some(&10));
}

#[test]
fn keys_of_different_kinds_do_not_meet() {
    let keys = [
        WakeKey::Space { space: 4, slot: 1 },
        WakeKey::Space { space: 1, slot: 4 },
        WakeKey::Hole { hole: 4, dir: HoleDir::Pull },
        WakeKey::Hole { hole: 4, dir: HoleDir::Push },
        WakeKey::Nole { id: 4 },
        WakeKey::Task { id: 4 },
        WakeKey::Pies { task: 4 },
        WakeKey::Tole { id: 4 },
        WakeKey::Alarm { task: 4 },
    ];
    let mut t: Table<WakeKey, usize> = Table::new();
    for (i, k) in keys.iter().enumerate() {
        assert!(t.insert(*k, i).is_none());
    }
    for (i, k) in keys.iter().enumerate() {
        assert_eq!(t.get(*k), Some(&i));
    }
}

#[test]
fn a_bitmap_holds_exactly_what_was_set() {
    let mut m = Bitmap::new();
    m.set(0);
    m.set(63);
    m.set(64);
    m.set(MAX_HART_SLOTS - 1);
    m.clear(63);
    assert!(m.test(0));
    assert!(!m.test(63));
    assert!(m.test(64));
    assert!(m.test(MAX_HART_SLOTS - 1));
    assert_eq!(m.word(0), 1);
    assert_eq!(m.word(1), 1);
    assert_eq!(m.word(63), 1u64 << 63);
}

#[test]
fn there_is_one_call_for_each_word_in_use() {
    let mut m = Bitmap::new();
    assert!(m.calls().is_empty());
    m.set(1);
    m.set(3);
    m.set(130);
    assert_eq!(
        m.calls(),
        vec![Ipi { mask: 0b1010, base: 0 }, Ipi { mask: 0b100, base: 128 }]
    );
}

#[test]
fn waking_undoes_sleeping() {
    let mut t = Tie::new();
    tie::sleep(&mut t, 5);
    assert_eq!(tie::wake_all(&t), vec![Ipi { mask: 32, base: 0 }]);
    assert_eq!(room::tie::yell(&t), vec![Ipi { mask: 32, base: 0 }]);
    tie::wake(&mut t, 5);
    assert!(tie::wake_all(&t).is_empty());
}

#[test]
fn all_is_done_once_every_task_has_gone() {
    let mut t = Tie::new();
    assert!(!tie::done(&t));
    tie::push(&mut t);
    tie::push(&mut t);
    tie::exit(&mut t);
    assert!(!tie::done(&t));
    tie::exit(&mut t);
    assert!(tie::done(&t));
}

#[test]
fn the_first_hart_leads_the_halt() {
    let mut t = Tie::new();
    tie::sleep(&mut t, 1);
    match tie::halt(&mut t) {
        Halt::Lead(calls) => assert_eq!(calls, vec![Ipi { mask: 2, base: 0 }]),
        Halt::Follow => panic!("the first hart follows"),
    }
    assert!(!tie::gathered(&t, 2));
    assert!(matches!(tie::halt(&mut t), Halt::Follow));
    assert!(tie::gathered(&t, 2));
}

#[test]
fn the_small_lifecycle_counts_and_halts_once() {
    let mut life = Lifecycle { spawned: 0, exited: 0, halting: false, sleeping: 0 };
    assert!(!lifecycle::all_exited(&life));
    lifecycle::on_task_spawned(&mut life);
    assert!(!lifecycle::all_exited(&life));
    lifecycle::on_task_exited(&mut life);
    assert!(lifecycle::all_exited(&life));
    assert!(lifecycle::halt_all(&mut life));
    assert!(!lifecycle::halt_all(&mut life));
}

#[test]
fn sleepers_are_woken_by_one_mask() {
    let mut life = Lifecycle { spawned: 0, exited: 0, halting: false, sleeping: 0 };
    assert_eq!(lifecycle::wake_sleepers(&life), None);
    lifecycle::mark_sleeping(&mut life, 0);
    lifecycle::mark_sleeping(&mut life, 6);
    assert_eq!(lifecycle::wake_sleepers(&life), Some(65));
    lifecycle::mark_awake(&mut life, 0);
    assert_eq!(lifecycle::wake_sleepers(&life), Some(64));
}
