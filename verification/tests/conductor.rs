//! The score that the harts of a room play from.
use sqware::bits::Ipi;
use sqware::room::conductor::{
    self, BARRIER_REPORT_AT, Barrier, Entry, Halt, Score, Verdict,
};

#[test]
fn the_nearest_waiting_hart_is_picked_from_the_cursor_on() {
    let mut s = Score::new();
    conductor::sleep(&mut s, 2);
    conductor::sleep(&mut s, 5);
    assert!(conductor::waiting(&s, 2));
    assert!(!conductor::waiting(&s, 3));
    let picks: Vec<usize> = (0..7).map(|_| conductor::pick(&mut s, 0, 8)).collect();
    assert_eq!(picks, vec![2, 2, 2, 5, 5, 5, 2]);
    assert_eq!(s.cursor, 7);
    conductor::wake(&mut s, 2);
    conductor::wake(&mut s, 5);
    let h = conductor::pick(&mut s, 3, 8);
    assert!(h < 8);
}

#[test]
fn a_score_is_done_when_all_who_came_have_gone() {
    let mut s = Score::new();
    assert!(!conductor::done(&s));
    conductor::rooted(&mut s);
    assert!(conductor::done(&s));
    conductor::push(&mut s);
    conductor::push(&mut s);
    conductor::exit(&mut s);
    assert_eq!(conductor::counts(&s), (2, 1));
    assert!(!conductor::done(&s));
    conductor::exit(&mut s);
    assert!(conductor::done(&s));
}

#[test]
fn nothing_is_done_before_the_root_was_there() {
    let mut s = Score::new();
    conductor::push(&mut s);
    conductor::exit(&mut s);
    assert!(!conductor::done(&s));
    conductor::rooted(&mut s);
    assert!(conductor::done(&s));
}

#[test]
fn one_hart_leads_the_way_down() {
    let mut s = Score::new();
    conductor::sleep(&mut s, 64);
    assert_eq!(conductor::yell(&s), vec![Ipi { mask: 1, base: 64 }]);
    assert_eq!(conductor::nudge(70), Ipi { mask: 64, base: 64 });
    assert!(matches!(conductor::halt(&mut s), Halt::Lead(_)));
    assert!(matches!(conductor::halt(&mut s), Halt::Follow));
    assert_eq!(conductor::barrier(&s, 3), (2, 3));
    assert_eq!(conductor::stand(&s, 2, 0), Barrier::Open);
    assert_eq!(conductor::stand(&s, 3, 0), Barrier::Spin);
    assert_eq!(conductor::stand(&s, 3, BARRIER_REPORT_AT), Barrier::Spin);
    assert_eq!(
        conductor::stand(&s, 3, BARRIER_REPORT_AT - 1),
        Barrier::Report { arrived: 2, total: 3, pushed: 0, reaped: 0, missing: 0 }
    );
}

#[test]
fn hooks_are_set_once_and_kicks_are_counted() {
    let mut s = Score::new();
    assert!(conductor::hooked(&s).is_empty());
    conductor::hook(&mut s, vec![4, 5]);
    conductor::hook(&mut s, vec![6]);
    assert_eq!(conductor::hooked(&s), vec![4, 5]);
    conductor::note_kick_ipi(&mut s);
    conductor::note_kick_ipi(&mut s);
    conductor::note_fallback(&mut s);
    assert_eq!(conductor::kick_stats(&s), (2, 1));
    assert_eq!(conductor::late_average(0, 5), 0);
    assert_eq!(conductor::late_average(4, 10), 2);
}

#[test]
fn the_first_panic_is_to_blame() {
    let mut s = Score::new();
    let calm = Entry { task: 1, reason: 0 };
    let first = Entry { task: 2, reason: 9 };
    let second = Entry { task: 3, reason: 9 };
    let ledger = vec![calm, first, second];
    assert_eq!(conductor::verdict(&s, false, &ledger, 9), Verdict::Reset);
    assert_eq!(conductor::verdict(&s, true, &ledger, 9), Verdict::Void);
    conductor::push(&mut s);
    assert_eq!(conductor::verdict(&s, true, &ledger, 9), Verdict::Blame(first));
    assert_eq!(conductor::verdict(&s, true, &vec![calm], 9), Verdict::Pass);
    assert_eq!(Verdict::Void.exit_status(), Some(101));
    assert_eq!(Verdict::Blame(first).exit_status(), Some(101));
    assert_eq!(Verdict::Pass.exit_status(), Some(0));
    assert_eq!(Verdict::Reset.exit_status(), None);
}

#[test]
fn the_order_of_the_counts_does_not_matter() {
    for order in ["prep", "ppeer", "rppee", "ppere", "pepeer", "r"] {
        let mut s = Score::new();
        let (mut came, mut went, mut root) = (0, 0, false);
        for c in order.chars() {
            match c {
                'p' => {
                    conductor::push(&mut s);
                    came += 1;
                },
                'e' => {
                    conductor::exit(&mut s);
                    went += 1;
                },
                _ => {
                    conductor::rooted(&mut s);
                    root = true;
                },
            }
            assert_eq!(conductor::done(&s), root && (came == 0 || came == went));
        }
    }
}

#[test]
fn the_hooks_wait_for_every_hart() {
    let mut s = Score::new();
    conductor::hook(&mut s, vec![8, 9]);
    let mut leaders = 0;
    for arrived in 1..=3usize {
        if let Halt::Lead(_) = conductor::halt(&mut s) {
            leaders += 1;
        }
        assert_eq!(conductor::stand(&s, 3, 0) == Barrier::Open, arrived == 3);
    }
    assert_eq!(leaders, 1);
    assert_eq!(conductor::hooked(&s), vec![8, 9]);
}
