use ustc_swap::leaderboard::{Hint, Leaderboard, RankedEntry};
use ustc_swap::ranking::{Change, MAX_ENTRIES};

fn entries(lb: &Leaderboard) -> Vec<(String, u128)> {
    let (page, more) = lb.range(None, MAX_ENTRIES);
    assert!(!more);
    page.into_iter().map(|e| (e.code, e.reward)).collect()
}

fn assert_board_ok(lb: &Leaderboard) {
    let all = entries(lb);
    assert_eq!(all.len(), lb.len());
    assert!(lb.len() <= MAX_ENTRIES);
    for i in 1..all.len() {
        assert!(all[i - 1].1 >= all[i].1, "not sorted at {}", i);
    }
    for i in 0..all.len() {
        for j in i + 1..all.len() {
            assert_ne!(all[i].0, all[j].0);
        }
        assert_eq!(lb.position_of(&all[i].0), Some(i + 1));
    }
}

fn after(code: &str) -> Hint {
    Hint { insert_after: Some(code.to_string()) }
}

fn four_entries() -> Leaderboard {
    let mut lb = Leaderboard::new();
    lb.upsert("a", 400, None);
    lb.upsert("b", 300, None);
    lb.upsert("c", 200, None);
    lb.upsert("d", 100, None);
    lb
}

#[test]
fn empty_board_answers_without_errors() {
    let lb = Leaderboard::new();
    assert_eq!(lb.len(), 0);
    assert_eq!(lb.position_of("x"), None);
    let (page, more) = lb.range(None, 10);
    assert!(page.is_empty());
    assert!(!more);
    let (page, more) = lb.range(Some("x"), 10);
    assert!(page.is_empty());
    assert!(!more);
}

#[test]
fn first_entries_rank_by_reward() {
    let mut lb = Leaderboard::new();
    assert_eq!(lb.upsert("a", 10, None), Change::NewEntry { position: 1 });
    assert_eq!(lb.upsert("b", 30, None), Change::NewEntry { position: 1 });
    assert_eq!(lb.upsert("c", 20, None), Change::NewEntry { position: 2 });
    assert_eq!(
        entries(&lb),
        vec![("b".to_string(), 30), ("c".to_string(), 20), ("a".to_string(), 10)]
    );
    assert_board_ok(&lb);
}

#[test]
fn hint_too_high_and_too_low_agree() {
    let mut high = four_entries();
    let mut low = four_entries();
    let mut none = four_entries();
    let mut exact = four_entries();
    assert_eq!(high.upsert("e", 250, Some(&after("a"))), Change::NewEntry { position: 3 });
    assert_eq!(low.upsert("e", 250, Some(&after("d"))), Change::NewEntry { position: 3 });
    assert_eq!(none.upsert("e", 250, None), Change::NewEntry { position: 3 });
    assert_eq!(exact.upsert("e", 250, Some(&after("b"))), Change::NewEntry { position: 3 });
    let want = vec![
        ("a".to_string(), 400),
        ("b".to_string(), 300),
        ("e".to_string(), 250),
        ("c".to_string(), 200),
        ("d".to_string(), 100),
    ];
    assert_eq!(entries(&high), want);
    assert_eq!(entries(&low), want);
    assert_eq!(entries(&none), want);
    assert_eq!(entries(&exact), want);
}

#[test]
fn misleading_hints_of_every_kind() {
    let top_claim = Hint { insert_after: None };
    let unknown = after("zzz");
    let mut lb = four_entries();
    assert_eq!(lb.upsert("e", 50, Some(&top_claim)), Change::NewEntry { position: 5 });
    assert_eq!(lb.upsert("f", 500, Some(&after("e"))), Change::NewEntry { position: 1 });
    assert_eq!(lb.upsert("g", 150, Some(&unknown)), Change::NewEntry { position: 5 });
    assert_eq!(lb.upsert("g", 450, Some(&after("g"))), Change::PositionUp { position: 2 });
    assert_eq!(lb.upsert("h", 350, Some(&top_claim)), Change::NewEntry { position: 4 });
    assert_board_ok(&lb);
    assert_eq!(
        entries(&lb).into_iter().map(|e| e.0).collect::<Vec<_>>(),
        vec!["f", "g", "a", "h", "b", "c", "d", "e"]
    );
}

#[test]
fn repeating_an_update_changes_nothing() {
    let mut lb = four_entries();
    assert_eq!(lb.upsert("c", 350, Some(&after("d"))), Change::PositionUp { position: 2 });
    let before = entries(&lb);
    assert_eq!(lb.upsert("c", 350, Some(&after("d"))), Change::NoChange { position: 2 });
    assert_eq!(entries(&lb), before);
    assert_eq!(lb.upsert("a", 400, None), Change::NoChange { position: 1 });
    assert_eq!(entries(&lb), before);
}

#[test]
fn surpassing_reward_gives_better_rank() {
    let mut lb = four_entries();
    // d (100) overtakes b (300).
    lb.upsert("d", 301, Some(&after("c")));
    assert!(lb.position_of("d").unwrap() < lb.position_of("b").unwrap());
    // A new code above c ranks ahead of it.
    lb.upsert("n", 201, None);
    assert!(lb.position_of("n").unwrap() < lb.position_of("c").unwrap());
    assert_board_ok(&lb);
}

#[test]
fn raise_within_slot_keeps_rank() {
    let mut lb = four_entries();
    assert_eq!(lb.upsert("c", 299, None), Change::NoChange { position: 3 });
    assert_eq!(lb.upsert("a", 10_000, None), Change::NoChange { position: 1 });
    assert_eq!(lb.upsert("d", 199, None), Change::NoChange { position: 4 });
    assert_board_ok(&lb);
    assert_eq!(entries(&lb)[2], ("c".to_string(), 299));
}

#[test]
fn lowered_reward_moves_down() {
    let mut lb = four_entries();
    assert_eq!(lb.upsert("a", 150, Some(&after("a"))), Change::PositionDown { position: 3 });
    assert_board_ok(&lb);
    assert_eq!(
        entries(&lb).into_iter().map(|e| e.0).collect::<Vec<_>>(),
        vec!["b", "c", "a", "d"]
    );
}

#[test]
fn equal_rewards_keep_arrival_order() {
    let mut lb = Leaderboard::new();
    assert_eq!(lb.upsert("x", 5, None), Change::NewEntry { position: 1 });
    assert_eq!(lb.upsert("y", 5, Some(&Hint { insert_after: None })), Change::NewEntry { position: 2 });
    assert_eq!(lb.upsert("z", 5, Some(&after("x"))), Change::NewEntry { position: 3 });
    assert_eq!(lb.upsert("x", 5, None), Change::NoChange { position: 1 });
    // z and then y overtake x; y reaches z's reward and stays behind z.
    assert_eq!(lb.upsert("z", 6, None), Change::PositionUp { position: 1 });
    assert_eq!(lb.upsert("y", 6, None), Change::PositionUp { position: 2 });
    assert_board_ok(&lb);
    assert_eq!(
        entries(&lb).into_iter().map(|e| e.0).collect::<Vec<_>>(),
        vec!["z", "y", "x"]
    );
}

fn full_board() -> Leaderboard {
    let mut lb = Leaderboard::new();
    for i in 0..MAX_ENTRIES {
        let code = format!("c{}", i);
        let reward = 1_000 + 10 * i as u128;
        lb.upsert(&code, reward, None);
    }
    lb
}

#[test]
fn full_board_evicts_exactly_the_minimum() {
    let mut lb = full_board();
    assert_eq!(lb.len(), MAX_ENTRIES);
    assert_eq!(lb.position_of("c0"), Some(MAX_ENTRIES));
    assert_eq!(lb.upsert("new", 1_001, Some(&after("c0"))), Change::NewEntry { position: MAX_ENTRIES });
    assert_eq!(lb.len(), MAX_ENTRIES);
    assert_eq!(lb.position_of("c0"), None);
    for i in 1..MAX_ENTRIES {
        assert!(lb.position_of(&format!("c{}", i)).is_some());
    }
    assert_board_ok(&lb);
}

#[test]
fn full_board_turns_away_low_rewards() {
    let mut lb = full_board();
    let before = entries(&lb);
    assert_eq!(lb.upsert("low", 1_000, None), Change::NotQualified);
    assert_eq!(lb.upsert("lower", 1, Some(&after("c3"))), Change::NotQualified);
    assert_eq!(entries(&lb), before);
    assert_eq!(lb.position_of("low"), None);
    // A big newcomer enters at the top and pushes the minimum out.
    assert_eq!(lb.upsert("big", 1_000_000, Some(&after("c0"))), Change::NewEntry { position: 1 });
    assert_eq!(lb.position_of("c0"), None);
    assert_eq!(lb.len(), MAX_ENTRIES);
    assert_board_ok(&lb);
}

#[test]
fn pages_walk_forward() {
    let lb = four_entries();
    let (page, more) = lb.range(None, 2);
    assert_eq!(page.len(), 2);
    assert!(more);
    assert_eq!((page[0].rank, page[0].code.as_str(), page[0].reward), (1, "a", 400));
    assert_eq!((page[1].rank, page[1].code.as_str(), page[1].reward), (2, "b", 300));
    let (page, more) = lb.range(Some("b"), 2);
    assert!(!more);
    let ranks: Vec<usize> = page.iter().map(|e: &RankedEntry| e.rank).collect();
    assert_eq!(ranks, vec![3, 4]);
    let (page, more) = lb.range(Some("d"), 2);
    assert!(page.is_empty());
    assert!(!more);
    let (page, more) = lb.range(None, 0);
    assert!(page.is_empty());
    assert!(more);
    let big = full_board();
    let (page, more) = big.range(None, 1_000);
    assert_eq!(page.len(), MAX_ENTRIES);
    assert!(!more);
}

#[test]
fn many_updates_with_adversarial_hints_stay_sorted() {
    let mut lb = Leaderboard::new();
    let mut totals: Vec<u128> = vec![0; 80];
    let mut seed: u64 = 0x2545_f491_4f6c_dd1d;
    for step in 0..2_000u32 {
        seed ^= seed << 13;
        seed ^= seed >> 7;
        seed ^= seed << 17;
        let who = (seed % 80) as usize;
        totals[who] += (seed >> 8) as u128 % 500;
        let hint_target = format!("k{}", (seed >> 20) % 90);
        let hint = match (seed >> 40) % 3 {
            0 => None,
            1 => Some(Hint { insert_after: None }),
            _ => Some(Hint { insert_after: Some(hint_target) }),
        };
        let code = format!("k{}", who);
        let change = lb.upsert(&code, totals[who], hint.as_ref());
        match change {
            Change::NotQualified => assert_eq!(lb.position_of(&code), None),
            Change::NewEntry { position }
            | Change::PositionUp { position }
            | Change::PositionDown { position }
            | Change::NoChange { position } => assert_eq!(lb.position_of(&code), Some(position)),
        }
        if step % 50 == 0 {
            assert_board_ok(&lb);
        }
    }
    assert_board_ok(&lb);
    assert_eq!(lb.len(), MAX_ENTRIES);
}
