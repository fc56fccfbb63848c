use std::cmp::Ordering;

use rankedpairs::dfs::{Neighboring, DFS};
use rankedpairs::graph::Graph;
use rankedpairs::matchup::Matchup;
use rankedpairs::matchup_result::MatchupResult;
use rankedpairs::ranked_pairs::StrengthType;
use rankedpairs::settled_matchup;
use rankedpairs::table::{Pair, Table, TableEntry};

#[test]
fn pair_order_does_not_matter() {
    let mut t: Table<u32> = Table::new();
    assert_eq!(t.insert(7, 3, 10), None);
    assert!(t.contains(3, 7));
    assert!(t.contains(7, 3));
    *t.get_mut(3, 7).unwrap() += 1;
    assert_eq!(*t.get_mut(7, 3).unwrap(), 11);
    assert_eq!(t.insert(3, 7, 20), Some(11));
    assert!(t.get_mut(1, 2).is_none());
    let mut values = t.values();
    assert_eq!(values.next(), Some(&20));
    assert_eq!(values.next(), None);
}

#[test]
fn pair_is_canonical() {
    let p = Pair::new(9, 4);
    assert_eq!((p.row(), p.column()), (4, 9));
}

#[test]
fn entry_inserts_once() {
    let mut t: Table<u32> = Table::new();
    let e = t.entry(2, 1);
    assert!(matches!(e, TableEntry::Vacant(_)));
    *e.or_insert(&mut t, 5) += 1;
    let e = t.entry(1, 2);
    assert!(matches!(e, TableEntry::Occupied(_)));
    assert_eq!(*e.or_insert(&mut t, 100), 6);
    t.insert(4, 0, 1);
    let mut values = t.values();
    assert_eq!(values.next(), Some(&6));
    assert_eq!(values.next(), Some(&1));
    assert_eq!(values.next(), None);
}

#[test]
fn matchup_wins_and_result() {
    let mut m = Matchup::new(0, 1);
    assert!(m.add_win_for(1).is_ok());
    assert!(m.add_win_for(1).is_ok());
    assert!(m.add_win_for(0).is_ok());
    assert_eq!((m.wins_of_first(), m.wins_of_second()), (1, 2));
    match m.add_win_for(5) {
        Ok(()) => panic!("a stranger was credited"),
        Err(e) => assert_eq!(e.description(), "Winner wasn't in matchup"),
    }
    let r = m.result(true);
    assert_eq!((r.winner_candidate(), r.loser_candidate()), (1, 0));
    assert_eq!((r.wins_count(), r.loses_count()), (2, 1));
}

#[test]
fn results_compare_by_strength() {
    let a = MatchupResult::new(0, 1, 10, 8, true);
    let b = MatchupResult::new(2, 3, 6, 1, true);
    assert_eq!(a.partial_cmp(&b), Some(Ordering::Less));
    let c = MatchupResult::new(0, 1, 10, 8, false);
    let d = MatchupResult::new(2, 3, 6, 1, false);
    assert_eq!(c.partial_cmp(&d), Some(Ordering::Greater));
    assert_eq!(c.partial_cmp(&c), Some(Ordering::Equal));
}

#[test]
fn locking_skips_cycles() {
    let mut g = Graph::new();
    assert!(MatchupResult::new(1, 0, 5, 1, true).try_lock_in(&mut g));
    assert!(MatchupResult::new(2, 1, 5, 1, true).try_lock_in(&mut g));
    assert!(!MatchupResult::new(0, 2, 5, 1, true).try_lock_in(&mut g));
    assert!(!g.is_path(&2, &0));
    assert_eq!(g.find_sink().ok(), Some(2));
}

#[test]
fn settled_matchup_locks_and_measures() {
    let m = settled_matchup::Matchup::new(4, 3, 5, 9);
    assert_eq!(m.margin(), 6);
    assert_eq!(m.winning_votes(), 9);
    let mut g = Graph::new();
    assert!(m.lock_in(&mut g));
    assert!(g.is_path(&4, &5));
    assert!(m.lock_in(&mut Graph::new()));
}

#[test]
fn depth_first_order() {
    let mut g = Graph::new();
    g.add_edge(0, 1);
    g.add_edge(0, 2);
    g.add_edge(1, 3);
    g.add_edge(2, 3);
    let mut dfs = DFS::new(0);
    let mut order = Vec::new();
    while let Some(n) = dfs.next(&g) {
        order.push(n);
    }
    assert_eq!(order, vec![0, 2, 3, 1]);
}

#[test]
fn one_sink_after_locking_every_pair() {
    let mut g = Graph::new();
    let results = [
        MatchupResult::new(2, 0, 9, 1, true),
        MatchupResult::new(0, 1, 8, 2, true),
        MatchupResult::new(1, 2, 7, 3, true),
        MatchupResult::new(3, 0, 6, 4, true),
        MatchupResult::new(3, 1, 6, 4, true),
        MatchupResult::new(2, 3, 6, 5, true),
    ];
    for r in results.iter() {
        r.try_lock_in(&mut g);
    }
    let mut sinks = Vec::new();
    for n in 0..4usize {
        if g.get_neighbors(n).is_empty() {
            sinks.push(n);
        }
    }
    assert_eq!(sinks, vec![2]);
    assert_eq!(g.find_sink().ok(), Some(2));
    assert_eq!(g.sources(), &[0, 1, 3]);
}

#[test]
fn strength_type_converts_to_bool() {
    use_bool(&StrengthType::Margin, true);
    use_bool(&StrengthType::WinningVotes, false);
}

fn use_bool(s: &StrengthType, expected: bool) {
    assert_eq!(bool::from(s), expected);
    assert_eq!(s.use_margin(), expected);
}
