use rankedpairs::election::{Election, ElectionParseError};
use rankedpairs::graph::Graph;
use rankedpairs::ranked_pairs::{RankedPairs, StrengthType};
use rankedpairs::sum_matrix::SumMatrix;

fn election_of(data: &str) -> Election {
    let mut election = Election::new();
    election.add_ballots(data).unwrap();
    election
}

fn winner_of(data: &str, strength: StrengthType) -> String {
    let election = election_of(data);
    let ranked_pairs = RankedPairs::with_election(&election, strength);
    match ranked_pairs.get_winner() {
        Ok(winner) => winner,
        Err(e) => panic!("Error: {}", e.description()),
    }
}

#[test]
fn test_one() {
    let mut election = Election::new();

    election
        .add_ballots(
            "
        42:Memphis>Nashville>Chattanooga>Knoxville
        26:Nashville>Chattanooga>Knoxville>Memphis
        15:Chattanooga>Knoxville>Nashville>Memphis
        17:Knoxville>Chattanooga>Nashville>Memphis",
        )
        .unwrap();

    let ranked_pairs = RankedPairs::with_election(&election, StrengthType::Margin);

    match ranked_pairs.get_winner() {
        Ok(winner) => assert_eq!(winner, "Nashville", "Result ({}) != Nashville", winner),
        Err(e) => panic!("Error: {}", e.description()),
    }
}

#[test]
fn test_two() {
    let mut election = Election::new();

    election
        .add_ballots(
            "
        5:A>C>B>E>D
        5:A>D>E>C>B
        8:B>E>D>A>C
        3:C>A>B>E>D
        7:C>A>E>B>D
        2:C>B>A>D>E
        7:D>C>E>B>A
        8:E>B>A>D>C",
        )
        .unwrap();

    let ranked_pairs = RankedPairs::with_election(&election, StrengthType::Margin);

    match ranked_pairs.get_winner() {
        Ok(winner) => assert_eq!(winner, "A", "Result ({}) != A", winner),
        Err(e) => panic!("Error: {}", e.description()),
    }
}

#[test]
fn test_three() {
    let mut election = Election::new();

    election
        .add_ballots(
            "
        35:B>C>S
        34:C>S>B
        31:S>B>C",
        )
        .unwrap();

    let ranked_pairs = RankedPairs::with_election(&election, StrengthType::Margin);

    match ranked_pairs.get_winner() {
        Ok(winner) => assert_eq!(winner, "B", "Result ({}) != B", winner),
        Err(e) => panic!("Error: {}", e.description()),
    }
}

#[test]
fn four_candidates_by_margin() {
    let data = "42:M>N>C>K\n26:N>C>K>M\n15:C>K>N>M\n17:K>C>N>M";
    assert_eq!(winner_of(data, StrengthType::Margin), "N");
}

#[test]
fn cycle_is_broken_by_winning_votes_too() {
    let data = "35:B>C>S\n34:C>S>B\n31:S>B>C";
    assert_eq!(winner_of(data, StrengthType::WinningVotes), "B");
}

#[test]
fn repeated_runs_agree() {
    let data = "5:A>C>B>E>D\n5:A>D>E>C>B\n8:B>E>D>A>C\n3:C>A>B>E>D\n7:C>A>E>B>D\n2:C>B>A>D>E\n7:D>C>E>B>A\n8:E>B>A>D>C";
    let election = election_of(data);
    let first = RankedPairs::with_election(&election, StrengthType::Margin);
    let second = RankedPairs::with_election(&election, StrengthType::Margin);
    let a = first.get_winner().ok().unwrap();
    let b = first.get_winner().ok().unwrap();
    let c = second.get_winner().ok().unwrap();
    assert_eq!(a, b);
    assert_eq!(a, c);
}

#[test]
fn no_ballots_fail() {
    let election = Election::new();
    let ranked_pairs = RankedPairs::with_election(&election, StrengthType::Margin);
    match ranked_pairs.get_winner() {
        Ok(w) => panic!("unexpected winner {}", w),
        Err(e) => assert_eq!(e.description(), "Graph was empty"),
    }
}

#[test]
fn all_tied_ballot_gives_no_matchup() {
    let mut election = Election::new();
    election.add_vote("A=B=C");
    let matrix = SumMatrix::new(&election);
    let mut matchups = matrix.matchups();
    assert!(matchups.next().is_none());
    let ranked_pairs = RankedPairs::with_election(&election, StrengthType::Margin);
    assert!(ranked_pairs.get_winner().is_err());
}

#[test]
fn tally_counts_wins_and_skips_ties() {
    let mut election = Election::new();
    election.add_vote("C>B=A");
    election.add_vote("B>C");
    let matrix = SumMatrix::new(&election);
    assert_eq!(matrix.name_of(0), "A");
    assert_eq!(matrix.name_of(1), "B");
    assert_eq!(matrix.name_of(2), "C");
    let mut matchups = matrix.matchups();
    let mut seen = Vec::new();
    while let Some(m) = matchups.next() {
        seen.push((
            m.first_candidate(),
            m.second_candidate(),
            m.wins_of_first(),
            m.wins_of_second(),
        ));
    }
    assert_eq!(seen, vec![(1, 2, 1, 1), (0, 2, 0, 1)]);
}

#[test]
fn equal_counts_go_to_the_later_name() {
    let data = "1:A>B\n1:B>A";
    assert_eq!(winner_of(data, StrengthType::Margin), "B");
}

#[test]
fn vote_text_is_split_into_groups() {
    let mut election = Election::new();
    election.add_vote("A>B=C>D");
    let votes = election.votes();
    assert_eq!(votes.len(), 1);
    let expected: Vec<Vec<String>> = vec![
        vec!["A".to_string()],
        vec!["B".to_string(), "C".to_string()],
        vec!["D".to_string()],
    ];
    assert_eq!(votes[0], expected);
}

#[test]
fn batch_counts_copies_and_trims() {
    let mut election = Election::new();
    election.add_ballots("  \n +2:X>Y \r\n 1:Y>X\t\n").unwrap();
    let votes = election.votes();
    assert_eq!(votes.len(), 3);
    assert_eq!(votes[0], vec![vec!["X".to_string()], vec!["Y".to_string()]]);
    assert_eq!(votes[1], votes[0]);
    assert_eq!(votes[2], vec![vec!["Y".to_string()], vec!["X".to_string()]]);
}

#[test]
fn blank_batch_adds_nothing() {
    let mut election = Election::new();
    assert!(election.add_ballots("  \n\t ").is_ok());
    assert_eq!(election.votes().len(), 0);
}

#[test]
fn batch_errors() {
    let mut election = Election::new();
    assert!(matches!(election.add_ballots(":A>B"), Err(ElectionParseError::NoAmountError)));
    assert!(matches!(election.add_ballots("5"), Err(ElectionParseError::NoVoteError)));
    assert!(matches!(election.add_ballots("1:A:B"), Err(ElectionParseError::ExcessDataError)));
    assert!(matches!(election.add_ballots("x:A>B"), Err(ElectionParseError::AmountParseError(_))));
    assert!(matches!(
        election.add_ballots("4294967296:A>B"),
        Err(ElectionParseError::AmountParseError(_))
    ));
    assert_eq!(election.votes().len(), 0);
}

#[test]
fn lines_before_a_bad_line_stay() {
    let mut election = Election::new();
    let r = election.add_ballots("2:A>B\n3:B>A\noops");
    assert!(matches!(r, Err(ElectionParseError::NoVoteError)));
    assert_eq!(election.votes().len(), 5);
}

#[test]
fn error_descriptions() {
    assert_eq!(ElectionParseError::NoAmountError.description(), "could not find amount");
    assert_eq!(ElectionParseError::NoVoteError.description(), "could not find vote");
    assert_eq!(ElectionParseError::ExcessDataError.description(), "too many sections");
}

#[test]
fn graph_paths_and_sink() {
    let mut g = Graph::new();
    assert!(g.find_sink().is_err());
    g.add_edge(0, 1);
    g.add_edge(1, 2);
    g.add_edge(0, 3);
    assert!(g.is_path(&0, &2));
    assert!(g.is_path(&2, &2));
    assert!(!g.is_path(&2, &0));
    assert!(!g.is_path(&3, &1));
    assert_eq!(g.find_sink().ok(), Some(2));
}

#[test]
fn counter_bound_check() {
    let small = election_of("3:A>B>C\n2:C>A");
    assert!(small.counts_fit());
    let mut wide = Election::new();
    let distinct: Vec<String> = (0..3000).map(|i| format!("c{}", i)).collect();
    wide.add_vote(&distinct.join(">"));
    wide.add_vote("x=x>x");
    assert!(wide.counts_fit());
}

#[test]
fn equal_strengths_rank_by_pair() {
    assert_eq!(winner_of("1:A>B>C\n1:B>C>A\n1:C>A>B", StrengthType::Margin), "C");
}

#[test]
fn ballot_order_does_not_change_winner() {
    assert_eq!(winner_of("1:B>C>A\n1:C>A>B\n1:A>B>C", StrengthType::Margin), "C");
    assert_eq!(winner_of("1:B>A\n1:A>B", StrengthType::Margin), "B");
}

#[test]
fn unmet_pairs_leave_the_first_chain_sink() {
    assert_eq!(winner_of("1:A>B\n1:C>D", StrengthType::Margin), "A");
}
