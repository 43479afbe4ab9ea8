use workpool::dna::{match_at, parse_seq, subsequences, DNAIter, DnaSpec, SimpleDNAIter};

#[test]
fn pattern_parts_are_parsed() {
    let specs = parse_seq("A1-3,C1-2").unwrap();
    assert_eq!(
        specs,
        vec![
            DnaSpec { base: 'A', min: 1, max: 3 },
            DnaSpec { base: 'C', min: 1, max: 2 }
        ]
    );
    assert_eq!(parse_seq("G+2-4-9").unwrap(), vec![DnaSpec { base: 'G', min: 2, max: 4 }]);
}

#[test]
fn malformed_patterns_are_refused() {
    assert!(parse_seq("").is_none());
    assert!(parse_seq("A1").is_none());
    assert!(parse_seq("Ax-1").is_none());
    assert!(parse_seq("A1-2,").is_none());
}

#[test]
fn match_at_takes_at_most_max_repeats() {
    let s: Vec<char> = "AAACCCG".chars().collect();
    let specs = parse_seq("A1-2,C1-5").unwrap();
    assert_eq!(match_at(&s, 0, &specs), None);
    assert_eq!(match_at(&s, 1, &specs), Some(6));
    assert_eq!(match_at(&s, 6, &specs), None);
}

#[test]
fn subsequences_of_first_demo() {
    let found = subsequences("AACGGTAACC", "A1-1,C2-4");
    assert_eq!(found, vec![(7, "ACC".to_string())]);
    assert!(subsequences("AACGGTAACC", "A1").is_empty());
}

#[test]
fn simple_iterator_finds_every_start() {
    let mut it = SimpleDNAIter::new("ACGTACGTACGTACGT", "A1-1,C1-1");
    let mut found = Vec::new();
    while let Some((pos, sub)) = it.next() {
        found.push((pos, sub.to_string()));
    }
    assert_eq!(
        found,
        vec![
            (0, "AC".to_string()),
            (4, "AC".to_string()),
            (8, "AC".to_string()),
            (12, "AC".to_string())
        ]
    );
    assert_eq!(it.next(), None);
}

#[test]
fn iterator_matches_overlap_from_next_position() {
    let mut it = DNAIter::new("ACGTACGTAAACCCGTACGT", "A1-3,C1-2");
    let mut long = Vec::new();
    while let Some((pos, sub)) = it.next() {
        if sub.len() >= 4 {
            long.push((pos, sub));
        }
    }
    assert_eq!(long, vec![(8, "AAACC"), (9, "AACC")]);
}
