use acmatch::{Automation, AutomationDump};

fn pat(s: &str) -> Vec<char> {
    s.chars().collect()
}

/// Every (end position, pattern id) pair a naive substring scan finds.
fn brute_force(patterns: &[Vec<char>], text: &[char]) -> Vec<(usize, usize)> {
    let mut found = Vec::new();
    for (id, p) in patterns.iter().enumerate() {
        if p.is_empty() {
            continue;
        }
        for end in 0..text.len() {
            if end + 1 >= p.len() {
                let start = end + 1 - p.len();
                if &text[start..=end] == p.as_slice() {
                    found.push((end, id));
                }
            }
        }
    }
    found.sort();
    found
}

fn automaton_matches(patterns: &[Vec<char>], text: &[char]) -> Vec<(usize, usize)> {
    let automation = Automation::build(&patterns.to_vec());
    let mut cursor = automation.search();
    let mut found = Vec::new();
    for (pos, &c) in text.iter().enumerate() {
        for id in cursor.next(c) {
            found.push((pos, id));
        }
    }
    found.sort();
    found
}

#[test]
fn scenario_overlapping_patterns() {
    let patterns = vec![pat("CAN"), pat("AN"), pat("A"), pat("she"), pat("he"), pat("hers")];
    let text: Vec<char> = "he and she CAN CAR an herb".chars().collect();
    let got = automaton_matches(&patterns, &text);
    let want = brute_force(&patterns, &text);
    assert_eq!(got, want);
    // "he" (id 4) ends at index 1
    assert!(got.contains(&(1, 4)));
    // inside "she" both "she" (3) and its suffix "he" (4) end at index 9
    assert!(got.contains(&(9, 3)));
    assert!(got.contains(&(9, 4)));
    // "CAN" (0), "AN" (1) and "A" (2) all end at index 13
    assert!(got.contains(&(13, 0)));
    assert!(got.contains(&(13, 1)));
    assert!(got.contains(&(12, 2)));
}

#[test]
fn empty_pattern_collection_never_matches() {
    let patterns: Vec<Vec<char>> = Vec::new();
    let automation = Automation::build(&patterns);
    let mut cursor = automation.search();
    for c in "any input at all".chars() {
        assert!(cursor.next(c).is_empty());
    }
}

#[test]
fn duplicate_pattern_reports_two_identities() {
    let patterns = vec![pat("A"), pat("A")];
    let automation = Automation::build(&patterns);
    let mut cursor = automation.search();
    assert!(cursor.next('x').is_empty());
    let hits = cursor.next('A');
    assert_eq!(hits, vec![0, 1]);
}

#[test]
fn identical_streams_give_identical_outputs() {
    let patterns = vec![pat("ab"), pat("b"), pat("aba")];
    let automation = Automation::build(&patterns);
    let mut c1 = automation.search();
    let mut c2 = automation.search();
    for c in "abababbbabab".chars() {
        assert_eq!(c1.next(c), c2.next(c));
    }
}

#[test]
fn empty_pattern_reports_everywhere() {
    let patterns = vec![pat(""), pat("a")];
    let automation = Automation::build(&patterns);
    let mut cursor = automation.search();
    let h1 = cursor.next('x');
    assert_eq!(h1, vec![0]);
    let h2 = cursor.next('a');
    assert_eq!(h2, vec![1, 0]);
}

#[test]
fn brute_force_round_trip_randomized() {
    // a fixed linear congruential generator keeps the cases reproducible
    let mut state: u64 = 0x2545F4914F6CDD1D;
    let mut rand = move || {
        state = state.wrapping_mul(6364136223846793005).wrapping_add(1442695040888963407);
        (state >> 33) as usize
    };
    let alphabet = ['a', 'b', 'c'];
    for _ in 0..30 {
        let n_pats = 1 + rand() % 5;
        let mut patterns = Vec::new();
        for _ in 0..n_pats {
            let len = 1 + rand() % 4;
            let p: Vec<char> = (0..len).map(|_| alphabet[rand() % 3]).collect();
            patterns.push(p);
        }
        let text_len = rand() % 40;
        let text: Vec<char> = (0..text_len).map(|_| alphabet[rand() % 3]).collect();
        assert_eq!(automaton_matches(&patterns, &text), brute_force(&patterns, &text));
    }
}

#[test]
fn long_stream_stays_total() {
    let patterns = vec![pat("abc"), pat("bca"), pat("cab")];
    let automation = Automation::build(&patterns);
    let mut cursor = automation.search();
    let mut total = 0;
    for i in 0..3000usize {
        let c = ['a', 'b', 'c', 'z'][i % 4];
        total += cursor.next(c).len();
    }
    // "abc" completes once per four-symbol cycle; nothing else ever matches
    assert_eq!(total, 750);
    for c in "abca".chars() {
        cursor.next(c);
    }
}

#[test]
fn dump_reports_every_node_and_pattern() {
    let patterns = vec![pat("he"), pat("she")];
    let automation = Automation::build(&patterns);
    let d: AutomationDump = automation.dump();
    // root + h,e + s,sh,she
    assert_eq!(d.nodes.len(), 6);
    assert_eq!(d.outputs.len(), 2);
    assert_eq!(d.outputs[0], pat("he"));
    assert_eq!(d.outputs[1], pat("she"));
    // one goto edge per non-root node, one failure edge per node
    assert_eq!(d.edges.len(), 5 + 6);
    let with_outputs: usize = d.nodes.iter().filter(|n| !n.outputs.is_empty()).count();
    // "he" ends at one node, "she" at another (which also inherits "he")
    assert_eq!(with_outputs, 2);
}

#[test]
fn own_match_precedes_inherited_match() {
    // inside "she", the own match "she" (3) is reported before the
    // inherited suffix match "he" (4)
    let patterns = vec![pat("CAN"), pat("AN"), pat("A"), pat("she"), pat("he"), pat("hers")];
    let automation = Automation::build(&patterns);
    let mut cursor = automation.search();
    cursor.next('s');
    cursor.next('h');
    assert_eq!(cursor.next('e'), vec![3, 4]);
}
