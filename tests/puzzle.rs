use rand_seeder::{Seeder, SipRng};

use zebra_puzzle::corpus::{keep_name, keep_saint, keep_town};
use zebra_puzzle::csp::{domain_clues, enumerate_candidates, select_csp, select_from};
use zebra_puzzle::model::{Attribute, AttributeValue, Clue, PuzzleError, Value};
use zebra_puzzle::mst::select_mst;
use zebra_puzzle::oracle::{evaluate, position_of};
use zebra_puzzle::puzzle::{build_puzzle, select_mst_clues};
use zebra_puzzle::render::{day_heading, decimal_string, describe};
use zebra_puzzle::space::{get_attribute_values, get_attributes, get_solution};
use zebra_puzzle::universe::gen_possible_clues;

fn rng_from(seed: &str) -> SipRng {
    Seeder::from(seed).make_rng()
}

fn strings(items: &[&str]) -> Vec<String> {
    items.iter().map(|s| s.to_string()).collect()
}

fn toy_attributes() -> Vec<Attribute> {
    vec![
        Attribute::Pos,
        Attribute::Str("colour".to_string()),
        Attribute::Str("shape".to_string()),
    ]
}

fn toy_pools() -> Vec<Vec<String>> {
    vec![
        vec![],
        strings(&["red", "green", "blue"]),
        strings(&["circle", "square", "triangle"]),
    ]
}

fn monk_attributes() -> Vec<Attribute> {
    vec![
        Attribute::Pos,
        Attribute::Str("name".to_string()),
        Attribute::Str("town".to_string()),
    ]
}

fn monk_pools() -> Vec<Vec<String>> {
    vec![
        vec![],
        strings(&["Adso", "Jorge", "Malachi", "Severinus", "Berengar"]),
        strings(&["Melk", "Burgos", "Hildesheim", "Sankt Wendel", "Arundel"]),
    ]
}

/// The arena domains of a puzzle: block `a` holds indices `a*n .. a*n+n`.
fn domains_of(n_attributes: usize, n: usize) -> Vec<Vec<usize>> {
    (0..n_attributes).map(|a| (a * n..a * n + n).collect()).collect()
}

fn all_linked(n_nodes: usize, clues: &[Clue]) -> bool {
    let mut label: Vec<usize> = (0..n_nodes).collect();
    for c in clues {
        let (x, y) = match *c {
            Clue::Is(x, y) | Clue::Left(x, y) | Clue::Right(x, y) | Clue::Neighbour(x, y) => (x, y),
        };
        let (lx, ly) = (label[x], label[y]);
        for l in label.iter_mut() {
            if *l == ly {
                *l = lx;
            }
        }
    }
    label.iter().all(|&l| l == label[0])
}

#[test]
fn attributes_from_lines() {
    let lines = strings(&["POS", "name", "age", "pos"]);
    let attributes = get_attributes(&lines);
    assert_eq!(attributes.len(), 4);
    assert!(matches!(attributes[0], Attribute::Pos));
    assert!(matches!(&attributes[1], Attribute::Str(s) if s == "name"));
    assert!(matches!(&attributes[2], Attribute::Str(s) if s == "age"));
    assert!(matches!(&attributes[3], Attribute::Str(s) if s == "pos"));
}

#[test]
fn arena_layout() {
    let mut rng = rng_from("arena");
    let values = get_attribute_values(&toy_attributes(), &toy_pools(), 3, &mut rng).unwrap();
    assert_eq!(values.len(), 9);
    for k in 0..3 {
        assert!(matches!(values[k].value, Value::Pos(p) if p == k + 1));
    }
    for a in 0..3 {
        for k in 0..3 {
            assert_eq!(values[a * 3 + k].attribute, a);
        }
    }
    let mut colours: Vec<String> = (3..6)
        .map(|i| match &values[i].value {
            Value::Str(s) => s.clone(),
            Value::Pos(_) => panic!("categorical value expected"),
        })
        .collect();
    colours.sort();
    assert_eq!(colours, strings(&["blue", "green", "red"]));
}

#[test]
fn pool_too_small() {
    let mut rng = rng_from("small");
    let r = get_attribute_values(&toy_attributes(), &toy_pools(), 4, &mut rng);
    assert_eq!(r.err(), Some(PuzzleError::DomainTooSmall));
    let r = build_puzzle(&toy_attributes(), &toy_pools(), 4, &mut rng);
    assert_eq!(r.err(), Some(PuzzleError::DomainTooSmall));
}

#[test]
fn pools_are_shuffled() {
    let pool: Vec<String> = (0..20).map(|i| format!("v{}", i)).collect();
    let attributes = vec![Attribute::Pos, Attribute::Str("name".to_string())];
    let pools = vec![vec![], pool.clone()];
    let mut moved = false;
    for seed in ["a", "b", "c", "d"] {
        let mut rng = rng_from(seed);
        let values = get_attribute_values(&attributes, &pools, 20, &mut rng).unwrap();
        let taken: Vec<String> = (20..40)
            .map(|i| match &values[i].value {
                Value::Str(s) => s.clone(),
                Value::Pos(_) => panic!("categorical value expected"),
            })
            .collect();
        let mut sorted = taken.clone();
        sorted.sort();
        let mut expected = pool.clone();
        expected.sort();
        assert_eq!(sorted, expected);
        if taken != pool {
            moved = true;
        }
    }
    assert!(moved);
}

#[test]
fn solution_rows_permute_blocks() {
    let mut rng = rng_from("rows");
    let values = get_attribute_values(&monk_attributes(), &monk_pools(), 5, &mut rng).unwrap();
    let solution = get_solution(&values, 3, 5, &mut rng);
    assert_eq!(solution.len(), 3);
    assert_eq!(solution[0], vec![0, 1, 2, 3, 4]);
    for a in 0..3 {
        let mut row = solution[a].clone();
        row.sort();
        assert_eq!(row, (a * 5..a * 5 + 5).collect::<Vec<usize>>());
    }
}

#[test]
fn universe_exact_on_small_solution() {
    // two attributes, two entities: solution[0] = [0, 1], solution[1] = [3, 2]
    let solution = vec![vec![0, 1], vec![3, 2]];
    let clues = gen_possible_clues(&solution, 2, 2);
    let expected = vec![
        Clue::Is(0, 3),
        Clue::Is(1, 2),
        Clue::Is(3, 0),
        Clue::Right(2, 0),
        Clue::Is(2, 1),
        Clue::Left(3, 1),
        Clue::Right(2, 3),
        Clue::Left(3, 2),
    ];
    assert_eq!(clues, expected);
}

#[test]
fn universe_clues_hold() {
    let mut rng = rng_from("sound");
    let (values, solution) = build_puzzle(&monk_attributes(), &monk_pools(), 5, &mut rng).unwrap();
    let clues = gen_possible_clues(&solution, 3, 5);
    assert!(!clues.is_empty());
    for c in clues.iter() {
        assert_eq!(evaluate(&values, &solution, c), Ok(true));
    }
}

#[test]
fn universe_sides_stay_in_range() {
    let mut rng = rng_from("bounds");
    let (values, solution) = build_puzzle(&monk_attributes(), &monk_pools(), 5, &mut rng).unwrap();
    let clues = gen_possible_clues(&solution, 3, 5);
    let mut sides = 0;
    for c in clues.iter() {
        match *c {
            Clue::Left(x, y) => {
                let (px, py) = (position_of(&values, &solution, x).unwrap(), position_of(&values, &solution, y).unwrap());
                assert!(py >= 1 && py < 5 && px + 1 == py);
                sides += 1;
            }
            Clue::Right(x, y) => {
                let (px, py) = (position_of(&values, &solution, x).unwrap(), position_of(&values, &solution, y).unwrap());
                assert!(px < 5 && px == py + 1);
                sides += 1;
            }
            _ => {}
        }
    }
    // two categorical subjects, three partners, four neighbouring pairs, both sides
    assert_eq!(sides, 2 * 3 * 4 * 2);
}

#[test]
fn oracle_positions_and_errors() {
    let values = vec![
        AttributeValue { attribute: 0, value: Value::Pos(1) },
        AttributeValue { attribute: 0, value: Value::Pos(2) },
        AttributeValue { attribute: 1, value: Value::Str("red".to_string()) },
        AttributeValue { attribute: 1, value: Value::Str("blue".to_string()) },
    ];
    let cand = vec![vec![0, 1], vec![3, 2]];
    assert_eq!(position_of(&values, &cand, 0), Ok(0));
    assert_eq!(position_of(&values, &cand, 1), Ok(1));
    assert_eq!(position_of(&values, &cand, 2), Ok(1));
    assert_eq!(position_of(&values, &cand, 3), Ok(0));
    assert_eq!(position_of(&values, &cand, 4), Err(PuzzleError::ValueNotFound));
    assert_eq!(position_of(&values, &vec![vec![0, 1], vec![3]], 2), Err(PuzzleError::ValueNotFound));
    assert_eq!(evaluate(&values, &cand, &Clue::Is(2, 1)), Ok(true));
    assert_eq!(evaluate(&values, &cand, &Clue::Is(2, 0)), Ok(false));
    assert_eq!(evaluate(&values, &cand, &Clue::Left(3, 2)), Ok(true));
    // the first entity has no left neighbour
    assert_eq!(evaluate(&values, &cand, &Clue::Left(2, 3)), Ok(false));
    assert_eq!(evaluate(&values, &cand, &Clue::Right(2, 3)), Ok(true));
    assert_eq!(evaluate(&values, &cand, &Clue::Right(3, 2)), Ok(false));
    assert_eq!(evaluate(&values, &cand, &Clue::Neighbour(3, 2)), Ok(true));
    assert_eq!(evaluate(&values, &cand, &Clue::Neighbour(2, 3)), Ok(true));
    assert_eq!(evaluate(&values, &cand, &Clue::Neighbour(2, 1)), Ok(false));
    assert_eq!(evaluate(&values, &cand, &Clue::Is(2, 9)), Err(PuzzleError::ValueNotFound));
}

#[test]
fn oracle_repeatable() {
    let mut rng = rng_from("again");
    let (values, solution) = build_puzzle(&toy_attributes(), &toy_pools(), 3, &mut rng).unwrap();
    for c in domain_clues(&values).iter() {
        let first = evaluate(&values, &solution, c);
        let second = evaluate(&values, &solution, c);
        assert_eq!(first, second);
    }
}

#[test]
fn spanning_forest_skips_cycle() {
    let clues = vec![Clue::Is(0, 1), Clue::Left(1, 2), Clue::Right(0, 2), Clue::Is(3, 3)];
    let forest = select_mst(4, &clues);
    assert_eq!(forest, vec![Clue::Is(0, 1), Clue::Left(1, 2)]);
    assert_eq!(select_mst(3, &vec![]), vec![]);
}

#[test]
fn forest_size_is_nodes_less_one() {
    let mut rng = rng_from("forest");
    let (values, solution) = build_puzzle(&monk_attributes(), &monk_pools(), 5, &mut rng).unwrap();
    let clues = select_mst_clues(&values, &solution, 3, 5, &mut rng);
    assert_eq!(clues.len(), 3 * 5 - 1);
}

#[test]
fn forest_size_counts_components() {
    // nodes 0..5; edges link {0, 1, 2} and {3, 4}
    let clues = vec![Clue::Is(0, 1), Clue::Is(3, 4), Clue::Is(1, 2), Clue::Is(0, 2), Clue::Is(4, 3)];
    let forest = select_mst(5, &clues);
    assert_eq!(forest.len(), 5 - 2);
}

#[test]
fn forest_links_every_value() {
    let mut rng = rng_from("links");
    let (values, solution) = build_puzzle(&monk_attributes(), &monk_pools(), 5, &mut rng).unwrap();
    let clues = select_mst_clues(&values, &solution, 3, 5, &mut rng);
    assert!(all_linked(values.len(), &clues));
    for c in clues.iter() {
        assert_eq!(evaluate(&values, &solution, c), Ok(true));
    }
}

#[test]
fn candidate_space_of_toy() {
    let cands = enumerate_candidates(&domains_of(3, 3), 100).unwrap();
    assert_eq!(cands.len(), 36);
    for m in cands.iter() {
        assert_eq!(m[0], vec![0, 1, 2]);
    }
    let mut sorted = cands.clone();
    sorted.sort();
    sorted.dedup();
    assert_eq!(sorted.len(), 36);
}

#[test]
fn candidate_space_too_large() {
    assert_eq!(enumerate_candidates(&domains_of(3, 3), 35).err(), Some(PuzzleError::CandidateSpaceTooLarge));
    assert_eq!(enumerate_candidates(&domains_of(3, 3), 36).map(|c| c.len()), Ok(36));
    let mut rng = rng_from("large");
    let (values, _) = build_puzzle(&toy_attributes(), &toy_pools(), 3, &mut rng).unwrap();
    let r = select_csp(&values, &domains_of(3, 3), 10, &mut rng);
    assert_eq!(r.err(), Some(PuzzleError::CandidateSpaceTooLarge));
}

#[test]
fn no_unique_solution_when_clues_run_out() {
    let mut rng = rng_from("short");
    let (values, _) = build_puzzle(&toy_attributes(), &toy_pools(), 3, &mut rng).unwrap();
    let cands = enumerate_candidates(&domains_of(3, 3), 100).unwrap();
    assert_eq!(select_from(&values, cands.clone(), &vec![]).err(), Some(PuzzleError::NoUniqueSolution));
    // a single clue cannot tell 36 candidates apart
    assert_eq!(select_from(&values, cands, &vec![Clue::Is(3, 0)]).err(), Some(PuzzleError::NoUniqueSolution));
}

#[test]
fn greedy_skips_useless_clues() {
    let mut rng = rng_from("greedy");
    let (values, _) = build_puzzle(&toy_attributes(), &toy_pools(), 3, &mut rng).unwrap();
    let cands = enumerate_candidates(&domains_of(3, 3), 100).unwrap();
    // Is(3, 0) keeps 12 of 36; repeating it changes nothing; Is(3, 4) of one attribute holds nowhere
    let clues = vec![Clue::Is(3, 0), Clue::Is(3, 0), Clue::Is(3, 4)];
    assert_eq!(select_from(&values, cands, &clues).err(), Some(PuzzleError::NoUniqueSolution));
}

#[test]
fn toy_puzzle_has_one_survivor() {
    for seed in ["zebra", "one", "two", "three", "four", "five", "six", "seven"] {
        let mut rng = rng_from(seed);
        let (values, _) = build_puzzle(&toy_attributes(), &toy_pools(), 3, &mut rng).unwrap();
        let (survivors, accepted) = select_csp(&values, &domains_of(3, 3), 1000, &mut rng).unwrap();
        assert_eq!(survivors.len(), 1);
        assert!(!accepted.is_empty());
        let universe = domain_clues(&values);
        let space = enumerate_candidates(&domains_of(3, 3), 1000).unwrap();
        let replayed: Vec<&Vec<Vec<usize>>> = space
            .iter()
            .filter(|m| accepted.iter().all(|c| evaluate(&values, m, c) == Ok(true)))
            .collect();
        assert_eq!(replayed.len(), 1);
        assert_eq!(replayed[0], &survivors[0]);
        for c in accepted.iter() {
            assert!(universe.contains(c));
        }
    }
}

#[test]
fn domain_universe_of_toy() {
    let mut rng = rng_from("domain");
    let (values, _) = build_puzzle(&toy_attributes(), &toy_pools(), 3, &mut rng).unwrap();
    let clues = domain_clues(&values);
    // Is over ordered pairs of values of different attributes: 9 * 6
    // Left and Right with a categorical subject: 6 * 8 * 2
    assert_eq!(clues.len(), 54 + 96);
    assert_eq!(clues[0], Clue::Is(0, 3));
}

#[test]
fn same_seed_same_run() {
    let run = |seed: &str| {
        let mut rng = rng_from(seed);
        let (values, solution) = build_puzzle(&monk_attributes(), &monk_pools(), 5, &mut rng).unwrap();
        let universe = gen_possible_clues(&solution, 3, 5);
        let clues = select_mst_clues(&values, &solution, 3, 5, &mut rng);
        let texts: Vec<Option<String>> = values.iter().enumerate().map(|(i, _)| describe(&monk_attributes(), &values, i)).collect();
        (solution, universe, clues, texts)
    };
    assert_eq!(run("zebra"), run("zebra"));
    let csp = |seed: &str| {
        let mut rng = rng_from(seed);
        let (values, _) = build_puzzle(&toy_attributes(), &toy_pools(), 3, &mut rng).unwrap();
        select_csp(&values, &domains_of(3, 3), 1000, &mut rng).unwrap()
    };
    assert_eq!(csp("zebra"), csp("zebra"));
}

#[test]
fn decimal_digits() {
    assert_eq!(decimal_string(0), "0");
    assert_eq!(decimal_string(7), "7");
    assert_eq!(decimal_string(407), "407");
    assert_eq!(decimal_string(1000), "1000");
}

#[test]
fn value_wording() {
    let attributes = vec![
        Attribute::Pos,
        Attribute::Str("name".to_string()),
        Attribute::Str("age".to_string()),
        Attribute::Str("town".to_string()),
        Attribute::Str("saint".to_string()),
        Attribute::Str("colour".to_string()),
    ];
    let values = vec![
        AttributeValue { attribute: 0, value: Value::Pos(7) },
        AttributeValue { attribute: 1, value: Value::Str("Adso".to_string()) },
        AttributeValue { attribute: 2, value: Value::Str("80".to_string()) },
        AttributeValue { attribute: 3, value: Value::Str("Melk".to_string()) },
        AttributeValue { attribute: 4, value: Value::Str("Benedict".to_string()) },
        AttributeValue { attribute: 5, value: Value::Str("red".to_string()) },
        AttributeValue { attribute: 9, value: Value::Str("lost".to_string()) },
    ];
    assert_eq!(describe(&attributes, &values, 0).unwrap(), "the monk who occupies cell 7");
    assert_eq!(describe(&attributes, &values, 1).unwrap(), "Brother Adso");
    assert_eq!(describe(&attributes, &values, 2).unwrap(), "the monk who is 80 years of age");
    assert_eq!(describe(&attributes, &values, 3).unwrap(), "the monk who hails from Melk");
    assert_eq!(describe(&attributes, &values, 4).unwrap(), "the monk whose patron saint is Benedict");
    assert_eq!(describe(&attributes, &values, 5), None);
    assert_eq!(describe(&attributes, &values, 6), None);
    assert_eq!(describe(&attributes, &values, 7), None);

    let is = Clue::Is(1, 3);
    assert_eq!(is.to_string_with(&attributes, &values, "is actually").unwrap(), "Brother Adso is actually the monk who hails from Melk");
    let left = Clue::Left(1, 0);
    assert_eq!(left.to_string_with(&attributes, &values, "lives in").unwrap(), "Brother Adso lives in the cell to the left of the monk who occupies cell 7");
    let right = Clue::Right(3, 2);
    assert_eq!(right.to_string_with(&attributes, &values, "occupies").unwrap(), "the monk who hails from Melk occupies the cell to the right of the monk who is 80 years of age");
    assert_eq!(Clue::Is(1, 5).to_string_with(&attributes, &values, "is"), None);
}

#[test]
fn random_verb_is_offered() {
    let attributes = monk_attributes();
    let values = vec![
        AttributeValue { attribute: 1, value: Value::Str("Adso".to_string()) },
        AttributeValue { attribute: 2, value: Value::Str("Melk".to_string()) },
    ];
    let mut rng = rng_from("verbs");
    let is_verbs = ["is", "is actually", "is, in fact,", "is almost certainly", "is without a doubt"];
    let side_verbs = ["resides in", "occupies", "lives in"];
    for _ in 0..20 {
        let text = Clue::Is(0, 1).to_string(&attributes, &values, &mut rng).unwrap();
        assert!(is_verbs.iter().any(|v| text == format!("Brother Adso {} the monk who hails from Melk", v)));
        let text = Clue::Right(0, 1).to_string(&attributes, &values, &mut rng).unwrap();
        assert!(side_verbs.iter().any(|v| text == format!("Brother Adso {} the cell to the right of the monk who hails from Melk", v)));
    }
}

#[test]
fn day_numerals() {
    assert_eq!(day_heading(0, 3).as_deref(), Some("I"));
    assert_eq!(day_heading(1, 3), None);
    assert_eq!(day_heading(3, 3).as_deref(), Some("II"));
    assert_eq!(day_heading(12, 3).as_deref(), Some("V"));
    assert_eq!(day_heading(27, 3).as_deref(), Some("X"));
    assert_eq!(day_heading(3998, 1).as_deref(), Some("MMMCMXCIX"));
    assert_eq!(day_heading(3999, 1), None);
}

#[test]
fn corpus_filters() {
    assert!(keep_name("Adso"));
    assert!(keep_name("Ubertino"));
    assert!(!keep_name("Jean-Luc"));
    assert!(!keep_name("Anne Marie"));
    assert!(keep_name(""));
    assert!(keep_town("Saint Albans"));
    assert!(!keep_town("   "));
    assert!(!keep_town(""));
    assert!(!keep_town("York2"));
    assert!(keep_saint("Thomas Aquinas"));
    assert!(keep_saint(""));
    assert!(!keep_saint("Thomas (Aquinas)"));
}

#[test]
fn accepted_clues_irredundant() {
    for seed in ["zebra", "monk", "abbey"] {
        let mut rng = rng_from(seed);
        let (values, _) = build_puzzle(&toy_attributes(), &toy_pools(), 3, &mut rng).unwrap();
        let (_, accepted) = select_csp(&values, &domains_of(3, 3), 1000, &mut rng).unwrap();
        let space = enumerate_candidates(&domains_of(3, 3), 1000).unwrap();
        for k in 0..accepted.len() {
            let before: Vec<&Vec<Vec<usize>>> = space
                .iter()
                .filter(|m| accepted[..k].iter().all(|c| evaluate(&values, m, c) == Ok(true)))
                .collect();
            let after = before.iter().filter(|m| evaluate(&values, m, &accepted[k]) == Ok(true)).count();
            assert!(after > 0);
            assert!(after < before.len());
        }
    }
}
