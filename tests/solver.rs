use sudoku::geometry::{get_all_group_indices, get_rcb_indices};
use sudoku::puzzle::{FormatError, Puzzle};
use sudoku::solver::{find_solution, solve, solve_logically, solve_puzzle_by_string};
use sudoku::tech::{HiddenSingle, SingleCandidate, Technique};

const CLASSIC: &str =
    "530070000600195000098000060800060003400803001700020006060000280000419005000080079";
const CLASSIC_SOLVED: &str =
    "534678912672195348198342567859761423426853791713924856961537284287419635345286179";

fn grid_of(p: &Puzzle) -> Vec<Vec<usize>> {
    (0..9).map(|y| (0..9).map(|x| p.value_at(x, y)).collect()).collect()
}

fn is_permutation(mut v: Vec<usize>) -> bool {
    v.sort();
    v == (1..=9).collect::<Vec<usize>>()
}

fn check_full_grid(g: &[Vec<usize>]) {
    for y in 0..9 {
        assert!(is_permutation(g[y].clone()));
    }
    for x in 0..9 {
        assert!(is_permutation((0..9).map(|y| g[y][x]).collect()));
    }
    for b in 0..9 {
        let (bx, by) = ((b % 3) * 3, (b / 3) * 3);
        let cells = (0..9).map(|i| g[by + i / 3][bx + i % 3]).collect();
        assert!(is_permutation(cells));
    }
}

#[test]
fn classic_puzzle_is_solved() {
    let p = Puzzle::from_string(CLASSIC).unwrap();
    assert!(solve(p));
    let p = Puzzle::from_string(CLASSIC).unwrap();
    let s = find_solution(p).expect("a solution");
    assert!(s.is_solved());
    assert!(s.validate_solution());
    let g = grid_of(&s);
    check_full_grid(&g);
    let expected = Puzzle::from_string(CLASSIC_SOLVED).unwrap();
    assert_eq!(g, grid_of(&expected));
}

#[test]
fn solve_by_string_reports_success() {
    assert!(solve_puzzle_by_string(CLASSIC));
}

#[test]
fn hard_puzzle_needs_search_and_is_solved() {
    let hard = "800000000003600000070090200050007000000045700000100030001000068008500010090000400";
    let s = find_solution(Puzzle::from_string(hard).unwrap()).expect("a solution");
    check_full_grid(&grid_of(&s));
    let original = Puzzle::from_string(hard).unwrap();
    for y in 0..9 {
        for x in 0..9 {
            if original.value_at(x, y) != 0 {
                assert_eq!(original.value_at(x, y), s.value_at(x, y));
            }
        }
    }
}

#[test]
fn duplicate_in_row_is_unsolvable() {
    // the classic puzzle with a second 5 in its first row
    let bad = "535070000600195000098000060800060003400803001700020006060000280000419005000080079";
    let p = Puzzle::from_string(bad).unwrap();
    let third_blank = p.candidates_at(3, 0);
    assert!(!third_blank.contains(&5));
    assert!(!solve(p));
    assert!(!solve_puzzle_by_string(bad));
}

#[test]
fn two_fives_in_a_row_leave_no_five_for_other_cells_of_the_row() {
    let mut s = String::from("55");
    s.push_str(&"0".repeat(79));
    let p = Puzzle::from_string(&s).unwrap();
    for x in 2..9 {
        assert!(!p.candidates_at(x, 0).contains(&5));
    }
}

#[test]
fn wrong_length_is_a_format_error() {
    assert!(matches!(Puzzle::from_string("123"), Err(FormatError::WrongLength)));
    assert!(matches!(Puzzle::from_string(""), Err(FormatError::WrongLength)));
    let long = format!("{}0", CLASSIC);
    assert!(matches!(Puzzle::from_string(&long), Err(FormatError::WrongLength)));
    assert!(!solve_puzzle_by_string("123"));
}

#[test]
fn non_digit_is_a_format_error() {
    let bad = CLASSIC.replacen('7', "x", 1);
    assert!(matches!(Puzzle::from_string(&bad), Err(FormatError::NotADigit)));
    let dots = CLASSIC.replace('0', ".");
    assert!(matches!(Puzzle::from_string(&dots), Err(FormatError::NotADigit)));
    assert!(!solve_puzzle_by_string(&bad));
}

#[test]
fn initial_candidates_exclude_peer_digits() {
    let p = Puzzle::from_string(CLASSIC).unwrap();
    // cell (2, 0): row 0 holds 5 3 7, column 2 holds 8, box 0 holds 5 3 6 9 8
    assert_eq!(p.candidates_at(2, 0), vec![1, 2, 4]);
    // a filled cell has none
    assert_eq!(p.candidates_at(0, 0), Vec::<usize>::new());
    for y in 0..9 {
        for x in 0..9 {
            if p.value_at(x, y) != 0 {
                continue;
            }
            let peers = get_rcb_indices(x, y);
            let mut expected: Vec<usize> = (1..=9)
                .filter(|d| !peers.iter().any(|&(i, j)| p.value_at(i, j) == *d))
                .collect();
            expected.sort();
            assert_eq!(p.candidates_at(x, y), expected);
        }
    }
}

#[test]
fn empty_grid_has_all_candidates() {
    let p = Puzzle::from_string(&"0".repeat(81)).unwrap();
    assert_eq!(p.candidates_at(4, 4), (1..=9).collect::<Vec<usize>>());
    assert!(!p.is_solved());
    assert!(!p.is_impossible());
    assert_eq!(p.find_cell_with_fewest_candidates(), (0, 0));
}

#[test]
fn logic_on_solved_grid_changes_nothing() {
    let mut p = Puzzle::from_string(CLASSIC_SOLVED).unwrap();
    let before = grid_of(&p);
    assert!(solve_logically(&mut p));
    assert_eq!(grid_of(&p), before);
}

#[test]
fn logic_alone_solves_classic() {
    let mut p = Puzzle::from_string(CLASSIC).unwrap();
    assert!(solve_logically(&mut p));
    assert!(p.is_solved());
}

#[test]
fn copy_is_independent() {
    let original = Puzzle::from_string(CLASSIC).unwrap();
    let mut copy = original.copy();
    assert_eq!(grid_of(&copy), grid_of(&original));
    copy.assign_value_to_cell(4, 2, 0);
    assert_eq!(copy.value_at(2, 0), 4);
    assert_eq!(original.value_at(2, 0), 0);
    assert_eq!(original.candidates_at(2, 0), vec![1, 2, 4]);
    assert_eq!(original.candidates_at(3, 0), vec![2, 6]);
    assert_eq!(copy.candidates_at(2, 0), Vec::<usize>::new());
}

#[test]
fn assign_strikes_the_digit_from_peers_only() {
    let mut p = Puzzle::from_string(&"0".repeat(81)).unwrap();
    p.assign_value_to_cell(7, 4, 4);
    assert_eq!(p.value_at(4, 4), 7);
    assert!(p.candidates_at(4, 4).is_empty());
    assert!(!p.candidates_at(0, 4).contains(&7));
    assert!(!p.candidates_at(4, 0).contains(&7));
    assert!(!p.candidates_at(3, 3).contains(&7));
    assert!(p.candidates_at(0, 0).contains(&7));
    assert_eq!(p.candidates_at(0, 0).len(), 9);
}

#[test]
fn solved_and_impossible_flags() {
    let p = Puzzle::from_string(CLASSIC_SOLVED).unwrap();
    assert!(p.is_solved());
    assert!(!p.is_impossible());
    assert!(p.validate_solution());
    let q = Puzzle::from_string(CLASSIC).unwrap();
    assert!(!q.is_solved());
    assert!(!q.validate_solution());
}

#[test]
fn invalid_full_grid_fails_validation() {
    // swap two digits of a row: rows stay permutations, columns do not
    let mut s: Vec<char> = CLASSIC_SOLVED.chars().collect();
    s.swap(0, 1);
    let s: String = s.into_iter().collect();
    let p = Puzzle::from_string(&s).unwrap();
    assert!(p.is_solved());
    assert!(!p.validate_solution());
}

#[test]
fn impossible_when_a_cell_has_no_candidate() {
    // cell (8, 0) sees 1..=8 in its row and 9 in its column
    let s = format!("12345678000000000900000000{}", "0".repeat(55));
    let p = Puzzle::from_string(&s).unwrap();
    assert!(p.candidates_at(8, 0).is_empty());
    assert!(p.is_impossible());
    assert!(!solve(p));
}

#[test]
fn fewest_candidates_prefers_first_cell_with_two() {
    let p = Puzzle::from_string(CLASSIC).unwrap();
    // (3, 0) is the first cell with exactly two candidates
    assert_eq!(p.candidates_at(2, 0).len(), 3);
    assert_eq!(p.find_cell_with_fewest_candidates(), (3, 0));
}

#[test]
fn fewest_candidates_takes_the_first_minimum() {
    // row 0 holds 1..=7: its two empty cells have the candidates 8 and 9
    let s = format!("1234567{}", "0".repeat(74));
    let p = Puzzle::from_string(&s).unwrap();
    assert_eq!(p.candidates_at(7, 0), vec![8, 9]);
    assert_eq!(p.find_cell_with_fewest_candidates(), (7, 0));
    // a single candidate wins over more
    let s = format!("12345678{}", "0".repeat(73));
    let p = Puzzle::from_string(&s).unwrap();
    assert_eq!(p.find_cell_with_fewest_candidates(), (8, 0));
}

#[test]
fn groups_are_27_sets_of_9() {
    let groups = get_all_group_indices();
    assert_eq!(groups.len(), 27);
    for g in &groups {
        assert_eq!(g.len(), 9);
    }
    for kind in 0..3 {
        let mut seen = vec![0usize; 81];
        for g in &groups[kind * 9..kind * 9 + 9] {
            for &(x, y) in g.iter() {
                seen[y * 9 + x] += 1;
            }
        }
        assert!(seen.iter().all(|&n| n == 1));
    }
    assert!(groups[0].contains(&(5, 0)));
    assert!(groups[9].contains(&(0, 5)));
    assert!(groups[18 + 4].contains(&(4, 4)));
    assert!(groups[18 + 1].contains(&(5, 2)));
    assert_eq!(get_all_group_indices(), groups);
}

#[test]
fn peer_sets_are_stable() {
    let a = get_rcb_indices(4, 7);
    assert_eq!(a.len(), 21);
    assert!(a.contains(&(4, 7)));
    assert!(a.contains(&(0, 7)));
    assert!(a.contains(&(4, 0)));
    assert!(a.contains(&(5, 6)));
    assert!(!a.contains(&(0, 0)));
    assert_eq!(get_rcb_indices(4, 7), a);
}

#[test]
fn naked_single_fills_lone_candidates() {
    let s = format!("12345678{}", "0".repeat(73));
    let mut p = Puzzle::from_string(&s).unwrap();
    assert!(SingleCandidate.apply(&mut p));
    assert_eq!(p.value_at(8, 0), 9);
    assert_eq!(SingleCandidate.get_name(), "SingleCandidate");
    let mut empty = Puzzle::from_string(&"0".repeat(81)).unwrap();
    assert!(!SingleCandidate.apply(&mut empty));
}

#[test]
fn hidden_single_fills_the_only_place() {
    // 1 sits in rows 1 and 2 and in columns 1 and 2 outside box 0: in box 0
    // only cell (0, 0) can take it
    let mut g = vec!['0'; 81];
    g[9 + 4] = '1';
    g[18 + 7] = '1';
    g[4 * 9 + 1] = '1';
    g[7 * 9 + 2] = '1';
    let s: String = g.into_iter().collect();
    let mut p = Puzzle::from_string(&s).unwrap();
    assert!(HiddenSingle.apply(&mut p));
    assert_eq!(p.value_at(0, 0), 1);
    assert_eq!(HiddenSingle.get_name(), "HiddenSingle");
    let mut empty = Puzzle::from_string(&"0".repeat(81)).unwrap();
    assert!(!HiddenSingle.apply(&mut empty));
}

#[test]
fn candidates_counter_counts_each_digit() {
    let p = Puzzle::from_string(CLASSIC).unwrap();
    let groups = get_all_group_indices();
    let counter = p.get_candidates_counter(&groups[0]);
    // row 0: empty cells (2,0) {1,2,4}, (3,0) {2,6}, (5,0) {2,4,6,8},
    // (6,0) {1,4,8,9}, (7,0) {1,2,4,9}, (8,0) {2,4,8}
    assert_eq!(counter[&2], 5);
    assert_eq!(counter[&4], 5);
    assert_eq!(counter[&1], 3);
    assert_eq!(counter[&9], 2);
    assert_eq!(counter[&5], 0);
    let cells = p.get_candidates_indices_by_value(9, &groups[0]);
    assert_eq!(cells.len(), 2);
    assert!(cells.contains(&(6, 0)));
    assert!(cells.contains(&(7, 0)));
}

#[test]
fn batch_counts_unsolved_lines() {
    let bad = "535070000600195000098000060800060003400803001700020006060000280000419005000080079";
    let lines = vec![CLASSIC, bad, CLASSIC_SOLVED, "12", bad];
    let total = lines.len();
    let unsolved = lines.iter().filter(|l| !solve_puzzle_by_string(l)).count();
    assert_eq!(total, 5);
    assert_eq!(unsolved, 3);
}
