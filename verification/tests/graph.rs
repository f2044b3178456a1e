use dobutsu_count::{build_reverse_csr, retrograde};
use dobutsu_count::rules::{generate_successors_canonical, initial_position};
use dobutsu_count::search::bfs_from_seeds;
use dobutsu_count::solve::{classify_terminals, count_status, solve_from_seeds};
use dobutsu_count::sorted::{index_of, sort_dedup};
use dobutsu_count::symmetry::canonical;
use dobutsu_count::encoding::set_sq;
use dobutsu_count::rules::is_terminal;
use dobutsu_count::{EdgeIdx, Pos, STATUS_LOSE, STATUS_UNKNOWN, STATUS_WIN};

fn lions_only() -> Pos {
    set_sq(set_sq(0, 13, 1), 1, 6)
}

#[test]
fn retrograde_on_a_small_graph() {
    // Moves: 0 -> 2, 1 -> 3, 4 -> 0, 4 -> 4; node 2 is lost and node 3 won to begin with.
    let mut status: Vec<u8> = vec![STATUS_UNKNOWN, STATUS_UNKNOWN, STATUS_LOSE, STATUS_WIN, STATUS_UNKNOWN];
    let mut remaining: Vec<u8> = vec![1, 1, 0, 0, 2];
    let rev_offset: Vec<EdgeIdx> = vec![0, 1, 1, 2, 3, 4];
    let rev_edges: Vec<u32> = vec![4, 0, 1, 4];
    retrograde(&mut status, &mut remaining, &rev_offset, &rev_edges);
    assert_eq!(status, vec![STATUS_WIN, STATUS_LOSE, STATUS_LOSE, STATUS_WIN, STATUS_UNKNOWN]);
    assert_eq!(remaining, vec![1, 0, 0, 0, 1]);
}

#[test]
fn retrograde_without_edges_keeps_statuses() {
    let mut status: Vec<u8> = vec![STATUS_WIN, STATUS_UNKNOWN];
    let mut remaining: Vec<u8> = vec![0, 0];
    retrograde(&mut status, &mut remaining, &[0, 0, 0], &[]);
    assert_eq!(status, vec![STATUS_WIN, STATUS_UNKNOWN]);
}

#[test]
fn reverse_edges_of_one_position() {
    let p = canonical(initial_position());
    let mut succs = Vec::new();
    generate_successors_canonical(p, &mut succs);
    let mut known = succs.clone();
    known.push(p);
    sort_dedup(&mut known);
    let n = known.len();
    let pi = index_of(&known, p).unwrap();
    let status: Vec<u8> = (0..n).map(|i| if i == pi { STATUS_UNKNOWN } else { STATUS_WIN }).collect();
    let (offsets, edges) = build_reverse_csr(&known, &status);
    assert_eq!(offsets.len(), n + 1);
    assert_eq!(offsets[0], 0);
    assert_eq!(offsets[n] as usize, succs.len());
    assert_eq!(edges.len(), succs.len());
    for &e in &edges {
        assert_eq!(e as usize, pi);
    }
    for j in 0..n {
        let count = succs.iter().filter(|&&s| s == known[j]).count();
        assert_eq!((offsets[j + 1] - offsets[j]) as usize, count);
    }
}

#[test]
fn no_edges_when_nothing_is_unknown() {
    let known: Vec<Pos> = vec![1, 2, 3];
    let status: Vec<u8> = vec![STATUS_WIN, STATUS_LOSE, STATUS_WIN];
    let (offsets, edges) = build_reverse_csr(&known, &status);
    assert_eq!(offsets, vec![0, 0, 0, 0]);
    assert!(edges.is_empty());
}

#[test]
fn terminal_seed_is_its_own_search() {
    let capture = set_sq(lions_only(), 4, 3);
    assert_eq!(bfs_from_seeds(vec![capture, capture]), vec![capture]);
}

#[test]
fn search_from_lions_is_closed_and_sorted() {
    let seed = lions_only();
    let known = bfs_from_seeds(vec![seed]);
    assert!(known.windows(2).all(|w| w[0] < w[1]));
    assert!(index_of(&known, seed).is_some());
    let mut buf = Vec::new();
    for &p in &known {
        if is_terminal(p) {
            continue;
        }
        buf.clear();
        generate_successors_canonical(p, &mut buf);
        for &s in &buf {
            assert!(index_of(&known, s).is_some());
        }
    }
}

#[test]
fn classification_of_a_set() {
    let capture = set_sq(lions_only(), 4, 3);
    let known: Vec<Pos> = vec![initial_position(), capture];
    let (status, remaining) = classify_terminals(&known);
    assert_eq!(status, vec![STATUS_UNKNOWN, STATUS_WIN]);
    assert_eq!(remaining, vec![4, 0]);
}

#[test]
fn solving_lions_only_positions() {
    let seed = lions_only();
    let (known, status) = solve_from_seeds(vec![seed]).unwrap();
    let n = known.len();
    assert_eq!(status.len(), n);
    assert_eq!(count_status(&status, STATUS_WIN) + count_status(&status, STATUS_LOSE) + count_status(&status, STATUS_UNKNOWN), n);
    let mut buf = Vec::new();
    for i in 0..n {
        let p = known[i];
        if is_terminal(p) {
            assert_ne!(status[i], STATUS_UNKNOWN);
            continue;
        }
        buf.clear();
        generate_successors_canonical(p, &mut buf);
        let child: Vec<u8> = buf.iter().map(|&s| status[index_of(&known, s).unwrap()]).collect();
        match status[i] {
            STATUS_WIN => assert!(child.contains(&STATUS_LOSE)),
            STATUS_LOSE => assert!(child.iter().all(|&c| c == STATUS_WIN)),
            _ => {
                assert!(!child.contains(&STATUS_LOSE));
                assert!(child.is_empty() || child.iter().any(|&c| c != STATUS_WIN));
            }
        }
    }
}

#[test]
fn solving_needs_both_lions() {
    assert!(solve_from_seeds(vec![set_sq(0, 13, 1)]).is_none());
}

#[test]
fn solving_a_won_seed() {
    let capture = set_sq(lions_only(), 4, 3);
    let (known, status) = solve_from_seeds(vec![capture]).unwrap();
    assert_eq!(known, vec![capture]);
    assert_eq!(status, vec![STATUS_WIN]);
}

#[test]
fn seeds_come_out_sorted() {
    let a = set_sq(lions_only(), 4, 3);
    let b = set_sq(set_sq(0, 2, 1), 12, 6);
    let (lo, hi) = if a < b { (a, b) } else { (b, a) };
    assert_eq!(bfs_from_seeds(vec![hi, lo, hi]), vec![lo, hi]);
}

#[test]
fn won_count_is_left_as_it_was() {
    // Moves: 1 -> 0, 2 -> 1; position 0 is lost to begin with.
    let mut status: Vec<u8> = vec![STATUS_LOSE, STATUS_UNKNOWN, STATUS_UNKNOWN];
    let mut remaining: Vec<u8> = vec![0, 1, 1];
    retrograde(&mut status, &mut remaining, &[0, 1, 2, 2], &[1, 2]);
    assert_eq!(status, vec![STATUS_LOSE, STATUS_WIN, STATUS_LOSE]);
    assert_eq!(remaining, vec![0, 1, 0]);
}
