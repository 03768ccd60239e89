use lib::bktree::{metric, BKTree};
use lib::types::Term;

fn lev(a: &str, b: &str) -> usize {
    let a: Vec<char> = a.chars().collect();
    let b: Vec<char> = b.chars().collect();
    let mut d = vec![vec![0usize; b.len() + 1]; a.len() + 1];
    for i in 0..=a.len() {
        d[i][0] = i;
    }
    for j in 0..=b.len() {
        d[0][j] = j;
    }
    for i in 1..=a.len() {
        for j in 1..=b.len() {
            let s = if a[i - 1] == b[j - 1] { 0 } else { 1 };
            d[i][j] = (d[i - 1][j] + 1).min(d[i][j - 1] + 1).min(d[i - 1][j - 1] + s);
        }
    }
    d[a.len()][b.len()]
}

const WORDS: [&str; 15] = [
    "autobus", "panecku", "krakora", "hovna", "rovna", "rosa", "bosa", "bosak", "bosák", "pasák", "osa",
    "osada", "havranu", "sady", "sadista",
];

fn sample() -> BKTree<'static> {
    let mut bk = BKTree::new();
    for (i, w) in WORDS.iter().enumerate() {
        bk.insert(w, (i + 1) as u32);
    }
    bk
}

#[test]
fn bktree_test1() {
    let bk = sample();
    for (depth, distance, term) in bk.outline() {
        println!("{:width$}: {}", distance, term, width = depth * 2);
    }
    println!("{:?}", bk.find("ros", 2));
    println!("{:?}", bk.find("", 3));
    assert!(true);
}

#[test]
fn metric_values() {
    let w = |s: &str| s.chars().collect::<Vec<char>>();
    assert_eq!(metric(&w("kitten"), &w("sitting")), 3);
    assert_eq!(metric(&w(""), &w("abc")), 3);
    assert_eq!(metric(&w("bosak"), &w("bosák")), 1);
    assert_eq!(metric(&w("rosa"), &w("rosa")), 0);
    assert_eq!(metric(&w("flaw"), &w("lawn")), 2);
}

#[test]
fn bktree_find_matches_brute_force() {
    let bk = sample();
    for query in ["ros", "bos", "osad", "", "havran", "xyz"] {
        for maxd in 0..4 {
            let mut found: Vec<(usize, String, u32)> = bk
                .find(query, maxd)
                .iter()
                .map(|r| (r.distance(), r.term().to_string(), r.term_id()))
                .collect();
            found.sort();
            let mut expected: Vec<(usize, String, u32)> = WORDS
                .iter()
                .enumerate()
                .map(|(i, w)| (lev(w, query), w.to_string(), (i + 1) as u32))
                .filter(|r| r.0 <= maxd)
                .collect();
            // the root holds the empty term
            if query.chars().count() <= maxd {
                expected.push((query.chars().count(), String::new(), 0));
            }
            expected.sort();
            assert_eq!(found, expected, "query {:?} within {}", query, maxd);
        }
    }
}

#[test]
fn bktree_insert_term() {
    let t = Term { term: "osada".to_string(), term_id: 12 };
    let mut bk = BKTree::new();
    bk.insert_term(&t);
    let r = bk.find("osada", 0);
    assert_eq!(r.len(), 1);
    assert_eq!(r[0].term(), "osada");
    assert_eq!(r[0].term_id(), 12);
    assert_eq!(r[0].distance(), 0);
}

#[test]
fn metric_is_symmetric_and_obeys_the_triangle_inequality() {
    let w = |s: &str| s.chars().collect::<Vec<char>>();
    let words = ["", "osa", "osada", "rosa", "bosák", "sady", "sadista", "havranu"];
    for a in words.iter() {
        for b in words.iter() {
            assert_eq!(metric(&w(a), &w(b)), metric(&w(b), &w(a)));
            for c in words.iter() {
                assert!(metric(&w(a), &w(c)) <= metric(&w(a), &w(b)) + metric(&w(b), &w(c)));
            }
        }
    }
}

#[test]
fn metric_laws_on_examples() {
    let w = |s: &str| -> Vec<char> { s.chars().collect() };
    let (a, b, c) = (w("kitten"), w("sitting"), w("mitten"));
    assert_eq!(metric(&a, &a), 0);
    assert_eq!(metric(&a, &b), metric(&b, &a));
    assert_eq!(metric(&a, &vec![]), a.len());
    assert!(metric(&a, &b) >= b.len() - a.len());
    assert!(metric(&a, &c) <= metric(&a, &b) + metric(&b, &c));
    assert_eq!(metric(&a, &b), 3);
}
