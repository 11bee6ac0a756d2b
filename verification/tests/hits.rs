use git_varro::history::order_hits_by_main_history;
use git_varro::hits::{best_hits, RawMatch, SearchHit};
use git_varro::rank::{is_text_less, rank_hits, sort_hits};
use git_varro::score::Score;

fn found(id: &str, message: Option<&str>, score: f64) -> RawMatch {
    RawMatch {
        id: id.to_string(),
        message: message.map(|m| m.to_string()),
        score: Score { bits: score.to_bits() },
    }
}

fn hit(sha: &str, score: f64) -> SearchHit {
    SearchHit {
        full_sha: sha.to_string(),
        message: format!("message of {}", sha),
        score: Score { bits: score.to_bits() },
    }
}

fn shas(hits: &[SearchHit]) -> Vec<&str> {
    hits.iter().map(|h| h.full_sha.as_str()).collect()
}

fn strings(names: &[&str]) -> Vec<String> {
    names.iter().map(|s| s.to_string()).collect()
}

#[test]
fn the_best_hit_on_each_commit_is_kept() {
    let best = best_hits(vec![
        found("b", Some("first b"), 0.5),
        found("a", Some("a"), 0.9),
        found("b", Some("second b"), 0.7),
        found("b", Some("third b"), 0.6),
        found("a", Some("late a"), 0.9),
    ]);
    assert_eq!(shas(&best), vec!["b", "a"]);
    assert_eq!(best[0].message, "second b");
    assert_eq!(best[0].score.bits, 0.7f64.to_bits());
    assert_eq!(best[1].message, "a");
}

#[test]
fn a_message_that_was_not_stored_is_empty() {
    let best = best_hits(vec![found("a", None, 1.0)]);
    assert_eq!(best[0].message, "");
    assert!(best_hits(vec![]).is_empty());
}

#[test]
fn a_first_score_that_is_no_number_stays() {
    let best = best_hits(vec![found("a", Some("x"), f64::NAN), found("a", Some("y"), 1.0)]);
    assert_eq!(best.len(), 1);
    assert_eq!(best[0].message, "x");
}

#[test]
fn ranking_is_by_score_then_by_name() {
    let hits = vec![hit("c", 0.5), hit("a", 0.1), hit("b", 0.5), hit("d", 2.0), hit("e", -1.0)];
    assert_eq!(shas(&rank_hits(&hits)), vec!["d", "b", "c", "a", "e"]);
}

#[test]
fn sorting_by_score_alone_is_stable() {
    let hits = vec![hit("c", 0.5), hit("a", 0.1), hit("b", 0.5), hit("d", 2.0), hit("x", -0.0), hit("w", 0.0)];
    assert_eq!(shas(&sort_hits(&hits, false)), vec!["d", "c", "b", "a", "x", "w"]);
    assert_eq!(shas(&sort_hits(&hits, true)), vec!["d", "b", "c", "a", "w", "x"]);
}

#[test]
fn ranking_does_not_depend_on_arrival() {
    let a = vec![hit("a", 0.3), hit("b", 0.3), hit("c", 0.9), hit("d", 0.1)];
    let b = vec![hit("d", 0.1), hit("b", 0.3), hit("a", 0.3), hit("c", 0.9)];
    assert_eq!(shas(&rank_hits(&a)), shas(&rank_hits(&b)));
}

#[test]
fn ranking_agrees_with_the_sort_of_std() {
    let mut hits = Vec::new();
    let mut seed: u32 = 12345;
    for i in 0..300u32 {
        seed = seed.wrapping_mul(1664525).wrapping_add(1013904223);
        hits.push(hit(&format!("{:08x}", seed ^ i), ((seed >> 24) % 16) as f64 / 4.0));
    }
    let mut wanted = hits.clone();
    wanted.sort_by(|a, b| {
        f64::from_bits(b.score.bits)
            .partial_cmp(&f64::from_bits(a.score.bits))
            .unwrap()
            .then_with(|| a.full_sha.cmp(&b.full_sha))
    });
    assert_eq!(shas(&rank_hits(&hits)), shas(&wanted));
    let mut stable = hits.clone();
    stable.sort_by(|a, b| {
        f64::from_bits(b.score.bits).partial_cmp(&f64::from_bits(a.score.bits)).unwrap()
    });
    assert_eq!(shas(&sort_hits(&hits, false)), shas(&stable));
}

#[test]
fn ranking_keeps_every_hit_even_without_numbers() {
    let hits = vec![hit("a", f64::NAN), hit("b", 1.0), hit("c", f64::NAN), hit("d", 2.0)];
    let ranked = rank_hits(&hits);
    let mut names = shas(&ranked);
    names.sort();
    assert_eq!(names, vec!["a", "b", "c", "d"]);
}

#[test]
fn names_are_in_dictionary_order() {
    assert!(is_text_less("", "a"));
    assert!(is_text_less("a", "ab"));
    assert!(is_text_less("ab", "b"));
    assert!(!is_text_less("b", "ab"));
    assert!(!is_text_less("a", "a"));
    assert!(is_text_less("z", "é"));
    for a in ["", "a", "aé", "b", "\u{FFFF}", "\u{10000}"] {
        for b in ["", "a", "aé", "b", "\u{FFFF}", "\u{10000}"] {
            assert_eq!(is_text_less(a, b), a < b);
        }
    }
}

#[test]
fn history_comes_first_and_the_rest_follows() {
    let hits = vec![hit("x", 0.9), hit("old", 0.8), hit("y", 0.7), hit("new", 0.6)];
    let revs = strings(&["new", "other", "old", "root"]);
    let ordered = order_hits_by_main_history(&revs, &hits);
    assert_eq!(shas(&ordered), vec!["new", "old", "x", "y"]);
    assert_eq!(ordered[0].score.bits, 0.6f64.to_bits());
    assert_eq!(ordered[0].message, "message of new");
}

#[test]
fn history_with_nothing_on_main() {
    let hits = vec![hit("b", 0.9), hit("a", 0.8)];
    assert_eq!(shas(&order_hits_by_main_history(&vec![], &hits)), vec!["b", "a"]);
    assert!(order_hits_by_main_history(&strings(&["a"]), &vec![]).is_empty());
}

#[test]
fn of_several_hits_on_a_listed_commit_the_last_is_taken() {
    let mut second = hit("a", 0.2);
    second.message = "second".to_string();
    let mut later = hit("b", 0.1);
    later.message = "later b".to_string();
    let hits = vec![hit("a", 0.9), hit("b", 0.5), second, later];
    let ordered = order_hits_by_main_history(&strings(&["a"]), &hits);
    assert_eq!(shas(&ordered), vec!["a", "b"]);
    assert_eq!(ordered[0].message, "second");
    assert_eq!(ordered[1].message, "message of b");
}
