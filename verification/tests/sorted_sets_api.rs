use rusty_pelican::score::Score;
use rusty_pelican::sorted_sets::OrderedScores;

fn score(n: i128) -> Score {
    Score { units: n * 1_000_000_000 }
}

fn ranked(d: &OrderedScores, lo: i128, hi: i128) -> Vec<(usize, (i128, String))> {
    d.range_by_score(score(lo), score(hi))
        .into_iter()
        .map(|e| (e.rank, (e.score.units / 1_000_000_000, e.member)))
        .collect()
}

fn by_rank(d: &OrderedScores, start: usize, stop: usize) -> Vec<(usize, (i128, String))> {
    d.range_by_rank(start, stop)
        .into_iter()
        .map(|e| (e.rank, (e.score.units / 1_000_000_000, e.member)))
        .collect()
}

#[test]
fn or_this() {
    let mut d = OrderedScores::new();

    d.merge(score(1), "user:1");
    assert_eq!(d.member_stats("user:1").unwrap().score, score(1));
    assert_eq!(by_rank(&d, 0, 100), vec![(0, (1, "user:1".to_string()))]);

    d.merge(score(2), "user:1");
    assert_eq!(d.member_stats("user:1").unwrap().score, score(2));
    assert_eq!(by_rank(&d, 0, 100), vec![(0, (2, "user:1".to_string()))]);

    d.merge(score(1), "user:2");
    assert_eq!(d.member_stats("user:2").unwrap().score, score(1));
    assert_eq!(
        ranked(&d, 0, 100),
        vec![(0, (1, "user:2".to_string())), (1, (2, "user:1".to_string()))]
    );
    assert_eq!(
        by_rank(&d, 0, 100),
        vec![(0, (1, "user:2".to_string())), (1, (2, "user:1".to_string()))]
    );

    d.merge(score(2), "user:2");
    assert_eq!(d.member_stats("user:2").unwrap().score, score(2));
    assert_eq!(
        ranked(&d, 0, 100),
        vec![(0, (2, "user:1".to_string())), (1, (2, "user:2".to_string()))]
    );
    assert_eq!(
        by_rank(&d, 0, 100),
        vec![(0, (2, "user:1".to_string())), (1, (2, "user:2".to_string()))]
    );

    d.merge(score(3), "user:3");
    assert_eq!(d.member_stats("user:3").unwrap().score, score(3));
    assert_eq!(
        ranked(&d, 0, 100),
        vec![
            (0, (2, "user:1".to_string())),
            (1, (2, "user:2".to_string())),
            (2, (3, "user:3".to_string())),
        ]
    );
    assert_eq!(
        by_rank(&d, 0, 100),
        vec![
            (0, (2, "user:1".to_string())),
            (1, (2, "user:2".to_string())),
            (2, (3, "user:3".to_string())),
        ]
    );
    assert_eq!(
        by_rank(&d, 1, 100),
        vec![(1, (2, "user:2".to_string())), (2, (3, "user:3".to_string()))]
    );

    assert_eq!(d.member_stats("user:1").unwrap().rank, 0);
    assert_eq!(d.member_stats("user:2").unwrap().rank, 1);
    assert_eq!(d.member_stats("user:3").unwrap().rank, 2);
}

#[test]
fn sorted_sets_or_this() {
    let mut d = OrderedScores::new();
    d.merge(score(1), "user:1");
    d.merge(score(2), "user:1");
    d.merge(score(1), "user:2");
    assert_eq!(
        ranked(&d, 0, 100),
        vec![(0, (1, "user:2".to_string())), (1, (2, "user:1".to_string()))]
    );
    assert_eq!(d.member_stats("user:1").unwrap().rank, 1);
    assert_eq!(d.member_stats("user:2").unwrap().rank, 0);
}

#[test]
fn detach_then_absent() {
    let mut d = OrderedScores::new();
    d.merge(score(4), "a");
    d.merge(score(5), "b");
    assert!(d.detach("a"));
    assert!(d.member_stats("a").is_none());
    assert!(!d.detach("a"));
    assert_eq!(by_rank(&d, 0, 10), vec![(0, (5, "b".to_string()))]);
}
