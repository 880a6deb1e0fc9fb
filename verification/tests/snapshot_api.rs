use rusty_pelican::engine::Datasets;
use rusty_pelican::score::Score;
use rusty_pelican::snapshots::{allocate_new, most_recent, parse_snapshot_ordinal, restore_snapshot, snapshot_bytes, snapshot_file_name};
use rusty_pelican::ttl::Lifetimes;

#[test]
fn names_carry_ordinals() {
    assert_eq!(snapshot_file_name(0), "snapshot-0.data");
    assert_eq!(snapshot_file_name(12), "snapshot-12.data");
    assert_eq!(parse_snapshot_ordinal("snapshot-12.data"), Some(12));
    assert_eq!(parse_snapshot_ordinal("snapshot-.data"), None);
    assert_eq!(parse_snapshot_ordinal("transactions.log"), None);
    assert_eq!(parse_snapshot_ordinal("snapshot-1x.data"), None);
}

#[test]
fn highest_ordinal_wins() {
    let names: Vec<String> = vec![
        "snapshot-3.data".to_string(),
        "junk.txt".to_string(),
        "snapshot-11.data".to_string(),
        "snapshot-7.data".to_string(),
    ];
    let best = most_recent(&names).unwrap();
    assert_eq!(best.index, 11);
    assert_eq!(best.name, "snapshot-11.data");
    let next = allocate_new(&names);
    assert_eq!(next.index, 12);
    assert_eq!(next.name, "snapshot-12.data");
    assert!(most_recent(&vec!["nope".to_string()]).is_none());
    assert_eq!(allocate_new(&Vec::new()).index, 0);
}

#[test]
fn snapshot_round_trip() {
    let mut st = Lifetimes::new(Datasets::new());
    st.set("a", "1");
    st.set("b", "2");
    st.append("l", "x", false);
    st.append("l", "y", false);
    let mut z = rusty_pelican::sorted_sets::OrderedScores::new();
    z.merge(Score { units: 1_000_000_000 }, "m1");
    z.merge(Score { units: 2_000_000_000 }, "m2");
    st.data.sorted_sets.set("z", z);
    st.register_ttl("a", 100, 50);

    let bytes = snapshot_bytes(&st);
    let back = restore_snapshot(&bytes).unwrap();
    assert_eq!(back.get("a", 0).ok(), Some("1".to_string()));
    assert_eq!(back.get("b", 0).ok(), Some("2".to_string()));
    assert_eq!(back.range("l", 0, -1, 0), vec!["x".to_string(), "y".to_string()]);
    assert_eq!(back.ttl_remaining("a", 100), Some(50));
    let stats = back.zmember_stats("z", "m2", 0).unwrap();
    assert_eq!(stats.rank, 1);
    assert_eq!(stats.score.units, 2_000_000_000);
    assert!(restore_snapshot(&vec![9u8, 9, 9]).is_err());
}
