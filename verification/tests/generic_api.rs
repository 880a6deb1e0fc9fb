use rusty_pelican::engine::Datasets;
use rusty_pelican::globs::Glob;
use rusty_pelican::ttl::Lifetimes;

fn make_domain() -> Lifetimes {
    let mut st = Lifetimes::new(Datasets::new());
    st.set("users:427", "value");
    st.set("users:428", "value2");
    st.append("sweden:users", "element", false);
    st.append("sweden:users:429", "element", false);
    st
}

#[test]
fn filter_keys() {
    let st = make_domain();
    let filter = |pat: &str| {
        let mut xs = st.filter_keys(pat, 0);
        xs.sort();
        xs
    };
    assert_eq!(filter("users:*"), vec!["users:427", "users:428"]);
    assert_eq!(filter("*users"), vec!["sweden:users"]);
}

#[test]
fn scan() {
    let st = make_domain();
    let filter = |pat: &str| {
        let mut xs = st.scan_keys(0, Some(pat), None, 0).get_data().clone();
        xs.sort();
        xs
    };
    assert_eq!(filter("users:*"), vec!["users:427", "users:428"]);
    assert_eq!(filter("*users"), vec!["sweden:users"]);
}

#[test]
fn over_eager() {
    assert!(!Glob::new("users:*").unwrap().matches("sweden:users:429"));
    assert!(!Glob::new("*:users").unwrap().matches("sweden:users:429"));
}

#[test]
fn type_and_exists() {
    let st = make_domain();
    assert_eq!(st.type_of_key("users:427", 0), Some("string".to_string()));
    assert_eq!(st.type_of_key("sweden:users", 0), Some("list".to_string()));
    assert_eq!(st.type_of_key("nothing", 0), None);
    assert!(st.key_exists("users:427", 0));
    assert!(!st.key_exists("nothing", 0));
}

#[test]
fn sorted_set_keys_share_the_namespace() {
    let mut st = make_domain();
    let mut z = rusty_pelican::sorted_sets::OrderedScores::new();
    z.merge(rusty_pelican::score::Score { units: 1_000_000_000 }, "m");
    st.data.sorted_sets.set("users:zs", z);
    assert!(st.key_exists("users:zs", 0));
    let mut keys = st.filter_keys("users:*", 0);
    keys.sort();
    assert_eq!(keys, vec!["users:427", "users:428", "users:zs"]);
    assert_eq!(st.ttl_remaining("users:zs", 0), None);
    match st.get_ttl("users:zs", 0) {
        rusty_pelican::generic::Ttl::Eternal => {}
        other => panic!("a bound key without a TTL reports eternal, got {:?}", other),
    }
}
