use rusty_pelican::engine::Datasets;
use rusty_pelican::ttl::Lifetimes;

fn make_domain() -> Lifetimes {
    Lifetimes::new(Datasets::new())
}

fn range_strings(st: &Lifetimes, key: &str, start: i32, stop: i32) -> Vec<String> {
    st.range(key, start, stop, 0)
}

#[test]
fn adding() {
    let mut st = make_domain();
    assert_eq!(st.length("key", 0), 0);
    st.append("key", "1", false);
    st.append("key", "2", false);
    st.prepend("key", "3", false);
    assert_eq!(st.length("key", 0), 3);
    assert_eq!(st.data.lists.len(), 1);
    st.prepend("key2", "1", false);
    st.append("key2", "2", false);
    assert_eq!(st.length("key", 0), 3);
    assert_eq!(st.length("key2", 0), 2);
    assert_eq!(st.data.lists.len(), 2);
    assert_eq!(
        range_strings(&st, "key", 0, -1),
        vec!["3".to_string(), "1".to_string(), "2".to_string()]
    );
    assert_eq!(range_strings(&st, "key2", 0, -1), vec!["1".to_string(), "2".to_string()]);
}

#[test]
fn add_to_existing() {
    let mut st = make_domain();
    assert_eq!(st.append("key", "element", true), 0);
    assert_eq!(st.append("key", "element", false), 1);
    assert_eq!(st.append("key", "element", true), 2);
    assert_eq!(st.prepend("key2", "element", true), 0);
    assert_eq!(st.prepend("key2", "element", false), 1);
    assert_eq!(st.prepend("key2", "element", true), 2);
}

#[test]
fn lists_set() {
    let mut st = make_domain();
    assert_eq!(st.set_element("key", 0, "element3"), false);
    st.append("key", "element2", false);
    assert_eq!(st.set_element("key", 0, "element"), true);
    assert_eq!(range_strings(&st, "key", 0, 10), vec!["element".to_string()]);
}

#[test]
fn range() {
    let mut st = make_domain();
    for i in 1..10 {
        st.append("key", &i.to_string(), false);
    }
    assert_eq!(
        range_strings(&st, "key", 0, 100),
        (1..10).map(|i| i.to_string()).collect::<Vec<_>>()
    );
    assert_eq!(
        range_strings(&st, "key", 0, -1),
        (1..10).map(|i| i.to_string()).collect::<Vec<_>>()
    );
    assert_eq!(
        range_strings(&st, "key", 0, -2),
        (1..9).map(|i| i.to_string()).collect::<Vec<_>>()
    );
    assert_eq!(
        range_strings(&st, "key", 5, -2),
        (6..9).map(|i| i.to_string()).collect::<Vec<_>>()
    );
    assert_eq!(range_strings(&st, "key", 15, -2), Vec::<String>::new());
    assert_eq!(range_strings(&st, "key", 0, 1), vec!["1".to_string()]);
    assert_eq!(range_strings(&st, "key", 1, 1), Vec::<String>::new());
}

#[test]
fn range_clamps_out_of_range_endpoints() {
    let mut st = make_domain();
    for i in 1..10 {
        st.append("key", &i.to_string(), false);
    }
    assert_eq!(
        range_strings(&st, "key", -100, -1),
        (1..10).map(|i| i.to_string()).collect::<Vec<_>>()
    );
    assert_eq!(range_strings(&st, "key", -3, 100), vec!["7", "8", "9"]);
    assert_eq!(range_strings(&st, "key", 0, -100), Vec::<String>::new());
}
