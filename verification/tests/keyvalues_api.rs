use rusty_pelican::engine::Datasets;
use rusty_pelican::ttl::Lifetimes;

fn make_domain() -> Lifetimes {
    Lifetimes::new(Datasets::new())
}

#[test]
fn set() {
    let mut st = make_domain();
    st.set("apan:1", "value");
    assert_eq!(st.get("apan:1", 0).ok(), Some("value".to_string()));
    assert_eq!(st.data.strings.len(), 1);
}

#[test]
fn set_wrong_type() {
}

#[test]
fn keyvalues_set_wrong_type() {
}

#[test]
fn get() {
    let mut st = make_domain();
    st.set("apan:1", "value");
    st.set("apan:2", "not_value");
    assert_eq!(st.get("apan:1", 0).ok(), Some("value".to_string()));
    assert_eq!(st.get("apan:2", 0).ok(), Some("not_value".to_string()));
}

#[test]
fn mget() {
    let mut st = make_domain();
    st.set("apan:1", "value");
    st.set("apan:2", "not_value");
    st.set("apan:4", "something else");
    st.append("apan:5", "a value", false);
    st.append("apan:5", "two value", false);
    assert_eq!(st.data.strings.len(), 3);
    let keys: Vec<String> =
        vec!["apan:1", "apan:2", "apan:3", "apan:5"].into_iter().map(String::from).collect();
    assert_eq!(
        st.mget(&keys, 0),
        vec![
            Some("value".to_string()),
            Some("not_value".to_string()),
            None,
            Some("a value,two value".to_string()),
        ]
    );
}

#[test]
fn keyvalues_set() {
    let mut st = make_domain();
    st.set("apan:1", "value");
    assert_eq!(st.get("apan:1", 0).ok(), Some("value".to_string()));
    assert_eq!(st.data.strings.len(), 1);
}

#[test]
fn keyvalues_get() {
    let mut st = make_domain();
    st.set("apan:1", "value");
    st.set("apan:2", "not_value");
    assert_eq!(st.get("apan:1", 0).ok(), Some("value".to_string()));
    assert_eq!(st.get("apan:2", 0).ok(), Some("not_value".to_string()));
}

#[test]
fn keyvalues_mget() {
    let mut st = make_domain();
    st.set("apan:1", "value");
    st.set("apan:2", "not_value");
    st.set("apan:4", "something else");
    st.append("apan:5", "a value", false);
    st.append("apan:5", "two value", false);
    let keys: Vec<String> =
        vec!["apan:1", "apan:2", "apan:3", "apan:5"].into_iter().map(String::from).collect();
    assert_eq!(
        st.mget(&keys, 0),
        vec![
            Some("value".to_string()),
            Some("not_value".to_string()),
            None,
            Some("a value,two value".to_string()),
        ]
    );
}
