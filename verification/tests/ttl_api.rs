use rusty_pelican::engine::Datasets;
use rusty_pelican::ttl::Lifetimes;

fn make_domain() -> Lifetimes {
    Lifetimes::new(Datasets::new())
}

#[test]
fn register_ttl() {
    let mut st = make_domain();
    let now = 100u64;
    assert_eq!(st.ttl_remaining("key", now), None);
    st.register_ttl("key", now, 1);
    assert_eq!(st.ttl_remaining("key", now), Some(1));
}

#[test]
fn expires_the_right_one() {
    let mut st = make_domain();
    let now = 100u64;
    st.set("key", "value");
    st.register_ttl("key", now, 0);
    assert_eq!(st.get("key", now).ok(), Some("value".to_string()));
    st.set("key2", "value");
    let later = now + 1;
    assert_eq!(st.get("key", later).ok(), None);
    assert_eq!(st.get("key2", later).ok(), Some("value".to_string()));
}

#[test]
fn expunge_removes_due_keys() {
    let mut st = make_domain();
    st.set("key", "value");
    st.register_ttl("key", 100, 5);
    st.expunge_expired(104);
    assert!(st.data.strings.len() == 1);
    st.expunge_expired(106);
    assert!(st.data.strings.len() == 0);
    assert_eq!(st.ttl_remaining("key", 106), None);
}
