use mumo_ingest::links::{compose, link_to, rewrite, Kind, Link};
use mumo_ingest::uri::{Resource, Target};

fn origin(path: &str, query: Option<&str>) -> Target {
    Target {
        scheme: None,
        authority: None,
        resource: Some(Resource { path: path.to_string(), query: query.map(String::from) }),
    }
}

fn absolute(scheme: &str, authority: &str, path: &str, query: Option<&str>) -> Target {
    Target {
        scheme: Some(scheme.to_string()),
        authority: Some(authority.to_string()),
        resource: Some(Resource { path: path.to_string(), query: query.map(String::from) }),
    }
}

fn pairs(items: &[(&str, &str)]) -> Vec<(String, String)> {
    items.iter().map(|(k, v)| (k.to_string(), v.to_string())).collect()
}

#[test]
fn first_record_of_five() {
    assert_eq!(Kind::Prev.apply(0, 5), None);
    assert_eq!(Kind::Next.apply(0, 5), Some(1));
    assert_eq!(Kind::First.apply(0, 5), Some(0));
    assert_eq!(Kind::Last.apply(0, 5), Some(5));
}

#[test]
fn last_record_of_five() {
    assert_eq!(Kind::Next.apply(4, 5), None);
    assert_eq!(Kind::Prev.apply(4, 5), Some(3));
    assert_eq!(Kind::First.apply(4, 5), Some(0));
    assert_eq!(Kind::Last.apply(4, 5), Some(5));
}

#[test]
fn next_stops_before_the_bound() {
    assert_eq!(Kind::Next.apply(3, 5), Some(4));
    assert_eq!(Kind::Next.apply(5, 5), None);
    assert_eq!(Kind::Next.apply(9, 5), None);
    assert_eq!(Kind::Next.apply(0, 0), None);
    assert_eq!(Kind::Next.apply(0, 1), None);
    assert_eq!(Kind::Next.apply(0, 2), Some(1));
}

#[test]
fn links_at_the_edge_of_64_bits() {
    assert_eq!(Kind::Next.apply(u64::MAX, u64::MAX), None);
    assert_eq!(Kind::Next.apply(u64::MAX, 0), None);
    assert_eq!(Kind::Next.apply(u64::MAX - 2, u64::MAX), Some(u64::MAX - 1));
    assert_eq!(Kind::Next.apply(u64::MAX - 1, u64::MAX), None);
    assert_eq!(Kind::Prev.apply(u64::MAX, u64::MAX), Some(u64::MAX - 1));
    assert_eq!(Kind::Last.apply(0, u64::MAX), Some(u64::MAX));
}

#[test]
fn relation_names() {
    assert_eq!(Kind::Prev.name(), "prev");
    assert_eq!(Kind::Next.name(), "next");
    assert_eq!(Kind::Last.name(), "last");
    assert_eq!(Kind::First.name(), "first");
}

#[test]
fn new_keeps_both_numbers() {
    assert_eq!(Link::new(3, 9), Link { current: 3, last: 9 });
}

#[test]
fn header_of_the_first_record() {
    let header = Link::new(0, 5).header(&origin("/", Some("index=0")));
    assert_eq!(
        header.as_deref(),
        Some(r#"</?index=1>; rel="next", </?index=5>; rel="last", </?index=0>; rel="first""#)
    );
}

#[test]
fn header_of_the_last_record() {
    let header = Link::new(4, 5).header(&origin("/", Some("index=4")));
    assert_eq!(
        header.as_deref(),
        Some(r#"</?index=3>; rel="prev", </?index=5>; rel="last", </?index=0>; rel="first""#)
    );
}

#[test]
fn header_in_the_middle_has_all_four() {
    let header = Link::new(2, 5).header(&origin("/log", Some("index=2")));
    assert_eq!(
        header.as_deref(),
        Some(
            r#"</log?index=3>; rel="next", </log?index=1>; rel="prev", </log?index=5>; rel="last", </log?index=0>; rel="first""#
        )
    );
}

#[test]
fn header_of_an_empty_log() {
    let header = Link::new(0, 0).header(&origin("/", None));
    assert_eq!(header.as_deref(), Some(r#"</?index=0>; rel="last", </?index=0>; rel="first""#));
}

#[test]
fn header_keeps_scheme_and_authority() {
    let header = Link::new(7, 8).header(&absolute("http", "localhost:8000", "/", Some("index=7")));
    assert_eq!(
        header.as_deref(),
        Some(
            r#"<http://localhost:8000/?index=6>; rel="prev", <http://localhost:8000/?index=8>; rel="last", <http://localhost:8000/?index=0>; rel="first""#
        )
    );
}

#[test]
fn header_keeps_the_other_parameters() {
    let header = Link::new(0, 2).header(&origin("/", Some("index=0&key=s3cret")));
    assert_eq!(
        header.as_deref(),
        Some(
            r#"</?index=1&key=s3cret>; rel="next", </?index=2&key=s3cret>; rel="last", </?index=0&key=s3cret>; rel="first""#
        )
    );
}

#[test]
fn header_adds_index_where_the_query_has_none() {
    let header = Link::new(1, 2).header(&origin("/", Some("key=k")));
    assert_eq!(
        header.as_deref(),
        Some(
            r#"</?key=k&index=0>; rel="prev", </?key=k&index=2>; rel="last", </?key=k&index=0>; rel="first""#
        )
    );
}

#[test]
fn header_reads_the_query_as_a_mapping() {
    let header = Link::new(0, 1).header(&origin("/", Some("a=1&index=0&a=2&junk&b=x=y&index=4")));
    assert_eq!(
        header.as_deref(),
        Some(r#"</?a=2&index=1&b=x>; rel="last", </?a=2&index=0&b=x>; rel="first""#)
    );
}

#[test]
fn header_needs_a_path() {
    let target = Target { scheme: None, authority: Some("example.com:80".to_string()), resource: None };
    assert_eq!(Link::new(0, 5).header(&target), None);
}

#[test]
fn header_is_absent_where_no_link_can_be_rendered() {
    let target = absolute("http", "example.com", "/a b", Some("index=1"));
    assert_eq!(Link::new(1, 5).header(&target), None);
    assert_eq!(Link::new(1, 5).header(&origin("/a b", Some("index=1"))), None);
    assert_eq!(Link::new(1, 5).header(&origin("/", Some("index=1&a=\u{e9}"))), None);
    let target = absolute("ht tp", "example.com", "/", Some("index=1"));
    assert_eq!(Link::new(1, 5).header(&target), None);
    let target = absolute("http", "exa mple.com", "/", Some("index=1"));
    assert_eq!(Link::new(1, 5).header(&target), None);
    let target = Target {
        scheme: Some("http".to_string()),
        authority: None,
        resource: Some(Resource { path: "/".to_string(), query: None }),
    };
    assert_eq!(Link::new(1, 5).header(&target), None);
    let target = Target {
        scheme: None,
        authority: Some("example.com".to_string()),
        resource: Some(Resource { path: "/".to_string(), query: None }),
    };
    assert_eq!(Link::new(1, 5).header(&target), None);
}

#[test]
fn link_to_renders_one_link_and_binds_index() {
    let target = absolute("https", "log.example", "/r", None);
    let mut query = pairs(&[("a", "b")]);
    let link = link_to(&target, "/r", &mut query, 12);
    assert_eq!(link.as_deref(), Some("https://log.example/r?a=b&index=12"));
    assert_eq!(query, pairs(&[("a", "b"), ("index", "12")]));
    let link = link_to(&target, "/r", &mut query, 0);
    assert_eq!(link.as_deref(), Some("https://log.example/r?a=b&index=0"));
    assert_eq!(query, pairs(&[("a", "b"), ("index", "0")]));
}

#[test]
fn rewrite_writes_path_and_query() {
    let mut query = pairs(&[("index", "9"), ("z", "")]);
    assert_eq!(rewrite("/p", &mut query, 10), "/p?index=10&z=");
    assert_eq!(query, pairs(&[("index", "10"), ("z", "")]));
    let mut none = Vec::new();
    assert_eq!(rewrite("", &mut none, u64::MAX), "?index=18446744073709551615");
}

#[test]
fn compose_joins_segments() {
    assert_eq!(compose(&Vec::new()), None);
    let one = vec![(Kind::Last, "/x".to_string())];
    assert_eq!(compose(&one).as_deref(), Some(r#"</x>; rel="last""#));
    let two = vec![(Kind::Next, "a".to_string()), (Kind::First, "b".to_string())];
    assert_eq!(compose(&two).as_deref(), Some(r#"<a>; rel="next", <b>; rel="first""#));
}

#[test]
fn link_drops_a_fragment() {
    let mut query = pairs(&[("a", "b#c")]);
    let link = link_to(&origin("/r", None), "/r", &mut query, 1);
    assert_eq!(link.as_deref(), Some("/r?a=b"));
}

#[test]
fn link_of_the_asterisk_form() {
    let mut query = Vec::new();
    let link = link_to(&origin("*", None), "*", &mut query, 3);
    assert_eq!(link.as_deref(), Some("*?index=3"));
}

#[test]
fn header_splits_the_query_as_the_parser_does() {
    let header = Link::new(0, 0).header(&origin("/", Some("&&a=1&")));
    assert_eq!(header.as_deref(), Some(r#"</?a=1&index=0>; rel="last", </?a=1&index=0>; rel="first""#));
    let header = Link::new(0, 0).header(&origin("/", Some("=v")));
    assert_eq!(header.as_deref(), Some(r#"</?=v&index=0>; rel="last", </?=v&index=0>; rel="first""#));
    let header = Link::new(0, 0).header(&origin("/", Some("a==b&c=")));
    assert_eq!(header.as_deref(), Some(r#"</?a=&c=&index=0>; rel="last", </?a=&c=&index=0>; rel="first""#));
    let header = Link::new(0, 0).header(&origin("/", Some("a&=&b=1=2=3")));
    assert_eq!(header.as_deref(), Some(r#"</?=&b=1&index=0>; rel="last", </?=&b=1&index=0>; rel="first""#));
}
