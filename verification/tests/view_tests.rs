use doc_core::config::{Config, ValueWrapper};
use doc_core::error::{DocError, ErrorType};
use doc_core::utils::{new_id, IdGen};
use doc_core::view::{Document, NodeView, PushView};
use doc_core::xpath::PathSelectType;

fn push(type_id: &str, id: Option<&str>, tags: &[&str]) -> PushView {
    PushView {
        type_id: type_id.to_string(),
        id: id.map(|s| s.to_string()),
        tags: tags.iter().map(|s| s.to_string()).collect(),
        config: Config::new(),
    }
}

fn path(text: &str) -> Vec<PathSelectType> {
    PathSelectType::from_path(text).unwrap()
}

fn ids_of(document: &Document, place: usize) -> Vec<String> {
    document.node(place).unwrap().child.keys().cloned().collect()
}

#[test]
fn view_test() {
    let mut document = Document::new();
    let mut ids = IdGen::new();
    let path = PathSelectType::from_path("/group/group").unwrap();
    document.mk_group(&path, &mut ids).unwrap();
    println!("{}", document.resolve(&path));
    println!("{:#?}", document.root());
    assert!(document.resolve(&path));
    assert_eq!(document.len(), 3);
}

#[test]
fn parser_test() {
    let node = NodeView::default();
    assert_eq!(node.type_id, "group");
    assert!(node.is_root());
    assert_eq!(node.child_count(), 0);
    assert!(node.tags.is_empty());
    assert_eq!(node.config.len(), 0);
}

#[test]
fn a_new_document_is_one_group() {
    let document = Document::new();
    assert_eq!(document.len(), 1);
    let root = document.root();
    assert_eq!(root.type_id, "group");
    assert!(root.tags.is_empty());
    assert_eq!(root.config.len(), 0);
    assert!(root.is_root());
    assert_eq!(root.child_count(), 0);
    assert!(document.node(1).is_none());
    assert!(document.resolve(&vec![]));
    assert_eq!(document.locate(&vec![]), Some(0));
}

#[test]
fn fallback_ids_count_up() {
    let mut ids = IdGen::new();
    assert_eq!(new_id(&mut ids), "doc-id-0");
    assert_eq!(new_id(&mut ids), "doc-id-1");
    assert_eq!(ids.next_number(), 2);
    let mut ids = IdGen::starting_at(1299);
    assert_eq!(new_id(&mut ids), "doc-id-1299");
    assert_eq!(new_id(&mut ids), "doc-id-1300");
    let mut ids = IdGen::starting_at(u64::MAX - 1);
    assert_eq!(new_id(&mut ids), "doc-id-18446744073709551614");
    assert_eq!(ids.next_number(), u64::MAX);
}

#[test]
fn add_child_appends_and_links_back() {
    let mut document = Document::new();
    let mut ids = IdGen::new();
    let mut config = Config::new();
    config.insert("level".to_string(), ValueWrapper::Number(2));
    let a = document
        .add_child(
            0,
            PushView {
                type_id: "title".to_string(),
                id: Some("a".to_string()),
                tags: vec!["big".to_string()],
                config,
            },
            &mut ids,
        )
        .unwrap();
    let b = document.add_child(0, push("p", Some("b"), &[]), &mut ids).unwrap();
    let c = document.add_child(a, push("p", None, &[]), &mut ids).unwrap();
    assert_eq!((a, b, c), (1, 2, 3));
    assert_eq!(document.len(), 4);
    assert_eq!(document.root().children(), vec![1, 2]);
    assert_eq!(ids_of(&document, 0), vec!["a", "b"]);
    assert_eq!(ids_of(&document, a), vec!["doc-id-0"]);
    let node = document.node(a).unwrap();
    assert_eq!(node.type_id, "title");
    assert_eq!(node.tags, vec!["big".to_string()]);
    assert!(matches!(node.config.get("level"), Some(ValueWrapper::Number(2))));
    assert_eq!(node.parent, Some(0));
    assert!(!node.is_root());
    assert_eq!(node.child_count(), 1);
    assert_eq!(document.node(c).unwrap().parent, Some(a));
    assert_eq!(document.node(b).unwrap().child_count(), 0);
    assert_eq!(ids.next_number(), 1);
}

#[test]
fn add_child_refuses_bad_ids() {
    let mut document = Document::new();
    let mut ids = IdGen::new();
    for bad in ["a b", "", " ", "a\tb", "a\nb", "\u{a0}x", "x\u{3000}", "a\u{2003}b"] {
        match document.add_child(0, push("p", Some(bad), &[]), &mut ids) {
            Err(DocError::SoftError(ErrorType::InvalidId(carried))) => assert_eq!(carried, bad),
            other => panic!("{:?} gave {:?}", bad, other),
        }
    }
    assert_eq!(document.len(), 1);
    assert_eq!(document.root().child_count(), 0);
    assert_eq!(ids.next_number(), 0);
}

#[test]
fn add_child_refuses_an_id_twice() {
    let mut document = Document::new();
    let mut ids = IdGen::new();
    let first = document.add_child(0, push("p", Some("ok"), &[]), &mut ids).unwrap();
    match document.add_child(0, push("q", Some("ok"), &[]), &mut ids) {
        Err(DocError::SoftError(ErrorType::DuplicateId(carried))) => assert_eq!(carried, "ok"),
        other => panic!("unexpected {:?}", other),
    }
    assert_eq!(document.len(), 2);
    assert_eq!(document.node(first).unwrap().type_id, "p");
    assert_eq!(document.root().children(), vec![first]);
    let below = document.add_child(first, push("q", Some("ok"), &[]), &mut ids).unwrap();
    assert_eq!(below, 2);
}

#[test]
fn a_fallback_id_may_be_taken() {
    let mut document = Document::new();
    let mut ids = IdGen::new();
    document.add_child(0, push("p", Some("doc-id-0"), &[]), &mut ids).unwrap();
    match document.add_child(0, push("p", None, &[]), &mut ids) {
        Err(DocError::SoftError(ErrorType::DuplicateId(carried))) => assert_eq!(carried, "doc-id-0"),
        other => panic!("unexpected {:?}", other),
    }
    assert_eq!(ids.next_number(), 1);
    assert_eq!(document.add_child(0, push("p", None, &[]), &mut ids).unwrap(), 2);
    assert_eq!(ids_of(&document, 0), vec!["doc-id-0", "doc-id-1"]);
}

#[test]
fn add_child_refuses_a_parent_outside() {
    let mut document = Document::new();
    let mut ids = IdGen::new();
    match document.add_child(7, push("p", None, &[]), &mut ids) {
        Err(DocError::SoftError(ErrorType::NoMatch(carried))) => assert_eq!(carried, "7"),
        other => panic!("unexpected {:?}", other),
    }
    assert_eq!(document.len(), 1);
    assert_eq!(ids.next_number(), 0);
}

#[test]
fn an_index_counts_among_the_children_of_a_type() {
    let mut document = Document::new();
    let mut ids = IdGen::new();
    let x = document.add_child(0, push("a", Some("x"), &[]), &mut ids).unwrap();
    let y = document.add_child(0, push("a", Some("y"), &[]), &mut ids).unwrap();
    assert!(document.resolve(&path("a:0")));
    assert_eq!(document.locate(&path("a:0")), Some(x));
    assert!(document.resolve(&path("a:1")));
    assert_eq!(document.locate(&path("a:1")), Some(y));
    assert!(!document.resolve(&path("a:2")));
    assert_eq!(document.locate(&path("a:2")), None);
}

fn sample() -> (Document, Vec<usize>) {
    let mut document = Document::new();
    let mut ids = IdGen::new();
    let mut places = vec![];
    places.push(document.add_child(0, push("title", Some("ta"), &["big"]), &mut ids).unwrap());
    places.push(document.add_child(0, push("p", Some("pa"), &["big", "red"]), &mut ids).unwrap());
    places.push(document.add_child(0, push("title", Some("tb"), &["red"]), &mut ids).unwrap());
    places.push(document.add_child(0, push("p", Some("pb"), &[]), &mut ids).unwrap());
    places.push(document.add_child(places[1], push("span", Some("sa"), &["red"]), &mut ids).unwrap());
    places.push(document.add_child(places[1], push("span", Some("ta"), &[]), &mut ids).unwrap());
    (document, places)
}

fn segment(text: &str) -> PathSelectType {
    PathSelectType::from(text).unwrap()
}

#[test]
fn every_kind_of_segment_matches_its_children() {
    let (document, n) = sample();
    assert_eq!(document.get_child(0, &segment("title")), vec![n[0], n[2]]);
    assert_eq!(document.get_child(0, &segment("p")), vec![n[1], n[3]]);
    assert_eq!(document.get_child(0, &segment("span")), vec![]);
    assert_eq!(document.get_child(0, &segment("#pa")), vec![n[1]]);
    assert_eq!(document.get_child(0, &segment("#sa")), vec![]);
    assert_eq!(document.get_child(0, &segment(".big")), vec![n[0], n[1]]);
    assert_eq!(document.get_child(0, &segment(".red")), vec![n[1], n[2]]);
    assert_eq!(document.get_child(0, &segment(".blue")), vec![]);
    assert_eq!(document.get_child(0, &segment(":0")), vec![n[0]]);
    assert_eq!(document.get_child(0, &segment(":3")), vec![n[3]]);
    assert_eq!(document.get_child(0, &segment(":4")), vec![]);
    assert_eq!(document.get_child(0, &segment("title#tb")), vec![n[2]]);
    assert_eq!(document.get_child(0, &segment("p#tb")), vec![]);
    assert_eq!(document.get_child(0, &segment("p#nope")), vec![]);
    assert_eq!(document.get_child(0, &segment("p:0")), vec![n[1]]);
    assert_eq!(document.get_child(0, &segment("p:1")), vec![n[3]]);
    assert_eq!(document.get_child(0, &segment("p:2")), vec![]);
    assert_eq!(document.get_child(0, &segment("title.red")), vec![n[2]]);
    assert_eq!(document.get_child(0, &segment("p.big")), vec![n[1]]);
    assert_eq!(document.get_child(0, &segment("title.blue")), vec![]);
    assert_eq!(document.get_child(n[1], &segment("span")), vec![n[4], n[5]]);
    assert_eq!(document.get_child(n[1], &segment("#ta")), vec![n[5]]);
    assert_eq!(document.get_child(n[0], &segment(":0")), vec![]);
    assert_eq!(document.get_child(99, &segment(":0")), vec![]);
    assert!(document.has_child(0, &segment(".red")));
    assert!(!document.has_child(0, &segment(".blue")));
    assert!(!document.has_child(99, &segment(".red")));
}

#[test]
fn a_path_goes_down_the_first_match() {
    let (document, n) = sample();
    assert_eq!(document.locate(&path("p/span")), Some(n[4]));
    assert_eq!(document.locate(&path(".big")), Some(n[0]));
    assert_eq!(document.locate(&path(".big/span")), None);
    assert_eq!(document.locate(&path(".red/#ta")), Some(n[5]));
    assert_eq!(document.locate(&path("p:1/span")), None);
    assert!(document.resolve(&path("/p#pa/span.red/")));
    assert!(!document.resolve(&path("/p#pa/span.red/x")));
    assert!(!document.resolve(&path("title/span")));
}

#[test]
fn mk_group_twice_adds_nothing_the_second_time() {
    let mut document = Document::new();
    let mut ids = IdGen::new();
    let wanted = path("#intro/group/#deep");
    assert!(!document.resolve(&wanted));
    document.mk_group(&wanted, &mut ids).unwrap();
    assert!(document.resolve(&wanted));
    assert_eq!(document.len(), 4);
    let used = ids.next_number();
    assert_eq!(used, 1);
    let reached = document.locate(&wanted);
    document.mk_group(&wanted, &mut ids).unwrap();
    assert_eq!(document.len(), 4);
    assert_eq!(ids.next_number(), used);
    assert!(document.resolve(&wanted));
    assert_eq!(document.locate(&wanted), reached);
    assert_eq!(ids_of(&document, 0), vec!["intro"]);
    assert_eq!(ids_of(&document, 1), vec!["doc-id-0"]);
    assert_eq!(ids_of(&document, 2), vec!["deep"]);
}

#[test]
fn mk_group_goes_into_what_is_there() {
    let (mut document, n) = sample();
    let mut ids = IdGen::starting_at(50);
    let before = document.len();
    document.mk_group(&path("p/span"), &mut ids).unwrap();
    assert_eq!(document.len(), before);
    document.mk_group(&path("p/#new/#leaf"), &mut ids).unwrap();
    assert_eq!(document.len(), before + 2);
    assert_eq!(ids_of(&document, n[1]), vec!["sa", "ta", "new"]);
    assert_eq!(document.node(before).unwrap().parent, Some(n[1]));
    assert_eq!(document.node(before).unwrap().type_id, "group");
    assert_eq!(document.node(before + 1).unwrap().parent, Some(before));
    assert_eq!(ids.next_number(), 50);
    assert_eq!(document.locate(&path("p/#new/#leaf")), Some(before + 1));
}

#[test]
fn mk_group_makes_groups_whatever_the_segment_asks() {
    let mut document = Document::new();
    let mut ids = IdGen::new();
    let wanted = path("section#intro/title");
    document.mk_group(&wanted, &mut ids).unwrap();
    assert_eq!(document.len(), 3);
    let first = document.node(1).unwrap();
    let second = document.node(2).unwrap();
    assert_eq!(first.type_id, "group");
    assert_eq!(second.type_id, "group");
    assert!(first.tags.is_empty() && second.tags.is_empty());
    assert_eq!(first.config.len(), 0);
    assert_eq!(first.parent, Some(0));
    assert_eq!(second.parent, Some(1));
    assert_eq!(ids_of(&document, 0), vec!["doc-id-0"]);
    assert_eq!(ids_of(&document, 1), vec!["doc-id-1"]);
    assert!(!document.resolve(&wanted));
    document.mk_group(&wanted, &mut ids).unwrap();
    assert_eq!(document.len(), 5);
    assert_eq!(ids_of(&document, 0), vec!["doc-id-0", "doc-id-2"]);
    assert_eq!(ids_of(&document, 3), vec!["doc-id-3"]);
}

#[test]
fn mk_group_with_an_id_and_a_group_resolves_afterwards() {
    let mut document = Document::new();
    let mut ids = IdGen::new();
    let wanted = path("#intro/group");
    document.mk_group(&wanted, &mut ids).unwrap();
    assert_eq!(document.len(), 3);
    assert_eq!(document.node(1).unwrap().type_id, "group");
    assert_eq!(document.node(2).unwrap().type_id, "group");
    assert_eq!(ids_of(&document, 0), vec!["intro"]);
    assert_eq!(ids_of(&document, 1), vec!["doc-id-0"]);
    assert_eq!(document.node(2).unwrap().parent, Some(1));
    assert!(document.resolve(&wanted));
}

#[test]
fn mk_group_stops_at_an_id_it_cannot_use() {
    let mut document = Document::new();
    let mut ids = IdGen::new();
    let wanted = vec![
        PathSelectType::Id("a".to_string()),
        PathSelectType::Id("b c".to_string()),
        PathSelectType::Id("d".to_string()),
    ];
    match document.mk_group(&wanted, &mut ids) {
        Err(DocError::SoftError(ErrorType::InvalidId(carried))) => assert_eq!(carried, "b c"),
        other => panic!("unexpected {:?}", other),
    }
    assert_eq!(document.len(), 2);
    assert_eq!(ids_of(&document, 0), vec!["a"]);
    match document.mk_group(&path("#"), &mut ids) {
        Err(DocError::SoftError(ErrorType::InvalidId(carried))) => assert_eq!(carried, ""),
        other => panic!("unexpected {:?}", other),
    }
}

#[test]
fn mk_group_of_the_empty_path_changes_nothing() {
    let mut document = Document::new();
    let mut ids = IdGen::new();
    document.mk_group(&vec![], &mut ids).unwrap();
    assert_eq!(document.len(), 1);
    assert_eq!(ids.next_number(), 0);
}

#[test]
fn children_come_out_oldest_first() {
    let mut document = Document::new();
    let mut ids = IdGen::new();
    let names = ["z", "m", "a", "q", "b"];
    for name in names {
        document.add_child(0, push("p", Some(name), &[]), &mut ids).unwrap();
    }
    assert_eq!(document.root().children(), vec![1, 2, 3, 4, 5]);
    assert_eq!(document.root().child_count(), 5);
    assert_eq!(ids_of(&document, 0), names);
    for (i, name) in names.iter().enumerate() {
        assert_eq!(document.get_child(0, &PathSelectType::Id(name.to_string())), vec![i + 1]);
        assert_eq!(document.get_child(0, &PathSelectType::Index(i)), vec![i + 1]);
    }
}

#[test]
fn create_adds_under_the_node_a_path_reaches() {
    let (mut document, n) = sample();
    let mut ids = IdGen::new();
    let before = document.len();
    let place = document.create(&path("p/span"), push("em", Some("ea"), &[]), &mut ids).unwrap();
    assert_eq!(place, before);
    assert_eq!(document.node(place).unwrap().parent, Some(n[4]));
    assert_eq!(ids_of(&document, n[4]), vec!["ea"]);
    let top = document.create(&vec![], push("p", None, &[]), &mut ids).unwrap();
    assert_eq!(document.node(top).unwrap().parent, Some(0));
    assert_eq!(ids_of(&document, 0), vec!["ta", "pa", "tb", "pb", "doc-id-0"]);
}

#[test]
fn create_makes_nothing_to_complete_a_path() {
    let (mut document, _) = sample();
    let mut ids = IdGen::new();
    let before = document.len();
    match document.create(&path("/p:1/span#x/.t"), push("em", None, &[]), &mut ids) {
        Err(DocError::SoftError(ErrorType::NoMatch(carried))) => assert_eq!(carried, "/p:1/span#x/.t"),
        other => panic!("unexpected {:?}", other),
    }
    assert_eq!(document.len(), before);
    assert_eq!(ids.next_number(), 0);
    match document.create(&path("p"), push("em", Some("sa"), &[]), &mut ids) {
        Err(DocError::SoftError(ErrorType::DuplicateId(carried))) => assert_eq!(carried, "sa"),
        other => panic!("unexpected {:?}", other),
    }
    match document.create(&path("p"), push("em", Some(""), &[]), &mut ids) {
        Err(DocError::SoftError(ErrorType::InvalidId(carried))) => assert_eq!(carried, ""),
        other => panic!("unexpected {:?}", other),
    }
    assert_eq!(document.len(), before);
}
