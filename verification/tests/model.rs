use mimir_core::model::{
    now_unix, short_uid, unix_stamp, Actor, Kind, MemoryConfidence, MemoryType, Meta, MutationOp,
    Node, Rel, Scope,
};

fn node(id: i64, kind: Kind, subkind: &str, title: &str, body: &str) -> Node {
    Node {
        id,
        uid: format!("01JXGABCDEF123456789{:06}", id),
        kind,
        subkind: Some(subkind.to_string()),
        project_id: None,
        collection_id: None,
        parent_id: None,
        title: Some(title.to_string()),
        body: Some(body.to_string()),
        path: None,
        span_start: None,
        span_end: None,
        lang: None,
        tags_text: String::new(),
        content_hash: None,
        meta: Meta::empty(),
        created_at: 1_780_000_000,
        updated_at: 1_780_000_000,
        access_count: 0,
        last_accessed: None,
        pinned: false,
        superseded_by: None,
        deleted_at: None,
    }
}


#[test]
fn str_enum_round_trips() {
    for kind in Kind::ALL {
        assert_eq!(kind.as_str().parse::<Kind>().unwrap(), kind);
    }
    assert!("bogus".parse::<Kind>().is_err());
    assert_eq!("gotcha".parse::<MemoryType>().unwrap(), MemoryType::Gotcha);
}

#[test]
fn short_uid_uses_tail() {
    let uid = "01JXGABCDEF123456789QRSTUV";
    assert_eq!(short_uid(Kind::Memory, uid), "m:QRSTUV");
    assert_eq!(short_uid(Kind::Project, uid), "p:QRSTUV");
}

#[test]
fn metadata_is_read_from_json() {
    let m = Meta::parse(
        "{\"expires_at\":5,\"resolves_when\":\"done\",\"confidence\":\"unsure\",\
         \"fires_when\":[\"a\",7,\"b\"],\"archived\":1,\"distilled\":true,\"size\":2.5}",
    );
    assert_eq!(m.expires_at, Some(5));
    assert_eq!(m.resolves_when.as_deref(), Some("done"));
    assert_eq!(m.confidence.as_deref(), Some("unsure"));
    assert_eq!(m.fires_when, Some(vec!["a".to_string(), "b".to_string()]));
    assert_eq!(m.archived, Some(1));
    assert_eq!(m.distilled, Some(true));
    assert_eq!(m.size, None);
    assert_eq!(m.anchors, None);
    assert_eq!(m.rough_expiry, None);
    assert!(!m.other_condition);
    let none = Meta::parse("not json");
    assert_eq!(none.expires_at, None);
    assert_eq!(none.fires_when, None);
}

#[test]
fn metadata_in_other_forms_is_read_by_its_value() {
    for (json, archived) in [
        ("1", Some(1)),
        ("true", Some(1)),
        ("1.0", Some(1)),
        ("1e0", Some(1)),
        ("0", Some(0)),
        ("false", None),
        ("1.5", None),
        ("\"1\"", None),
        ("null", None),
    ] {
        let m = Meta::parse(&format!("{{\"archived\":{json}}}"));
        assert_eq!(m.archived, archived, "{json}");
    }
    let m = Meta::parse("{\"expires_at\":1700000000.5,\"resolves_when\":[\"shipped\"]}");
    assert_eq!(m.expires_at, None);
    assert_eq!(m.rough_expiry, Some(1_700_000_001));
    assert_eq!(m.resolves_when, None);
    assert!(m.other_condition);
    let m = Meta::parse("{\"expires_at\":2e16,\"resolves_when\":null}");
    assert_eq!(m.rough_expiry, Some(20_000_000_000_000_000));
    assert!(!m.other_condition);
    let m = Meta::parse("{\"expires_at\":\"5\"}");
    assert_eq!((m.expires_at, m.rough_expiry), (None, None));
}

#[test]
fn an_expired_memory_stays_expired() {
    let mut n = node(1, Kind::Memory, "note", "t", "b");
    assert!(!n.is_expired(i64::MAX));
    n.meta.expires_at = Some(100);
    assert!(!n.is_expired(99));
    assert!(n.is_expired(100) && n.is_expired(101));
    assert_eq!(n.expires_at(), Some(100));
}

#[test]
fn validity_starts_inside_and_ends_outside() {
    let mut n = node(1, Kind::Memory, "note", "t", "b");
    assert_eq!(n.valid_at(50), None);
    n.meta.valid_from = Some(10);
    n.meta.valid_to = Some(20);
    assert_eq!(n.valid_at(9), Some(false));
    assert_eq!(n.valid_at(10), Some(true));
    assert_eq!(n.valid_at(19), Some(true));
    assert_eq!(n.valid_at(20), Some(false));
    assert!(!n.validity_closed(19) && n.validity_closed(20));
    assert_eq!((n.valid_from(), n.valid_to()), (Some(10), Some(20)));
}

#[test]
fn confidence_is_read_by_name() {
    let mut n = node(1, Kind::Memory, "note", "t", "b");
    assert_eq!(n.confidence(), None);
    n.meta.confidence = Some("unsure".into());
    assert_eq!(n.confidence(), Some(MemoryConfidence::Unsure));
    n.meta.confidence = Some("no such word".into());
    assert_eq!(n.confidence(), None);
}

#[test]
fn names_of_rows_read_back() {
    for a in [Actor::Human, Actor::Agent, Actor::System, Actor::Sync] {
        assert_eq!(Actor::from_name(a.as_str()), Some(a));
    }
    assert_eq!(MutationOp::from_name("hard_delete").map(|o| o.as_str()), Some("hard_delete"));
    assert_eq!(Rel::from_name("supersedes"), Some(Rel::Supersedes));
    assert_eq!(Rel::from_name("???"), None);
}

#[test]
fn scopes_cover_their_nodes() {
    assert!(Scope::All.covers(None) && Scope::All.covers(Some(3)));
    assert!(Scope::Global.covers(None) && !Scope::Global.covers(Some(3)));
    assert!(Scope::Project(3).covers(Some(3)) && !Scope::Project(3).covers(Some(4)));
}

#[test]
fn a_node_says_its_body_or_else_its_title() {
    let mut n = node(1, Kind::Memory, "note", "title", "body");
    n.tags_text = " a  b ".into();
    assert_eq!(n.statement(), "body");
    n.body = Some(String::new());
    assert_eq!(n.statement(), "title");
    assert_eq!(n.tags(), vec!["a", "b"]);
}

#[test]
fn the_clock_is_read_in_seconds() {
    assert!(now_unix() > 1_600_000_000);
    assert_eq!(unix_stamp(Some(7)), 7);
    assert_eq!(unix_stamp(None), 0);
}
