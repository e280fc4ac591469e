use mimir_core::error::Error;
use mimir_core::format::full_date;
use mimir_core::import::{
    claude_memory, is_memory_file, openbrain, parse_us_date, qmd_collections, read_header,
    split_frontmatter, tally, ImportStats, Incoming,
};
use mimir_core::memory::{remember, Remember, RememberOutcome};
use mimir_core::model::{Actor, Kind, MemoryType, Meta, Node};

fn node(id: i64, kind: Kind, subkind: &str, title: &str, body: &str) -> Node {
    Node {
        id,
        uid: format!("01JXGABCDEF123456789{:06}", id),
        kind,
        subkind: Some(subkind.to_string()),
        project_id: None,
        collection_id: None,
        parent_id: None,
        title: Some(title.to_string()),
        body: Some(body.to_string()),
        path: None,
        span_start: None,
        span_end: None,
        lang: None,
        tags_text: String::new(),
        content_hash: None,
        meta: Meta::empty(),
        created_at: 1_780_000_000,
        updated_at: 1_780_000_000,
        access_count: 0,
        last_accessed: None,
        pinned: false,
        superseded_by: None,
        deleted_at: None,
    }
}


fn store_all(nodes: &mut Vec<Node>, items: Vec<Incoming>) -> ImportStats {
    let mut outcomes: Vec<RememberOutcome> = vec![];
    for item in items {
        let out = remember(
            Remember {
                text: item.text,
                mtype: item.mtype,
                tags: item.tags,
                project_id: None,
                force: false,
                actor: Actor::System,
            },
            nodes.clone(),
            vec![],
            nodes.clone(),
        );
        if let RememberOutcome::Created { node: new, .. } = &out {
            let id = nodes.len() as i64 + 1;
            let mut n = node(id, Kind::Memory, "note", "", "");
            n.subkind = new.subkind.clone();
            n.title = new.title.clone();
            n.body = new.body.clone();
            n.tags_text = new.tags.join(" ");
            n.content_hash = new.content_hash.clone();
            if let Some(at) = item.created_at {
                n.created_at = at;
            }
            nodes.push(n);
        }
        outcomes.push(out);
    }
    tally(&outcomes)
}

#[test]
fn openbrain_round_trip() {
    let export = "104 recent thought(s):\n\n\
1. [6/11/2026] (observation - rust, mcp)\n   rmcp gotcha: ServerInfo is non_exhaustive.\n   Use the builder instead.\n\n\
2. [6/4/2026] (reference - go2rtc, WebSocket)\n   go2rtc /api/ws protocol notes.\n\n\
3. [5/1/2026] (idea)\n   Build a thing that does stuff.\n";
    let mut nodes: Vec<Node> = vec![];
    let stats = store_all(&mut nodes, openbrain(export).unwrap());
    assert_eq!(stats.imported, 3);
    // Re-import: everything is a duplicate.
    let again = store_all(&mut nodes, openbrain(export).unwrap());
    assert_eq!(again.imported, 0);
    assert_eq!(again.skipped_duplicates, 3);

    // Types, tags, dates mapped.
    let n = nodes
        .iter()
        .find(|n| n.body.as_deref().unwrap().starts_with("rmcp gotcha"))
        .unwrap();
    assert_eq!(n.subkind.as_deref(), Some("insight"));
    assert!(n.tags_text.contains("rust") && n.tags_text.contains("mcp"));
    assert_eq!(full_date(n.created_at), "2026-06-11");
}

#[test]
fn claude_memory_import() {
    let file = "---\nname: prefers-rebase\ndescription: d\nmetadata:\n  type: feedback\n---\n\nThe user prefers rebase over merge.\n";
    let files = vec![
        (
            "MEMORY.md".to_string(),
            "# Memory index\n- skip me\n".to_string(),
        ),
        ("prefers-rebase.md".to_string(), file.to_string()),
    ];
    let mut nodes: Vec<Node> = vec![];
    let stats = store_all(&mut nodes, claude_memory("/m", &files, "imported").unwrap());
    assert_eq!(stats.imported, 1);
    assert_eq!(nodes[0].subkind.as_deref(), Some("insight"));
    assert!(nodes[0].tags_text.contains("prefers-rebase"));
    assert_eq!(nodes[0].tags_text, "imported prefers-rebase");
}

#[test]
fn qmd_yaml_subset() {
    let yml = "collections:\n  book1:\n    path: /home/x/drafts\n    pattern: ch*.md\n  notes:\n    path: /home/x/notes\n    pattern: \"**/*.md\"\n";
    let cols = qmd_collections(yml);
    assert_eq!(
        cols,
        vec![
            ("book1".to_string(), "/home/x/drafts".to_string()),
            ("notes".to_string(), "/home/x/notes".to_string())
        ]
    );
}

#[test]
fn an_export_without_entries_is_refused() {
    assert!(matches!(openbrain("nothing here"), Err(Error::Invalid(_))));
    assert!(matches!(
        claude_memory("/m", &vec![], "imported"),
        Err(Error::Invalid(_))
    ));
}

#[test]
fn dates_are_read_month_first() {
    assert_eq!(parse_us_date("1/1/1970"), Some(0));
    assert_eq!(parse_us_date("6/11/2026").map(full_date).as_deref(), Some("2026-06-11"));
    assert_eq!(parse_us_date("6/11"), None);
    assert_eq!(parse_us_date("a/b/c"), None);
}

#[test]
fn headers_name_date_type_and_tags() {
    let h = read_header("12. [1/2/1970] (task - a, b)").unwrap();
    assert_eq!(h.created_at, Some(86_400));
    assert_eq!(h.tags, vec!["a", "b"]);
    assert!(read_header("no header").is_none());
    assert_eq!(
        read_header("3. [5/1/2026] (idea)").unwrap().mtype,
        MemoryType::Idea
    );
}

#[test]
fn frontmatter_is_split_from_the_body() {
    let (front, body) = split_frontmatter("---\nname: x\nmetadata:\n  type: user\n---\nbody\n");
    assert_eq!(front.as_deref(), Some("user"));
    assert_eq!(body.trim(), "body");
    assert_eq!(split_frontmatter("plain").0, None);
    assert!(is_memory_file("note.md"));
    assert!(!is_memory_file("MEMORY.md") && !is_memory_file("note.txt"));
}

#[test]
fn refused_memories_count_as_skipped() {
    let stats = tally(&vec![
        RememberOutcome::Duplicate(node(1, Kind::Memory, "note", "a", "a")),
        RememberOutcome::Forgotten(node(2, Kind::Memory, "note", "b", "b")),
    ]);
    assert_eq!(
        stats,
        ImportStats {
            imported: 0,
            skipped_duplicates: 2
        }
    );
    assert_eq!(ImportStats::default().imported, 0);
}
