use mimir_core::error::Error;
use mimir_core::index::run::{apply_change, drop_files, find_file, live_files};
use mimir_core::index::{
    add_collection, annotate, collection_stats, find_collection, is_markdown, pick_file,
    remove_collection, render_slice, slice_target, Indexer, IndexStats, Registration, Step,
};
use mimir_core::model::{Kind, Meta, NewEdge, NewNode, Node, Rel};

fn node(id: i64, kind: Kind, subkind: &str, title: &str, body: &str) -> Node {
    Node {
        id,
        uid: format!("01JXGABCDEF123456789{:06}", id),
        kind,
        subkind: Some(subkind.to_string()),
        project_id: None,
        collection_id: None,
        parent_id: None,
        title: Some(title.to_string()),
        body: Some(body.to_string()),
        path: None,
        span_start: None,
        span_end: None,
        lang: None,
        tags_text: String::new(),
        content_hash: None,
        meta: Meta::empty(),
        created_at: 1_780_000_000,
        updated_at: 1_780_000_000,
        access_count: 0,
        last_accessed: None,
        pinned: false,
        superseded_by: None,
        deleted_at: None,
    }
}


/// A directory of documents, and the store that indexes it.
struct Shelf {
    files: Vec<(String, String, i64)>,
    nodes: Vec<Node>,
    clock: i64,
}

impl Shelf {
    fn next_id(&self) -> i64 {
        self.nodes.iter().map(|n| n.id).max().unwrap_or(0) + 1
    }

    fn insert(&mut self, new: NewNode) -> i64 {
        let id = self.next_id();
        let uid = format!("01JXGABCDEF123456789{id:06}");
        self.nodes.push(new.stored(id, uid, 1_780_000_000));
        id
    }

    fn write(&mut self, rel: &str, text: &str) {
        self.clock += 1;
        self.files.retain(|f| f.0 != rel);
        self.files.push((rel.to_string(), text.to_string(), self.clock));
    }

    fn collection(&self) -> Node {
        self.nodes[0].clone()
    }

    fn file_at(&self, rel: &str) -> Option<usize> {
        find_file(&self.nodes, 1, rel)
    }

    fn index(&mut self) -> IndexStats {
        let coll = self.collection();
        let now = 1_780_000_000 + self.clock;
        let mut run = Indexer::start(&coll, true).unwrap();
        for (rel, text, mtime) in self.files.clone() {
            if !is_markdown(&rel) {
                continue;
            }
            let size = text.len() as i64;
            let at = self.file_at(&rel);
            let existing = at.map(|i| self.nodes[i].clone());
            if run.on_file(&rel, existing.as_ref(), mtime, size) == Step::Skip {
                continue;
            }
            let change = run.on_content(&rel, existing.as_ref(), &text, &coll, mtime, size);
            let id = self.next_id();
            apply_change(&mut self.nodes, at, change, mtime, size, id, now);
        }
        let gone = run.finish(&live_files(&self.nodes, coll.id));
        drop_files(&mut self.nodes, &gone, now);
        run.stats
    }

    fn hits(&self, word: &str) -> Vec<&Node> {
        self.nodes
            .iter()
            .filter(|n| {
                n.kind == Kind::Chunk
                    && n.deleted_at.is_none()
                    && n.body.as_deref().is_some_and(|b| b.contains(word))
            })
            .collect()
    }
}

fn setup() -> Shelf {
    let mut s = Shelf {
        files: vec![],
        nodes: vec![],
        clock: 100,
    };
    s.write(
        "guide.md",
        "# Install\n\nrun the installer with care\n\n# Use\n\ncall the api twice\n",
    );
    s.write("sub/notes.md", "plain notes about turnips\n");
    s.write("ignored.txt", "not markdown\n");
    match add_collection(&s.nodes, true, "/d", "/d", "docs", None).unwrap() {
        Registration::New(new) => {
            s.insert(new);
        }
        Registration::Existing(_) => panic!("the store was empty"),
    }
    s
}

#[test]
fn index_creates_files_and_chunks_searchably() {
    let mut s = setup();
    let stats = s.index();
    assert_eq!(stats.seen, 2);
    assert_eq!(stats.indexed, 2);
    let (files, chunks) = collection_stats(&s.nodes, 1);
    assert_eq!(files, 2);
    assert!(chunks >= 2);
    let hits = s.hits("turnips");
    assert_eq!(hits.len(), 1);
    assert_eq!(hits[0].path.as_deref(), Some("sub/notes.md"));
}

#[test]
fn reindex_is_incremental_and_detects_changes() {
    let mut s = setup();
    s.index();

    // Untouched second run: nothing re-indexed.
    let before = format!("{:?}", s.nodes);
    let stats = s.index();
    assert_eq!(stats.indexed, 0);
    assert_eq!(stats.unchanged, 2);
    assert_eq!((stats.seen, stats.removed, stats.chunks), (2, 0, 0));
    assert_eq!(format!("{:?}", s.nodes), before);
    let live: Vec<String> = live_files(&s.nodes, 1).into_iter().map(|f| f.1).collect();
    assert_eq!(live, vec!["guide.md", "sub/notes.md"]);

    s.write("sub/notes.md", "plain notes about rutabagas instead\n");
    let stats = s.index();
    assert_eq!(stats.indexed, 1);
    assert_eq!(stats.unchanged, 1);
    assert_eq!(s.hits("rutabagas").len(), 1);
    // Old content is gone from the index.
    assert!(s.hits("turnips").is_empty());
}

#[test]
fn missing_files_soft_deleted_and_resurrected() {
    let mut s = setup();
    s.index();

    s.files.retain(|f| f.0 != "sub/notes.md");
    let stats = s.index();
    assert_eq!(stats.removed, 1);
    let (files, _) = collection_stats(&s.nodes, 1);
    assert_eq!(files, 1);

    // File comes back → resurrected, not duplicated.
    s.write("sub/notes.md", "plain notes about turnips\n");
    s.clock += 50;
    let stats = s.index();
    assert_eq!(stats.indexed, 1);
    assert_eq!((stats.seen, stats.unchanged), (2, 1));
    assert_eq!((stats.removed, stats.chunks), (0, 1));
    let back = &s.nodes[s.file_at("sub/notes.md").unwrap()];
    assert_eq!(back.deleted_at, None);
    assert_eq!(back.meta.size, Some(26));
    assert_eq!(back.meta.mtime, Some(104));
    assert_eq!(collection_stats(&s.nodes, 1).0, 2);
    assert_eq!(s.hits("turnips").len(), 1);
    let count = s
        .nodes
        .iter()
        .filter(|n| n.kind == Kind::File && n.path.as_deref() == Some("sub/notes.md"))
        .count();
    assert_eq!(count, 1);
}

#[test]
fn add_collection_idempotent_and_remove_cascades() {
    let mut s = setup();
    s.index();
    match add_collection(&s.nodes, true, "/d", "/d", "docs", None).unwrap() {
        Registration::Existing(i) => assert_eq!(s.nodes[i].id, 1),
        Registration::New(_) => panic!("registered twice"),
    }
    remove_collection(&mut s.nodes, 1, 5);
    assert_eq!(collection_stats(&s.nodes, 1), (0, 0));
    assert!(find_collection(&s.nodes, "docs", "").is_err());
}

#[test]
fn annotate_attaches_describes_edge() {
    let s = setup();
    let coll = s.collection();
    let (note, edge) = annotate(&coll, "these docs cover the v2 api only", 77);
    let edges = vec![edge];
    assert_eq!(edges.len(), 1);
    assert_eq!(edges[0].dst, coll.id);
    assert_eq!(
        edges[0],
        NewEdge {
            src: 77,
            dst: coll.id,
            rel: Rel::Describes
        }
    );
    assert_eq!(note.kind, Some(Kind::Annotation));
    assert_eq!(note.collection_id, Some(coll.id));
    assert_eq!(note.body.as_deref(), Some("these docs cover the v2 api only"));
}

#[test]
fn touching_a_file_without_changing_it_indexes_nothing() {
    let mut s = setup();
    s.index();
    s.write("sub/notes.md", "plain notes about turnips\n");
    let stats = s.index();
    assert_eq!((stats.indexed, stats.unchanged), (0, 2));
    assert_eq!(s.hits("turnips").len(), 1);
}

#[test]
fn a_collection_needs_a_directory() {
    assert!(add_collection(&vec![], false, "/d", "/d", "docs", None).is_err());
    let mut coll = setup().collection();
    assert!(Indexer::start(&coll, false).is_err());
    coll.path = None;
    assert!(matches!(
        Indexer::start(&coll, true),
        Err(Error::Invalid(_))
    ));
    match find_collection(&vec![], "docs", "") {
        Err(e) => assert!(e.message().contains("docs")),
        Ok(_) => panic!("found in an empty store"),
    }
}

#[test]
fn slices_name_a_file_and_its_lines() {
    assert_eq!(
        slice_target("src/a.rs:3-5"),
        Some(("src/a.rs".to_string(), Some((3, 5))))
    );
    let text = render_slice("a.md", "one\ntwo\nthree\nfour\n", Some((2, 3)));
    assert!(text.contains("two") && text.contains("three"), "{text}");
    assert!(!text.contains("four"), "{text}");
}

#[test]
fn an_ambiguous_path_is_refused() {
    let file = |id: i64, path: &str| {
        let mut n = node(id, Kind::File, "", "f", "");
        n.path = Some(path.to_string());
        n.collection_id = Some(40 + id);
        n
    };
    assert!(matches!(pick_file("a.md", &vec![]), Ok(None)));
    assert!(matches!(
        pick_file("a.md", &vec![file(7, "x/a.md")]),
        Ok(Some(47))
    ));
    let two = vec![file(7, "x/a.md"), file(8, "y/a.md")];
    assert!(matches!(
        pick_file("a.md", &two),
        Err(Error::AmbiguousRef(_, 2))
    ));
}
