use mimir_core::index::chunker::{
    chunk_markdown, chunk_plain_text, chunk_source, plain_text_kind, DocChunk, PlainTextKind,
    Symbol, MAX_WORDS, OVERLAP_WORDS, PLAIN_TEXT_SIZE_CAP,
};

#[test]
fn empty_and_trivial_docs() {
    assert!(chunk_markdown("doc", "").is_empty());
    let chunks = chunk_markdown("doc", "just one line\n");
    assert_eq!(chunks.len(), 1);
    assert_eq!(chunks[0].title, "doc");
    assert_eq!((chunks[0].start_line, chunks[0].end_line), (1, 1));
}

#[test]
fn breadcrumbs_follow_heading_tree() {
    let md = "\
intro text before any heading

# Setup

setup paragraph

## Linux

linux details

## Windows

windows details

# Usage

usage paragraph
";
    let chunks = chunk_markdown("guide", md);
    let titles: Vec<&str> = chunks.iter().map(|c| c.title.as_str()).collect();
    // Small sections merge forward, but the first chunk keeps the root crumb.
    assert_eq!(titles[0], "guide");
    let joined = chunks
        .iter()
        .map(|c| c.body.as_str())
        .collect::<Vec<_>>()
        .join("\n");
    for text in [
        "intro text",
        "setup paragraph",
        "linux details",
        "windows details",
        "usage paragraph",
    ] {
        assert!(joined.contains(text), "missing {text}");
    }
}

#[test]
fn big_sections_get_their_own_crumbs() {
    let para = "word ".repeat(80);
    let md = format!("# Alpha\n\n{para}\n\n{para}\n\n## Beta\n\n{para}\n\n{para}\n");
    let chunks = chunk_markdown("doc", &md);
    assert!(chunks.iter().any(|c| c.title == "doc › Alpha"));
    assert!(chunks.iter().any(|c| c.title == "doc › Alpha › Beta"));
}

#[test]
fn fenced_code_never_splits() {
    let prose = "word ".repeat(350);
    let code = format!("```rust\n{}\n```", "let x = 1;\n".repeat(50));
    let md = format!("# Code\n\n{prose}\n\n{code}\n\n{prose}\n");
    let chunks = chunk_markdown("doc", &md);
    let with_fence: Vec<&DocChunk> = chunks
        .iter()
        .filter(|c| c.body.contains("```rust"))
        .collect();
    assert_eq!(with_fence.len(), 1);
    // The whole fence must be inside that one chunk.
    assert_eq!(with_fence[0].body.matches("```").count(), 2);
}

#[test]
fn blank_lines_inside_fences_do_not_split() {
    let md = "# X\n\nbefore\n\n```\nline1\n\nline2\n```\n\nafter\n";
    let chunks = chunk_markdown("doc", md);
    assert_eq!(chunks.len(), 1);
    assert!(chunks[0].body.contains("line1\n\nline2"));
}

#[test]
fn oversized_sections_split_with_overlap() {
    // Paragraphs small enough (≈27 words) to fit the 40-word overlap budget.
    let para = |i: usize| format!("paragraph {i} {}", "filler ".repeat(25));
    let md = format!(
        "# Long\n\n{}\n",
        (0..24).map(para).collect::<Vec<_>>().join("\n\n")
    );
    let chunks = chunk_markdown("doc", &md);
    assert!(
        chunks.len() >= 2,
        "expected several chunks, got {}",
        chunks.len()
    );
    for c in &chunks {
        let words = c.body.split_whitespace().count();
        assert!(words <= MAX_WORDS + OVERLAP_WORDS, "chunk too big: {words}");
    }
    // Adjacent chunks overlap: chunk 1 ends with what chunk 2 starts with.
    let first_para_of_second = chunks[1].body.split("\n\n").next().unwrap();
    assert!(
        chunks[0].body.contains(first_para_of_second),
        "no overlap between adjacent chunks"
    );
    // Line spans are sane and ordered.
    assert!(chunks[0].start_line <= chunks[0].end_line);
    assert!(chunks[0].start_line < chunks[1].start_line);
}

#[test]
fn line_spans_match_source() {
    let md = "# H\n\nalpha\nbeta\n\ngamma\n";
    let chunks = chunk_markdown("doc", md);
    assert_eq!(chunks.len(), 1);
    assert_eq!(chunks[0].start_line, 3);
    assert_eq!(chunks[0].end_line, 6);
}

fn symbol(name: &str, kind: &str, start: usize, end: usize) -> Symbol {
    Symbol {
        start_line: start,
        end_line: end,
        qualified: name.to_string(),
        kind: kind.to_string(),
        signature: String::new(),
    }
}

#[test]
fn chunk_source_finds_function_body_and_imports() {
    let src = "use std::fmt;\n\nfn distinctive_needle_marker() {\n    println!(\"hi\");\n}\n";
    let symbols = vec![symbol("distinctive_needle_marker", "fn", 3, 5)];
    let chunks = chunk_source(&symbols, "crate/lib.rs", src);
    assert!(
        chunks
            .iter()
            .any(|c| c.body.contains("distinctive_needle_marker")),
        "function body missing from any chunk"
    );
    assert!(
        chunks.iter().any(|c| c.body.contains("use std::fmt;")),
        "remainder (import) line missing from any chunk"
    );
}

#[test]
fn chunk_source_nested_class_does_not_duplicate_method_body() {
    // A class and its method are both symbols with overlapping spans: the
    // method claims its own body, and the class does not repeat it.
    let src = "\
class Widget {
    render() {
        return marker_only_in_method_body();
    }
}
";
    let symbols = vec![symbol("Widget", "class", 1, 5), symbol("render", "method", 2, 4)];
    let chunks = chunk_source(&symbols, "widget.ts", src);
    let with_marker: Vec<_> = chunks
        .iter()
        .filter(|c| c.body.contains("marker_only_in_method_body"))
        .collect();
    assert_eq!(
        with_marker.len(),
        1,
        "method body should appear in exactly one chunk, got {}: {:#?}",
        with_marker.len(),
        chunks
    );
}

#[test]
fn chunk_source_empty_is_empty() {
    assert!(chunk_source(&vec![], "empty.rs", "").is_empty());
}

#[test]
fn chunk_plain_text_does_not_treat_comments_as_headings() {
    // A markdown pass would read `# syntax=...` as a heading and split the
    // crumb tree on it.
    let toml = "# syntax=docker/dockerfile:1\nname = \"mimir\"\nversion = \"0.13.0\"\n";
    let chunks = chunk_plain_text("Cargo.toml", toml);
    assert_eq!(chunks.len(), 1);
    assert_eq!(chunks[0].title, "Cargo.toml");
    assert!(chunks[0].body.contains("# syntax=docker/dockerfile:1"));
    assert!(chunks[0].body.contains("version = \"0.13.0\""));
}

#[test]
fn chunk_plain_text_splits_on_blank_lines_like_markdown() {
    let ini = "[core]\nrepositoryformatversion = 0\n\n[remote \"origin\"]\nurl = https://example.com\n";
    let chunks = chunk_plain_text("config", ini);
    assert_eq!(chunks.len(), 1);
    assert!(chunks[0].body.contains("[core]"));
    assert!(chunks[0].body.contains("[remote \"origin\"]"));
}

#[test]
fn chunk_plain_text_empty_is_empty() {
    assert!(chunk_plain_text("empty.txt", "").is_empty());
}

#[test]
fn plain_text_kind_whitelist() {
    for name in [
        "Cargo.toml",
        "config.yaml",
        "config.yml",
        "data.json",
        "run.sh",
        "run.bash",
        "settings.ini",
    ] {
        assert_eq!(
            plain_text_kind(name, 100),
            Some(PlainTextKind::Config),
            "{name} should be Config"
        );
    }
    for name in ["Dockerfile", "Makefile", ".env.example"] {
        assert_eq!(
            plain_text_kind(name, 100),
            Some(PlainTextKind::Config),
            "{name} should be Config"
        );
    }
    for name in ["notes.txt", "readme.rst"] {
        assert_eq!(
            plain_text_kind(name, 100),
            Some(PlainTextKind::Prose),
            "{name} should be Prose"
        );
    }
}

#[test]
fn plain_text_kind_never_real_env() {
    assert_eq!(plain_text_kind(".env", 100), None);
    assert_eq!(plain_text_kind(".env.local", 100), None);
    assert_eq!(plain_text_kind(".env.production", 100), None);
    // The template is fine — it's the one meant to be checked in.
    assert_eq!(
        plain_text_kind(".env.example", 100),
        Some(PlainTextKind::Config)
    );
}

#[test]
fn plain_text_kind_blacklists_lockfiles() {
    for name in [
        "Cargo.lock",
        "package-lock.json",
        "yarn.lock",
        "pnpm-lock.yaml",
        "go.sum",
    ] {
        assert_eq!(plain_text_kind(name, 100), None, "{name} should be excluded");
    }
}

#[test]
fn plain_text_kind_enforces_size_cap() {
    assert_eq!(
        plain_text_kind("big.json", (PLAIN_TEXT_SIZE_CAP + 1) as i64),
        None
    );
    assert_eq!(
        plain_text_kind("small.json", PLAIN_TEXT_SIZE_CAP as i64),
        Some(PlainTextKind::Config)
    );
}

#[test]
fn plain_text_kind_ignores_unlisted_extensions() {
    assert_eq!(plain_text_kind("photo.png", 100), None);
    assert_eq!(plain_text_kind("data.bin", 100), None);
}

#[test]
fn every_written_line_is_in_a_chunk() {
    let long = "alpha beta gamma delta ".repeat(90);
    let text = format!(
        "opening line\n\n# One\n\nshort\n\n```\nlet x = 1;\n\nlet y = 2;\n```\n\n{long}\n{long}\n\n\
         ## Two\n\ntail of two\n\n# Three\n\nlast words\n"
    );
    let chunks = chunk_markdown("doc", &text);
    for line in text.lines().filter(|l| !l.trim().is_empty() && !l.starts_with('#')) {
        assert!(chunks.iter().any(|c| c.body.contains(line)), "lost: {line}");
    }
    let plain = chunk_plain_text("doc", &text);
    let symbols = vec![];
    let source = chunk_source(&symbols, "doc", &text);
    for line in text.lines().filter(|l| !l.trim().is_empty()) {
        assert!(plain.iter().any(|c| c.body.contains(line)), "lost: {line}");
        assert!(source.iter().any(|c| c.body.contains(line)), "lost: {line}");
    }
}
