//! Embeddings: which models there are, when one may be loaded, which nodes need an
//! embedding, and how a batch of them is worked off.
//!
//! A model is downloaded only on explicit request. A marker file that the first
//! successful load leaves behind is what allows silent loads later. Running the model
//! is the caller's: it is handed texts and gives back vectors.

use vstd::prelude::*;
use vstd::utf8::encode_utf8;

use crate::config::Paths;
use crate::error::{Error, Result};
use crate::memory::blake3_hash;
#[allow(unused_imports)]
use crate::memory::blake3_of;
use crate::model::{Kind, Node};
use crate::paths::join_below;
#[allow(unused_imports)]
use crate::paths::below;
use crate::seqs::{copy_bytes, same_bytes};
#[allow(unused_imports)]
use crate::seqs::{first_where, lemma_first_where, lemma_first_where_is, lemma_first_where_none};
use crate::text::same;
#[allow(unused_imports)]
use vstd::string::*;

verus! {

/// How many texts the model is given at once.
pub const EMBED_BATCH: usize = 64;

/// How many nodes are written in one transaction.
pub const TX_BATCH: usize = 256;

/// Name of the GPU backend built in, if any: none.
pub fn gpu_backend() -> (r: Option<&'static str>)
    ensures
        r is None,
{
    None
}

// ---------------------------------------------------------------------
// Models
// ---------------------------------------------------------------------

/// Where a model's weights come from.
#[derive(Debug, Clone, Copy, PartialEq, Eq, Structural)]
pub enum ModelSource {
    /// From the registry: the quantized port of bge-small, the default.
    BgeSmall,
    /// From the registry.
    BgeBase,
    /// From the registry.
    MiniLm,
    /// Fetched by file; in no registry.
    Granite,
}

/// The model of a name.
pub open spec fn model_named(name: Seq<char>) -> Option<ModelSource> {
    if name == "bge-small-en-v1.5"@ || name == "bge-small-en-v1.5-q"@ {
        Some(ModelSource::BgeSmall)
    } else if name == "bge-base-en-v1.5"@ {
        Some(ModelSource::BgeBase)
    } else if name == "all-minilm-l6-v2"@ {
        Some(ModelSource::MiniLm)
    } else if name == "granite-embedding-small-r2"@ {
        Some(ModelSource::Granite)
    } else {
        None
    }
}

/// The model of a name.
pub fn model_from_name(name: &str) -> (r: Result<ModelSource>)
    ensures
        match r {
            Ok(m) => model_named(name@) == Some(m),
            Err(e) => model_named(name@) is None && e is Invalid && e->Invalid_0@
                == "unknown embedding model '"@ + name@ + "' (try bge-small-en-v1.5)"@,
        },
{
    if same(name, "bge-small-en-v1.5") || same(name, "bge-small-en-v1.5-q") {
        Ok(ModelSource::BgeSmall)
    } else if same(name, "bge-base-en-v1.5") {
        Ok(ModelSource::BgeBase)
    } else if same(name, "all-minilm-l6-v2") {
        Ok(ModelSource::MiniLm)
    } else if same(name, "granite-embedding-small-r2") {
        Ok(ModelSource::Granite)
    } else {
        let mut msg = "unknown embedding model '".to_owned();
        msg.append(name);
        msg.append("' (try bge-small-en-v1.5)");
        Err(Error::Invalid(msg))
    }
}

/// Where a reranker's weights come from.
#[derive(Debug, Clone, Copy, PartialEq, Eq, Structural)]
pub enum RerankerSource {
    /// From the registry: the default.
    JinaTurbo,
    /// The same weights, quantized; fetched by file.
    JinaTurboInt8,
    /// From the registry.
    BgeBase,
    /// From the registry.
    BgeV2M3,
    /// From the registry.
    JinaMultilingual,
}

/// The reranker of a name.
pub open spec fn reranker_named(name: Seq<char>) -> Option<RerankerSource> {
    if name == "jina-reranker-v1-turbo-en"@ {
        Some(RerankerSource::JinaTurbo)
    } else if name == "jina-reranker-v1-turbo-en-int8"@ {
        Some(RerankerSource::JinaTurboInt8)
    } else if name == "bge-reranker-base"@ {
        Some(RerankerSource::BgeBase)
    } else if name == "bge-reranker-v2-m3"@ {
        Some(RerankerSource::BgeV2M3)
    } else if name == "jina-reranker-v2-base-multilingual"@ {
        Some(RerankerSource::JinaMultilingual)
    } else {
        None
    }
}

/// The reranker of a name.
pub fn reranker_from_name(name: &str) -> (r: Result<RerankerSource>)
    ensures
        match r {
            Ok(m) => reranker_named(name@) == Some(m),
            Err(e) => reranker_named(name@) is None && e is Invalid && e->Invalid_0@
                == "unknown reranker model '"@ + name@ + "' (try jina-reranker-v1-turbo-en)"@,
        },
{
    if same(name, "jina-reranker-v1-turbo-en") {
        Ok(RerankerSource::JinaTurbo)
    } else if same(name, "jina-reranker-v1-turbo-en-int8") {
        Ok(RerankerSource::JinaTurboInt8)
    } else if same(name, "bge-reranker-base") {
        Ok(RerankerSource::BgeBase)
    } else if same(name, "bge-reranker-v2-m3") {
        Ok(RerankerSource::BgeV2M3)
    } else if same(name, "jina-reranker-v2-base-multilingual") {
        Ok(RerankerSource::JinaMultilingual)
    } else {
        let mut msg = "unknown reranker model '".to_owned();
        msg.append(name);
        msg.append("' (try jina-reranker-v1-turbo-en)");
        Err(Error::Invalid(msg))
    }
}

/// The file that a successful load of a model leaves behind.
pub open spec fn marker_of(models_dir: Seq<char>, name: Seq<char>) -> Seq<char> {
    below(models_dir, "."@ + name + ".ready"@)
}

/// The file that a successful load of a model leaves behind.
pub fn marker_path(paths: &Paths, name: &str) -> (r: String)
    ensures
        r@ == marker_of(paths.models_dir@, name@),
{
    let mut file = ".".to_owned();
    file.append(name);
    file.append(".ready");
    join_below(paths.models_dir.as_str(), file.as_str())
}

/// Whether a model was loaded before: whether its marker is there, as `is_there` says.
pub fn model_ready<F: Fn(&str) -> bool>(paths: &Paths, name: &str, is_there: F) -> (r: bool)
    requires
        forall|s: &str| call_requires(is_there, (s,)),
    ensures
        exists|marker: &str| #[trigger]
            call_ensures(is_there, (marker,), r) && marker@ == marker_of(paths.models_dir@, name@),
{
    let marker = marker_path(paths, name);
    let r = is_there(marker.as_str());
    r
}

/// The model to be loaded. A silent load is refused unless the model was loaded
/// before, so that it never touches the network.
pub fn embedder_source(name: &str, allow_download: bool, ready: bool) -> (r: Result<ModelSource>)
    ensures
        match r {
            Ok(m) => (allow_download || ready) && model_named(name@) == Some(m),
            Err(e) => e is Invalid && if !allow_download && !ready {
                e->Invalid_0@ == "embedding model '"@ + name@
                    + "' not downloaded; run `mimir init` or `mimir embed --fetch`"@
            } else {
                model_named(name@) is None && e->Invalid_0@ == "unknown embedding model '"@ + name@
                    + "' (try bge-small-en-v1.5)"@
            },
        },
{
    if !allow_download && !ready {
        let mut msg = "embedding model '".to_owned();
        msg.append(name);
        msg.append("' not downloaded; run `mimir init` or `mimir embed --fetch`");
        return Err(Error::Invalid(msg));
    }
    model_from_name(name)
}

/// The reranker to be loaded, under the same gate.
pub fn reranker_source(name: &str, allow_download: bool, ready: bool) -> (r: Result<
    RerankerSource,
>)
    ensures
        match r {
            Ok(m) => (allow_download || ready) && reranker_named(name@) == Some(m),
            Err(e) => e is Invalid && if !allow_download && !ready {
                e->Invalid_0@ == "reranker model '"@ + name@
                    + "' not downloaded; run `mimir embed --fetch --rerank`"@
            } else {
                reranker_named(name@) is None && e->Invalid_0@ == "unknown reranker model '"@ + name@
                    + "' (try jina-reranker-v1-turbo-en)"@
            },
        },
{
    if !allow_download && !ready {
        let mut msg = "reranker model '".to_owned();
        msg.append(name);
        msg.append("' not downloaded; run `mimir embed --fetch --rerank`");
        return Err(Error::Invalid(msg));
    }
    reranker_from_name(name)
}

// ---------------------------------------------------------------------
// Vectors as bytes
// ---------------------------------------------------------------------

/// The bytes of numbers of 32 bits, the lowest byte first.
pub open spec fn blob_of(v: Seq<u32>) -> Seq<u8>
    decreases v.len(),
{
    if v.len() == 0 {
        Seq::empty()
    } else {
        let n = v.last() as int;
        blob_of(v.drop_last()) + seq![
            (n % 256) as u8,
            (n / 256 % 256) as u8,
            (n / 65_536 % 256) as u8,
            (n / 16_777_216) as u8,
        ]
    }
}

/// The numbers of 32 bits that bytes hold; bytes left over at the end are ignored.
pub open spec fn numbers_of(b: Seq<u8>) -> Seq<u32> {
    Seq::new(
        b.len() / 4,
        |i: int|
            (b[4 * i] + 256 * b[4 * i + 1] + 65_536 * b[4 * i + 2] + 16_777_216 * b[4 * i
                + 3]) as u32,
    )
}

/// The stored form of a vector, given by the bits of its numbers.
pub fn to_blob(v: &Vec<u32>) -> (r: Vec<u8>)
    ensures
        r@ == blob_of(v@),
{
    let mut out: Vec<u8> = Vec::new();
    let mut i: usize = 0;
    assert(out@ =~= blob_of(v@.take(0)));
    while i < v.len()
        invariant
            i <= v@.len(),
            out@ == blob_of(v@.take(i as int)),
        decreases v@.len() - i,
    {
        assert(v@.take(i + 1).drop_last() =~= v@.take(i as int));
        let ghost before = out@;
        let n: u32 = v[i];
        out.push((n % 256) as u8);
        out.push((n / 256 % 256) as u8);
        out.push((n / 65_536 % 256) as u8);
        out.push((n / 16_777_216) as u8);
        assert(out@ =~= before + seq![
            (n as int % 256) as u8,
            (n as int / 256 % 256) as u8,
            (n as int / 65_536 % 256) as u8,
            (n as int / 16_777_216) as u8,
        ]);
        i += 1;
    }
    assert(v@.take(v@.len() as int) =~= v@);
    out
}

/// The bits of the numbers of a stored vector.
pub fn from_blob(b: &Vec<u8>) -> (r: Vec<u32>)
    ensures
        r@ == numbers_of(b@),
{
    let len: usize = b.len();
    let n: usize = len / 4;
    let mut out: Vec<u32> = Vec::new();
    let mut i: usize = 0;
    while i < n
        invariant
            i <= n,
            len == b@.len(),
            n == len / 4,
            out@.len() == i,
            forall|k: int| 0 <= k < i ==> #[trigger] out@[k] == numbers_of(b@)[k],
        decreases n - i,
    {
        let k: usize = 4 * i;
        let x: u32 = b[k] as u32 + 256 * (b[k + 1] as u32) + 65_536 * (b[k + 2] as u32)
            + 16_777_216 * (b[k + 3] as u32);
        out.push(x);
        i += 1;
    }
    assert(out@ =~= numbers_of(b@));
    out
}

/// A number of 32 bits is made of its four bytes.
proof fn lemma_bytes_of(n: u32)
    ensures
        n == n % 256 + 256 * (n / 256 % 256) + 65_536 * (n / 65_536 % 256) + 16_777_216 * (n
            / 16_777_216),
        n / 16_777_216 < 256,
{
    let a = n / 256;
    let b = n / 65_536;
    let c = n / 16_777_216;
    assert(b == a / 256);
    assert(c == b / 256);
    assert(n == 256 * a + n % 256);
    assert(a == 256 * b + a % 256);
    assert(b == 256 * c + b % 256);
}

/// A vector that is stored reads back as that vector.
pub proof fn blobs_read_back(v: Seq<u32>)
    ensures
        blob_of(v).len() == 4 * v.len(),
        numbers_of(blob_of(v)) == v,
    decreases v.len(),
{
    if v.len() > 0 {
        let t = v.drop_last();
        blobs_read_back(t);
        let b = blob_of(v);
        let a = blob_of(t);
        assert forall|i: int| 0 <= i < v.len() implies #[trigger] numbers_of(b)[i] == v[i] by {
            if i < t.len() {
                assert(b[4 * i] == a[4 * i]);
                assert(b[4 * i + 1] == a[4 * i + 1]);
                assert(b[4 * i + 2] == a[4 * i + 2]);
                assert(b[4 * i + 3] == a[4 * i + 3]);
                assert(numbers_of(a)[i] == t[i]);
            } else {
                let n = v.last();
                lemma_bytes_of(n);
                assert(b[4 * i] == n % 256);
                assert(b[4 * i + 1] == n / 256 % 256);
                assert(b[4 * i + 2] == n / 65_536 % 256);
                assert(b[4 * i + 3] == n / 16_777_216);
            }
        }
        assert(numbers_of(b) =~= v);
    } else {
        assert(numbers_of(blob_of(v)) =~= v);
    }
}

// ---------------------------------------------------------------------
// Pending work
// ---------------------------------------------------------------------

/// A stored embedding: of a node, by a model, of that content.
#[derive(Debug, Clone)]
pub struct Embedding {
    pub node_id: i64,
    pub model: String,
    pub dim: i64,
    pub vec: Vec<u8>,
    pub content_hash: Vec<u8>,
}

/// Kinds whose body takes part in semantic recall.
pub open spec fn is_embeddable(kind: Kind) -> bool {
    kind == Kind::Memory || kind == Kind::Chunk || kind == Kind::Annotation || kind == Kind::Symbol
        || kind == Kind::CodeChunk
}

/// Whether nodes of a kind take part in semantic recall.
pub fn embeddable(kind: Kind) -> (r: bool)
    ensures
        r == is_embeddable(kind),
{
    match kind {
        Kind::Memory | Kind::Chunk | Kind::Annotation | Kind::Symbol | Kind::CodeChunk => true,
        _ => false,
    }
}

/// Embeddings of a node.
pub open spec fn is_embedding_of(node_id: i64) -> spec_fn(Embedding) -> bool {
    |e: Embedding| e.node_id == node_id
}

/// Whether a node needs an embedding by `model`: it has a body, and no embedding, or
/// one by another model, or one of other content.
pub open spec fn is_pending(n: Node, stored: Seq<Embedding>, model: Seq<char>) -> bool {
    &&& n.deleted_at is None
    &&& n.body is Some
    &&& is_embeddable(n.kind)
    &&& match first_where(stored, is_embedding_of(n.id)) {
        Some(i) => stored[i].model@ != model || stored[i].content_hash@ != work_of(n).hash,
        None => true,
    }
}

fn find_embedding(stored: &Vec<Embedding>, node_id: i64) -> (r: Option<usize>)
    ensures
        match r {
            Some(i) => i < stored@.len() && first_where(stored@, is_embedding_of(node_id)) == Some(
                i as int,
            ),
            None => first_where(stored@, is_embedding_of(node_id)) is None,
        },
{
    let mut i: usize = 0;
    while i < stored.len()
        invariant
            i <= stored@.len(),
            forall|k: int| 0 <= k < i ==> !is_embedding_of(node_id)(#[trigger] stored@[k]),
        decreases stored@.len() - i,
    {
        if stored[i].node_id == node_id {
            proof {
                lemma_first_where_is(stored@, is_embedding_of(node_id), i as int);
            }
            return Some(i);
        }
        i += 1;
    }
    proof {
        lemma_first_where_none(stored@, is_embedding_of(node_id));
    }
    None
}

fn needs_embedding(n: &Node, stored: &Vec<Embedding>, model: &str) -> (r: bool)
    ensures
        r == is_pending(*n, stored@, model@),
{
    if n.deleted_at.is_some() || n.body.is_none() || !embeddable(n.kind) {
        return false;
    }
    match find_embedding(stored, n.id) {
        Some(i) => {
            let known = &stored[i].content_hash;
            !same(stored[i].model.as_str(), model) || !(match &n.content_hash {
                Some(h) => same_bytes(known, h),
                None => match &n.body {
                    Some(b) => same_bytes(known, &blake3_hash(b.as_str())),
                    None => false,
                },
            })
        },
        None => true,
    }
}

/// A node to be embedded: its text, and the hash that its embedding is kept under.
#[derive(Debug, Clone)]
pub struct Pending {
    pub id: i64,
    pub text: String,
    pub hash: Vec<u8>,
}

/// A node to be embedded as the rules see it.
pub ghost struct PendingView {
    pub id: i64,
    pub text: Seq<char>,
    pub hash: Seq<u8>,
}

impl View for Pending {
    type V = PendingView;

    open spec fn view(&self) -> PendingView {
        PendingView { id: self.id, text: self.text@, hash: self.hash@ }
    }
}

/// Nodes to be embedded as the rules see them.
pub open spec fn views(v: Seq<Pending>) -> Seq<PendingView> {
    Seq::new(v.len(), |i: int| v[i]@)
}

/// What is embedded of a node: its title, if it has one, and its body.
pub open spec fn work_of(n: Node) -> PendingView {
    PendingView {
        id: n.id,
        text: if n.title is Some && n.title->0@.len() > 0 {
            n.title->0@ + "\n"@ + n.body->0@
        } else {
            n.body->0@
        },
        hash: match n.content_hash {
            Some(h) => h@,
            None => blake3_of(encode_utf8(n.body->0@)),
        },
    }
}

/// The work that the first `n` nodes need.
pub open spec fn work_list(
    nodes: Seq<Node>,
    stored: Seq<Embedding>,
    model: Seq<char>,
    n: int,
) -> Seq<PendingView>
    decreases n,
{
    if n <= 0 {
        Seq::empty()
    } else {
        let before = work_list(nodes, stored, model, n - 1);
        if is_pending(nodes[n - 1], stored, model) {
            before.push(work_of(nodes[n - 1]))
        } else {
            before
        }
    }
}

fn to_pending(n: &Node) -> (r: Pending)
    requires
        n.body is Some,
    ensures
        r@ == work_of(*n),
{
    let body = match &n.body {
        Some(b) => b.as_str(),
        None => "",
    };
    let text = match &n.title {
        Some(t) => if t.as_str().is_empty() {
            body.to_owned()
        } else {
            let mut out = t.as_str().to_owned();
            out.append("\n");
            out.append(body);
            out
        },
        None => body.to_owned(),
    };
    let hash = match &n.content_hash {
        Some(h) => copy_bytes(h),
        None => blake3_hash(body),
    };
    Pending { id: n.id, text, hash }
}

/// Every node whose content is new or changed for a model.
pub fn pending(nodes: &Vec<Node>, stored: &Vec<Embedding>, model: &str) -> (r: Vec<Pending>)
    ensures
        views(r@) == work_list(nodes@, stored@, model@, nodes@.len() as int),
{
    let mut out: Vec<Pending> = Vec::new();
    let mut i: usize = 0;
    assert(views(out@) =~= Seq::empty());
    while i < nodes.len()
        invariant
            i <= nodes@.len(),
            views(out@) == work_list(nodes@, stored@, model@, i as int),
        decreases nodes@.len() - i,
    {
        let ghost before = views(out@);
        if needs_embedding(&nodes[i], stored, model) {
            let p = to_pending(&nodes[i]);
            out.push(p);
            assert(views(out@) =~= before.push(p@));
        }
        i += 1;
    }
    out
}

/// Whether there is anything to embed: asked before a model is loaded, which is far
/// from free.
pub fn has_pending(nodes: &Vec<Node>, stored: &Vec<Embedding>, model: &str) -> (r: bool)
    ensures
        r == (work_list(nodes@, stored@, model@, nodes@.len() as int).len() > 0),
{
    let mut i: usize = 0;
    while i < nodes.len()
        invariant
            i <= nodes@.len(),
            work_list(nodes@, stored@, model@, i as int).len() == 0,
        decreases nodes@.len() - i,
    {
        if needs_embedding(&nodes[i], stored, model) {
            proof {
                lemma_work_grows(nodes@, stored@, model@, i + 1, nodes@.len() as int);
            }
            return true;
        }
        i += 1;
    }
    false
}

proof fn lemma_work_grows(
    nodes: Seq<Node>,
    stored: Seq<Embedding>,
    model: Seq<char>,
    m: int,
    n: int,
)
    requires
        m <= n,
    ensures
        work_list(nodes, stored, model, m).len() <= work_list(nodes, stored, model, n).len(),
    decreases n - m,
{
    if m < n {
        lemma_work_grows(nodes, stored, model, m, n - 1);
    }
}

// ---------------------------------------------------------------------
// A batch
// ---------------------------------------------------------------------

/// Embeddings by `model` of the same content, of another node.
pub open spec fn is_twin(model: Seq<char>, p: PendingView) -> spec_fn(Embedding) -> bool {
    |e: Embedding| e.model@ == model && e.content_hash@ == p.hash && e.node_id != p.id
}

fn find_twin(stored: &Vec<Embedding>, model: &str, p: &Pending) -> (r: Option<usize>)
    ensures
        match r {
            Some(i) => i < stored@.len() && first_where(stored@, is_twin(model@, p@)) == Some(
                i as int,
            ),
            None => first_where(stored@, is_twin(model@, p@)) is None,
        },
{
    let mut i: usize = 0;
    while i < stored.len()
        invariant
            i <= stored@.len(),
            forall|k: int| 0 <= k < i ==> !is_twin(model@, p@)(#[trigger] stored@[k]),
        decreases stored@.len() - i,
    {
        if same(stored[i].model.as_str(), model) && same_bytes(&stored[i].content_hash, &p.hash)
            && stored[i].node_id != p.id {
            proof {
                lemma_first_where_is(stored@, is_twin(model@, p@), i as int);
            }
            return Some(i);
        }
        i += 1;
    }
    proof {
        lemma_first_where_none(stored@, is_twin(model@, p@));
    }
    None
}

/// How a batch is worked off: which of its nodes take the embedding of a twin, each
/// with the twin's place, and which go to the model.
#[derive(Debug)]
pub struct BatchPlan {
    pub copies: Vec<(usize, usize)>,
    pub to_embed: Vec<usize>,
}

/// The nodes of `pending[from..to]` that take a twin's embedding.
pub open spec fn copies_of(
    stored: Seq<Embedding>,
    model: Seq<char>,
    work: Seq<PendingView>,
    from: int,
    to: int,
) -> Seq<(int, int)>
    decreases to - from,
{
    if to <= from {
        Seq::empty()
    } else {
        let before = copies_of(stored, model, work, from, to - 1);
        match first_where(stored, is_twin(model, work[to - 1])) {
            Some(k) => before.push((to - 1, k)),
            None => before,
        }
    }
}

/// The nodes of `pending[from..to]` that go to the model.
pub open spec fn misses_of(
    stored: Seq<Embedding>,
    model: Seq<char>,
    work: Seq<PendingView>,
    from: int,
    to: int,
) -> Seq<int>
    decreases to - from,
{
    if to <= from {
        Seq::empty()
    } else {
        let before = misses_of(stored, model, work, from, to - 1);
        match first_where(stored, is_twin(model, work[to - 1])) {
            Some(k) => before,
            None => before.push(to - 1),
        }
    }
}

/// Pairs of indices as pairs of integers.
pub open spec fn pairs_of(v: Seq<(usize, usize)>) -> Seq<(int, int)> {
    Seq::new(v.len(), |i: int| (v[i].0 as int, v[i].1 as int))
}

/// Indices as integers.
pub open spec fn ints_of(v: Seq<usize>) -> Seq<int> {
    Seq::new(v.len(), |i: int| v[i] as int)
}

/// Where the batch that starts at `from` ends.
pub open spec fn batch_end(from: int, len: int) -> int {
    if len - from <= TX_BATCH {
        len
    } else {
        from + TX_BATCH
    }
}

/// Whether a plan is about places that exist.
pub open spec fn plan_fits(plan: BatchPlan, pending: int, stored: int) -> bool {
    &&& forall|i: int|
        0 <= i < plan.copies@.len() ==> (#[trigger] plan.copies@[i]).0 < pending && plan.copies@[i].1
            < stored
    &&& forall|i: int| 0 <= i < plan.to_embed@.len() ==> #[trigger] plan.to_embed@[i] < pending
}

/// Plans the batch of at most 256 nodes that starts at `from`: a node whose content
/// has an embedding elsewhere takes that one, the others go to the model.
pub fn plan_batch(stored: &Vec<Embedding>, model: &str, pending: &Vec<Pending>, from: usize) -> (r:
    BatchPlan)
    requires
        from <= pending@.len(),
    ensures
        pairs_of(r.copies@) == copies_of(
            stored@,
            model@,
            views(pending@),
            from as int,
            batch_end(from as int, pending@.len() as int),
        ),
        ints_of(r.to_embed@) == misses_of(
            stored@,
            model@,
            views(pending@),
            from as int,
            batch_end(from as int, pending@.len() as int),
        ),
        plan_fits(r, pending@.len() as int, stored@.len() as int),
{
    let ghost work = views(pending@);
    let end: usize = if pending.len() - from <= TX_BATCH {
        pending.len()
    } else {
        from + TX_BATCH
    };
    let mut copies: Vec<(usize, usize)> = Vec::new();
    let mut to_embed: Vec<usize> = Vec::new();
    let mut i: usize = from;
    assert(pairs_of(copies@) =~= Seq::empty());
    assert(ints_of(to_embed@) =~= Seq::empty());
    while i < end
        invariant
            from <= i <= end <= pending@.len(),
            work == views(pending@),
            pairs_of(copies@) == copies_of(stored@, model@, work, from as int, i as int),
            ints_of(to_embed@) == misses_of(stored@, model@, work, from as int, i as int),
            forall|k: int|
                0 <= k < copies@.len() ==> (#[trigger] copies@[k]).0 < pending@.len() && copies@[k].1
                    < stored@.len(),
            forall|k: int| 0 <= k < to_embed@.len() ==> #[trigger] to_embed@[k] < pending@.len(),
        decreases end - i,
    {
        let ghost had = copies@;
        let ghost todo = to_embed@;
        assert(work[i as int] == pending@[i as int]@);
        match find_twin(stored, model, &pending[i]) {
            Some(k) => {
                copies.push((i, k));
                assert(pairs_of(copies@) =~= pairs_of(had).push((i as int, k as int)));
            },
            None => {
                to_embed.push(i);
                assert(ints_of(to_embed@) =~= ints_of(todo).push(i as int));
            },
        }
        i += 1;
    }
    BatchPlan { copies, to_embed }
}

/// The texts that a plan gives to the model.
pub fn texts_to_embed(pending: &Vec<Pending>, plan: &BatchPlan) -> (r: Vec<String>)
    requires
        forall|i: int| 0 <= i < plan.to_embed@.len() ==> #[trigger] plan.to_embed@[i] < pending@.len(),
    ensures
        r@.len() == plan.to_embed@.len(),
        forall|i: int|
            0 <= i < r@.len() ==> (#[trigger] r@[i])@ == pending@[plan.to_embed@[i] as int].text@,
{
    let mut out: Vec<String> = Vec::new();
    let mut i: usize = 0;
    while i < plan.to_embed.len()
        invariant
            i <= plan.to_embed@.len(),
            forall|i: int|
                0 <= i < plan.to_embed@.len() ==> #[trigger] plan.to_embed@[i] < pending@.len(),
            out@.len() == i,
            forall|k: int|
                0 <= k < i ==> (#[trigger] out@[k])@ == pending@[plan.to_embed@[k] as int].text@,
        decreases plan.to_embed@.len() - i,
    {
        out.push(pending[plan.to_embed[i]].text.as_str().to_owned());
        i += 1;
    }
    out
}

/// A vector as the model gave it: how many numbers, and their stored form.
#[derive(Debug)]
pub struct Vector {
    pub dim: i64,
    pub blob: Vec<u8>,
}

/// A stored embedding as the rules see it.
pub ghost struct EmbeddingView {
    pub node_id: i64,
    pub model: Seq<char>,
    pub dim: i64,
    pub vec: Seq<u8>,
    pub content_hash: Seq<u8>,
}

impl View for Embedding {
    type V = EmbeddingView;

    open spec fn view(&self) -> EmbeddingView {
        EmbeddingView {
            node_id: self.node_id,
            model: self.model@,
            dim: self.dim,
            vec: self.vec@,
            content_hash: self.content_hash@,
        }
    }
}

/// Stored embeddings as the rules see them.
pub open spec fn embedding_views(v: Seq<Embedding>) -> Seq<EmbeddingView> {
    Seq::new(v.len(), |i: int| v[i]@)
}

/// The embedding of a node by a model.
pub open spec fn embedding_for(
    p: PendingView,
    model: Seq<char>,
    dim: i64,
    vec: Seq<u8>,
) -> EmbeddingView {
    EmbeddingView { node_id: p.id, model, dim, vec, content_hash: p.hash }
}

/// The embeddings that a batch writes: the copies first, then one for each vector,
/// as far as there are vectors.
pub open spec fn batch_written(
    stored: Seq<Embedding>,
    pending: Seq<Pending>,
    plan: BatchPlan,
    vectors: Seq<Vector>,
    model: Seq<char>,
) -> Seq<EmbeddingView> {
    let m = if vectors.len() < plan.to_embed@.len() {
        vectors.len()
    } else {
        plan.to_embed@.len()
    };
    Seq::new(
        plan.copies@.len(),
        |i: int|
            embedding_for(
                pending[plan.copies@[i].0 as int]@,
                model,
                stored[plan.copies@[i].1 as int].dim,
                stored[plan.copies@[i].1 as int].vec@,
            ),
    ) + Seq::new(
        m,
        |i: int|
            embedding_for(
                pending[plan.to_embed@[i] as int]@,
                model,
                vectors[i].dim,
                vectors[i].blob@,
            ),
    )
}

/// The embeddings that a batch writes, given what the model made of its texts.
pub fn batch_rows(
    stored: &Vec<Embedding>,
    pending: &Vec<Pending>,
    plan: &BatchPlan,
    vectors: &Vec<Vector>,
    model: &str,
) -> (r: Vec<Embedding>)
    requires
        plan_fits(*plan, pending@.len() as int, stored@.len() as int),
    ensures
        embedding_views(r@) == batch_written(stored@, pending@, *plan, vectors@, model@),
{
    let ghost want = batch_written(stored@, pending@, *plan, vectors@, model@);
    let n: usize = plan.copies.len();
    let mut out: Vec<Embedding> = Vec::new();
    let mut i: usize = 0;
    while i < n
        invariant
            i <= n,
            n == plan.copies@.len(),
            plan_fits(*plan, pending@.len() as int, stored@.len() as int),
            want == batch_written(stored@, pending@, *plan, vectors@, model@),
            out@.len() == i,
            forall|k: int| 0 <= k < i ==> (#[trigger] out@[k])@ == want[k],
        decreases n - i,
    {
        let pair = plan.copies[i];
        let row = Embedding {
            node_id: pending[pair.0].id,
            model: model.to_owned(),
            dim: stored[pair.1].dim,
            vec: copy_bytes(&stored[pair.1].vec),
            content_hash: copy_bytes(&pending[pair.0].hash),
        };
        out.push(row);
        i += 1;
    }
    let m: usize = if vectors.len() < plan.to_embed.len() {
        vectors.len()
    } else {
        plan.to_embed.len()
    };
    let mut j: usize = 0;
    while j < m
        invariant
            j <= m,
            m <= vectors@.len(),
            m <= plan.to_embed@.len(),
            m == vectors@.len() || m == plan.to_embed@.len(),
            n == plan.copies@.len(),
            plan_fits(*plan, pending@.len() as int, stored@.len() as int),
            want == batch_written(stored@, pending@, *plan, vectors@, model@),
            out@.len() == n + j,
            forall|k: int| 0 <= k < n + j ==> (#[trigger] out@[k])@ == want[k],
        decreases m - j,
    {
        let place: usize = plan.to_embed[j];
        let row = Embedding {
            node_id: pending[place].id,
            model: model.to_owned(),
            dim: vectors[j].dim,
            vec: copy_bytes(&vectors[j].blob),
            content_hash: copy_bytes(&pending[place].hash),
        };
        assert(row@ == want[n + j]);
        out.push(row);
        j += 1;
    }
    assert(embedding_views(out@) =~= want);
    out
}

/// Embeddings of a node, as the rules see them.
pub open spec fn is_view_of(node_id: i64) -> spec_fn(EmbeddingView) -> bool {
    |e: EmbeddingView| e.node_id == node_id
}

/// The stored embeddings once one is written: it replaces that of its node.
pub open spec fn upserted(v: Seq<EmbeddingView>, e: EmbeddingView) -> Seq<EmbeddingView> {
    match first_where(v, is_view_of(e.node_id)) {
        Some(i) => v.update(i, e),
        None => v.push(e),
    }
}

/// Writes an embedding in place of that of its node.
pub fn upsert(stored: &mut Vec<Embedding>, e: Embedding)
    ensures
        embedding_views(final(stored)@) == upserted(embedding_views(old(stored)@), e@),
{
    let ghost before = embedding_views(stored@);
    proof {
        lemma_views_find(stored@, e.node_id);
    }
    match find_embedding(stored, e.node_id) {
        Some(i) => {
            stored.set(i, e);
            assert(embedding_views(stored@) =~= before.update(i as int, e@));
        },
        None => {
            stored.push(e);
            assert(embedding_views(stored@) =~= before.push(e@));
        },
    }
}

proof fn lemma_views_find(stored: Seq<Embedding>, node_id: i64)
    ensures
        first_where(embedding_views(stored), is_view_of(node_id)) == first_where(
            stored,
            is_embedding_of(node_id),
        ),
{
    let v = embedding_views(stored);
    let p = is_embedding_of(node_id);
    let q = is_view_of(node_id);
    lemma_first_where(stored, p);
    match first_where(stored, p) {
        Some(i) => {
            assert forall|k: int| 0 <= k < i implies !q(#[trigger] v[k]) by {
                assert(!p(stored[k]));
            }
            assert(q(v[i]));
            lemma_first_where_is(v, q, i);
        },
        None => {
            assert forall|k: int| 0 <= k < v.len() implies !q(#[trigger] v[k]) by {
                assert(!p(stored[k]));
            }
            lemma_first_where_none(v, q);
        },
    }
}

// ---------------------------------------------------------------------
// Laws
// ---------------------------------------------------------------------

/// Work that is done is not done again: once a node's embedding by the model is of
/// the content that the node has, the node needs none.
pub proof fn embedded_nodes_are_settled(n: Node, stored: Seq<Embedding>, model: Seq<char>, i: int)
    requires
        first_where(stored, is_embedding_of(n.id)) == Some(i),
        stored[i]@ == embedding_for(work_of(n), model, stored[i].dim, stored[i].vec@),
    ensures
        !is_pending(n, stored, model),
{
}

/// Whether an embedding is that of a node to be embedded.
pub open spec fn is_row_for(e: EmbeddingView, p: PendingView, model: Seq<char>) -> bool {
    e == embedding_for(p, model, e.dim, e.vec)
}

/// The stored embeddings once the first `k` rows are written.
pub open spec fn all_upserted(
    v: Seq<EmbeddingView>,
    rows: Seq<EmbeddingView>,
    k: int,
) -> Seq<EmbeddingView>
    decreases k,
{
    if k <= 0 {
        v
    } else {
        upserted(all_upserted(v, rows, k - 1), rows[k - 1])
    }
}

/// The stored embedding of a node.
pub open spec fn found(v: Seq<EmbeddingView>, node_id: i64) -> Option<EmbeddingView> {
    match first_where(v, is_view_of(node_id)) {
        Some(i) => Some(v[i]),
        None => None,
    }
}

proof fn lemma_found_upserted(v: Seq<EmbeddingView>, e: EmbeddingView, id: i64)
    ensures
        found(upserted(v, e), id) == if id == e.node_id {
            Some(e)
        } else {
            found(v, id)
        },
{
    let w = upserted(v, e);
    let p = is_view_of(e.node_id);
    let q = is_view_of(id);
    lemma_first_where(v, p);
    lemma_first_where(v, q);
    if id == e.node_id {
        let i = match first_where(v, p) {
            Some(i) => i,
            None => v.len() as int,
        };
        assert forall|k: int| 0 <= k < i implies !q(#[trigger] w[k]) by {
            assert(w[k] == v[k]);
            assert(!p(v[k]));
        }
        assert(q(w[i]));
        lemma_first_where_is(w, q, i);
    } else {
        match first_where(v, q) {
            Some(j) => {
                assert forall|k: int| 0 <= k < j implies !q(#[trigger] w[k]) by {
                    if w[k] != e {
                        assert(w[k] == v[k]);
                        assert(!q(v[k]));
                    }
                }
                assert(p(v[j]) == false);
                assert(w[j] == v[j]);
                lemma_first_where_is(w, q, j);
            },
            None => {
                assert forall|k: int| 0 <= k < w.len() implies !q(#[trigger] w[k]) by {
                    if w[k] != e {
                        assert(w[k] == v[k]);
                        assert(!q(v[k]));
                    }
                }
                lemma_first_where_none(w, q);
            },
        }
    }
}

/// What is stored of a node after a run: the last row that was written of it, or
/// what was there.
proof fn lemma_found_after(
    v: Seq<EmbeddingView>,
    rows: Seq<EmbeddingView>,
    id: i64,
    k: int,
)
    requires
        0 <= k <= rows.len(),
    ensures
        ({
            let f = found(all_upserted(v, rows, k), id);
            ||| f == found(v, id) && forall|i: int| 0 <= i < k ==> (#[trigger] rows[i]).node_id != id
            ||| exists|i: int| 0 <= i < k && (#[trigger] rows[i]).node_id == id && f == Some(rows[i])
        }),
    decreases k,
{
    if k > 0 {
        lemma_found_after(v, rows, id, k - 1);
        lemma_found_upserted(all_upserted(v, rows, k - 1), rows[k - 1], id);
        if rows[k - 1].node_id == id {
            assert(found(all_upserted(v, rows, k), id) == Some(rows[k - 1]));
        }
    }
}

/// Whether something is the work of one of the first `n` nodes.
spec fn is_work(
    nodes: Seq<Node>,
    stored: Seq<Embedding>,
    model: Seq<char>,
    n: int,
    p: PendingView,
) -> bool {
    exists|i: int|
        0 <= i < n && is_pending(#[trigger] nodes[i], stored, model) && work_of(nodes[i]) == p
}

proof fn lemma_work_has(
    nodes: Seq<Node>,
    stored: Seq<Embedding>,
    model: Seq<char>,
    n: int,
)
    requires
        0 <= n <= nodes.len(),
    ensures
        forall|i: int|
            0 <= i < n && is_pending(#[trigger] nodes[i], stored, model) ==> work_list(
                nodes,
                stored,
                model,
                n,
            ).contains(work_of(nodes[i])),
        forall|k: int|
            0 <= k < work_list(nodes, stored, model, n).len() ==> is_work(
                nodes,
                stored,
                model,
                n,
                #[trigger] work_list(nodes, stored, model, n)[k],
            ),
    decreases n,
{
    if n > 0 {
        lemma_work_has(nodes, stored, model, n - 1);
        let before = work_list(nodes, stored, model, n - 1);
        let after = work_list(nodes, stored, model, n);
        assert forall|i: int|
            0 <= i < n && is_pending(#[trigger] nodes[i], stored, model) implies after.contains(
            work_of(nodes[i]),
        ) by {
            if i < n - 1 {
                let k = choose|k: int| 0 <= k < before.len() && before[k] == work_of(nodes[i]);
                assert(after[k] == before[k]);
            } else {
                assert(after[after.len() - 1] == work_of(nodes[i]));
            }
        }
        assert forall|k: int| 0 <= k < after.len() implies is_work(
            nodes,
            stored,
            model,
            n,
            #[trigger] after[k],
        ) by {
            if k < before.len() {
                assert(after[k] == before[k]);
                assert(is_work(nodes, stored, model, n - 1, before[k]));
                let i = choose|i: int|
                    0 <= i < n - 1 && is_pending(#[trigger] nodes[i], stored, model) && work_of(
                        nodes[i],
                    ) == before[k];
                assert(is_pending(nodes[i], stored, model));
            } else {
                assert(is_pending(nodes[n - 1], stored, model));
            }
        }
    }
}

proof fn lemma_no_work(nodes: Seq<Node>, stored: Seq<Embedding>, model: Seq<char>, n: int)
    requires
        0 <= n <= nodes.len(),
        forall|i: int| 0 <= i < n ==> !is_pending(#[trigger] nodes[i], stored, model),
    ensures
        work_list(nodes, stored, model, n).len() == 0,
    decreases n,
{
    if n > 0 {
        lemma_no_work(nodes, stored, model, n - 1);
    }
}

/// Unchanged content never reaches the model: once every node that needed it has its
/// embedding written, nothing is left to embed, whether a node carries a hash or not.
pub proof fn a_second_run_embeds_nothing(
    nodes: Seq<Node>,
    before: Seq<Embedding>,
    rows: Seq<EmbeddingView>,
    after: Seq<Embedding>,
    model: Seq<char>,
)
    requires
        forall|i: int, j: int|
            #![trigger nodes[i], nodes[j]]
            0 <= i < j < nodes.len() ==> nodes[i].id != nodes[j].id,
        ({
            let work = work_list(nodes, before, model, nodes.len() as int);
            &&& forall|r: int|
                0 <= r < rows.len() ==> exists|k: int|
                    0 <= k < work.len() && is_row_for(#[trigger] rows[r], #[trigger] work[k], model)
            &&& forall|k: int|
                0 <= k < work.len() ==> exists|r: int|
                    0 <= r < rows.len() && is_row_for(#[trigger] rows[r], #[trigger] work[k], model)
        }),
        embedding_views(after) == all_upserted(embedding_views(before), rows, rows.len() as int),
    ensures
        work_list(nodes, after, model, nodes.len() as int).len() == 0,
{
    let n = nodes.len() as int;
    let m = rows.len() as int;
    let work = work_list(nodes, before, model, n);
    lemma_work_has(nodes, before, model, n);
    assert forall|i: int| 0 <= i < n implies !is_pending(#[trigger] nodes[i], after, model) by {
        let id = nodes[i].id;
        lemma_found_after(embedding_views(before), rows, id, m);
        lemma_views_find(before, id);
        lemma_views_find(after, id);
        lemma_first_where(before, is_embedding_of(id));
        lemma_first_where(after, is_embedding_of(id));
        let f = found(embedding_views(after), id);
        if exists|r: int| 0 <= r < m && (#[trigger] rows[r]).node_id == id && f == Some(rows[r]) {
            let r = choose|r: int|
                0 <= r < m && (#[trigger] rows[r]).node_id == id && f == Some(rows[r]);
            let k = choose|k: int|
                0 <= k < work.len() && is_row_for(rows[r], #[trigger] work[k], model);
            assert(is_work(nodes, before, model, n, work[k]));
            let j = choose|j: int|
                0 <= j < n && is_pending(#[trigger] nodes[j], before, model) && work_of(nodes[j])
                    == work[k];
            assert(nodes[j].id == id);
            assert(i == j);
            let s = first_where(after, is_embedding_of(id))->0;
            assert(embedding_views(after)[s] == after[s]@);
        } else {
            if is_pending(nodes[i], before, model) {
                let k = choose|k: int| 0 <= k < work.len() && work[k] == work_of(nodes[i]);
                assert(work[k].id == id);
                let r = choose|r: int|
                    0 <= r < m && is_row_for(#[trigger] rows[r], work[k], model);
                assert(rows[r].node_id == id);
            } else {
                match first_where(before, is_embedding_of(id)) {
                    Some(b) => {
                        assert(embedding_views(before)[b] == before[b]@);
                        let s = first_where(after, is_embedding_of(id))->0;
                        assert(embedding_views(after)[s] == after[s]@);
                    },
                    None => {},
                }
            }
        }
    }
    lemma_no_work(nodes, after, model, n);
}

proof fn lemma_batch_place(
    stored: Seq<Embedding>,
    model: Seq<char>,
    work: Seq<PendingView>,
    from: int,
    to: int,
    j: int,
)
    requires
        from <= j < to,
    ensures
        (exists|k: int|
            0 <= k < copies_of(stored, model, work, from, to).len() && (
            #[trigger] copies_of(stored, model, work, from, to)[k]).0 == j) || misses_of(
            stored,
            model,
            work,
            from,
            to,
        ).contains(j),
    decreases to - from,
{
    let c1 = copies_of(stored, model, work, from, to);
    let m1 = misses_of(stored, model, work, from, to);
    if j < to - 1 {
        lemma_batch_place(stored, model, work, from, to - 1, j);
        let c0 = copies_of(stored, model, work, from, to - 1);
        let m0 = misses_of(stored, model, work, from, to - 1);
        if m0.contains(j) {
            let k = choose|k: int| 0 <= k < m0.len() && m0[k] == j;
            assert(m1[k] == j);
        } else {
            let k = choose|k: int| 0 <= k < c0.len() && (#[trigger] c0[k]).0 == j;
            assert(c1[k] == c0[k]);
        }
    } else if first_where(stored, is_twin(model, work[j])) is Some {
        assert(c1[c1.len() - 1].0 == j);
    } else {
        assert(m1[m1.len() - 1] == j);
    }
}

/// A batch writes a row for each of its nodes, where the model gave a vector for each
/// text.
pub proof fn a_batch_settles_its_nodes(
    stored: Seq<Embedding>,
    pending: Seq<Pending>,
    plan: BatchPlan,
    vectors: Seq<Vector>,
    model: Seq<char>,
    from: int,
    j: int,
)
    requires
        from <= j < batch_end(from, pending.len() as int),
        pairs_of(plan.copies@) == copies_of(
            stored,
            model,
            views(pending),
            from,
            batch_end(from, pending.len() as int),
        ),
        ints_of(plan.to_embed@) == misses_of(
            stored,
            model,
            views(pending),
            from,
            batch_end(from, pending.len() as int),
        ),
        vectors.len() == plan.to_embed@.len(),
    ensures
        exists|r: int|
            0 <= r < batch_written(stored, pending, plan, vectors, model).len() && is_row_for(
                #[trigger] batch_written(stored, pending, plan, vectors, model)[r],
                pending[j]@,
                model,
            ),
{
    let to = batch_end(from, pending.len() as int);
    let work = views(pending);
    lemma_batch_place(stored, model, work, from, to, j);
    let rows = batch_written(stored, pending, plan, vectors, model);
    let n = plan.copies@.len() as int;
    if ints_of(plan.to_embed@).contains(j) {
        let k = choose|k: int|
            0 <= k < ints_of(plan.to_embed@).len() && ints_of(plan.to_embed@)[k] == j;
        assert(plan.to_embed@[k] == j);
        assert(is_row_for(rows[n + k], pending[j]@, model));
    } else {
        let c = copies_of(stored, model, work, from, to);
        let k = choose|k: int| 0 <= k < c.len() && (#[trigger] c[k]).0 == j;
        assert(pairs_of(plan.copies@)[k] == c[k]);
        assert(plan.copies@[k].0 == j);
        assert(is_row_for(rows[k], pending[j]@, model));
    }
}

/// Every node of a batch is either copied or embedded.
pub proof fn a_batch_is_complete(
    stored: Seq<Embedding>,
    model: Seq<char>,
    work: Seq<PendingView>,
    from: int,
    to: int,
)
    requires
        from <= to,
    ensures
        copies_of(stored, model, work, from, to).len() + misses_of(
            stored,
            model,
            work,
            from,
            to,
        ).len() == to - from,
    decreases to - from,
{
    if from < to {
        a_batch_is_complete(stored, model, work, from, to - 1);
    }
}

proof fn lemma_misses_new(
    stored: Seq<Embedding>,
    model: Seq<char>,
    work: Seq<PendingView>,
    from: int,
    to: int,
)
    ensures
        forall|k: int|
            0 <= k < misses_of(stored, model, work, from, to).len() ==> first_where(
                stored,
                is_twin(model, work[#[trigger] misses_of(stored, model, work, from, to)[k]]),
            ) is None,
    decreases to - from,
{
    if from < to {
        lemma_misses_new(stored, model, work, from, to - 1);
        let before = misses_of(stored, model, work, from, to - 1);
        let after = misses_of(stored, model, work, from, to);
        assert forall|k: int| 0 <= k < after.len() implies first_where(
            stored,
            is_twin(model, work[#[trigger] after[k]]),
        ) is None by {
            if k < before.len() {
                assert(after[k] == before[k]);
            }
        }
    }
}

/// Content that the store has an embedding of never reaches the model.
pub proof fn known_content_is_not_embedded_again(
    stored: Seq<Embedding>,
    model: Seq<char>,
    work: Seq<PendingView>,
    from: int,
    to: int,
    k: int,
    i: int,
)
    requires
        0 <= k < misses_of(stored, model, work, from, to).len(),
        0 <= i < stored.len(),
    ensures
        ({
            let p = work[misses_of(stored, model, work, from, to)[k]];
            stored[i].model@ != model || stored[i].content_hash@ != p.hash || stored[i].node_id
                == p.id
        }),
{
    lemma_misses_new(stored, model, work, from, to);
    let p = work[misses_of(stored, model, work, from, to)[k]];
    lemma_first_where(stored, is_twin(model, p));
    assert(!is_twin(model, p)(stored[i]));
}

} // verus!
