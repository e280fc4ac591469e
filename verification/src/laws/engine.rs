//! Laws of embedding, reranking, roots, numbers and messages.

use vstd::prelude::*;

#[allow(unused_imports)]
use crate::config::BriefConfig;
#[allow(unused_imports)]
use crate::db::migrations::steps_from;
#[allow(unused_imports)]
use crate::embed::{
    batch_end, batch_written, blob_of, copies_of, embedding_for, is_embedding_of, is_pending,
    is_twin, is_view_of, marker_of, misses_of, model_named, reranker_named, upserted, work_list,
    work_of, BatchPlan, Embedding, EmbeddingView, ModelSource, Pending, PendingView, RerankerSource,
    Vector,
};
#[allow(unused_imports)]
use crate::engine::{
    auto_reranks, cached, doc_of, is_entry, is_unnamed, named, places, reordered, score_keys, Lazy,
};
#[allow(unused_imports)]
use crate::error::Error;
#[allow(unused_imports)]
use crate::model::Node;
#[allow(unused_imports)]
use crate::number::{ceiling, decimal_in, goes_on, leading, second_of, Decimal};
#[allow(unused_imports)]
use crate::order::ranking;
#[allow(unused_imports)]
use crate::paths::below;
#[allow(unused_imports)]
use crate::scope::{answers, label_of, nearest, normal_form, nowhere, PROJECT_MARKERS, ROOT_MARKERS};
#[allow(unused_imports)]
use crate::seqs::{first_where, kept, lemma_first_where, lemma_first_where_is};
#[allow(unused_imports)]
use crate::sets::first_seen;
#[allow(unused_imports)]
use crate::text::{decimal, decimal_nat, digits_value, split, starts_with, words, Delim};
#[allow(unused_imports)]
use vstd::string::*;
#[allow(unused_imports)]
use vstd::utf8::encode_utf8;

verus! {

// ---------------------------------------------------------------------
// Embedding
// ---------------------------------------------------------------------

/// The models are known by their names.
pub proof fn models_by_name(name: Seq<char>)
    ensures
        model_named("bge-small-en-v1.5"@) == Some(ModelSource::BgeSmall),
        model_named("bge-small-en-v1.5-q"@) == Some(ModelSource::BgeSmall),
        model_named("bge-base-en-v1.5"@) == Some(ModelSource::BgeBase),
        model_named("all-minilm-l6-v2"@) == Some(ModelSource::MiniLm),
        model_named("granite-embedding-small-r2"@) == Some(ModelSource::Granite),
        model_named(name) is Some ==> name == "bge-small-en-v1.5"@ || name
            == "bge-small-en-v1.5-q"@ || name == "bge-base-en-v1.5"@ || name
            == "all-minilm-l6-v2"@ || name == "granite-embedding-small-r2"@,
{
    reveal_strlit("bge-small-en-v1.5");
    reveal_strlit("bge-small-en-v1.5-q");
    reveal_strlit("bge-base-en-v1.5");
    reveal_strlit("all-minilm-l6-v2");
    reveal_strlit("granite-embedding-small-r2");
    assert("bge-small-en-v1.5"@[4] == 's');
    assert("bge-small-en-v1.5-q"@[4] == 's');
    assert("bge-base-en-v1.5"@[4] == 'b');
    assert("bge-base-en-v1.5"@[0] == 'b');
    assert("bge-small-en-v1.5"@[0] == 'b');
    assert("bge-small-en-v1.5-q"@[0] == 'b');
    assert("all-minilm-l6-v2"@[0] == 'a');
    assert("granite-embedding-small-r2"@[0] == 'g');
}

/// The rerankers are known by their names.
pub proof fn rerankers_by_name(name: Seq<char>)
    ensures
        reranker_named("jina-reranker-v1-turbo-en"@) == Some(RerankerSource::JinaTurbo),
        reranker_named("jina-reranker-v1-turbo-en-int8"@) == Some(RerankerSource::JinaTurboInt8),
        reranker_named("bge-reranker-base"@) == Some(RerankerSource::BgeBase),
        reranker_named("bge-reranker-v2-m3"@) == Some(RerankerSource::BgeV2M3),
        reranker_named("jina-reranker-v2-base-multilingual"@) == Some(
            RerankerSource::JinaMultilingual,
        ),
        reranker_named(name) is Some ==> name == "jina-reranker-v1-turbo-en"@ || name
            == "jina-reranker-v1-turbo-en-int8"@ || name == "bge-reranker-base"@ || name
            == "bge-reranker-v2-m3"@ || name == "jina-reranker-v2-base-multilingual"@,
{
    reveal_strlit("jina-reranker-v1-turbo-en");
    reveal_strlit("jina-reranker-v1-turbo-en-int8");
    reveal_strlit("bge-reranker-base");
    reveal_strlit("bge-reranker-v2-m3");
    reveal_strlit("jina-reranker-v2-base-multilingual");
    assert("jina-reranker-v1-turbo-en"@.len() == 25);
    assert("jina-reranker-v1-turbo-en-int8"@.len() == 30);
    assert("bge-reranker-base"@.len() == 17);
    assert("bge-reranker-v2-m3"@.len() == 18);
    assert("jina-reranker-v2-base-multilingual"@.len() == 34);
}

/// A model that is ready is marked by a hidden file of its name.
pub proof fn a_ready_model_is_marked(dir: Seq<char>, name: Seq<char>)
    ensures
        marker_of(dir, name) == below(dir, "."@ + name + ".ready"@),
{
}

proof fn lemma_blob_len(v: Seq<u32>)
    ensures
        blob_of(v).len() == 4 * v.len(),
    decreases v.len(),
{
    if v.len() > 0 {
        lemma_blob_len(v.drop_last());
    }
}

/// A vector is stored number by number, four bytes each, the lowest first.
pub proof fn vectors_are_stored_lowest_byte_first(v: Seq<u32>, i: int)
    requires
        0 <= i < v.len(),
    ensures
        blob_of(v).len() == 4 * v.len(),
        blob_of(v)[4 * i] == v[i] % 256,
        blob_of(v)[4 * i + 1] == v[i] / 256 % 256,
        blob_of(v)[4 * i + 2] == v[i] / 65_536 % 256,
        blob_of(v)[4 * i + 3] == v[i] / 16_777_216,
    decreases v.len(),
{
    lemma_blob_len(v);
    let t = v.drop_last();
    lemma_blob_len(t);
    if i < v.len() - 1 {
        vectors_are_stored_lowest_byte_first(t, i);
        assert(blob_of(v)[4 * i] == blob_of(t)[4 * i]);
        assert(blob_of(v)[4 * i + 1] == blob_of(t)[4 * i + 1]);
        assert(blob_of(v)[4 * i + 2] == blob_of(t)[4 * i + 2]);
        assert(blob_of(v)[4 * i + 3] == blob_of(t)[4 * i + 3]);
    }
}

/// A node is to be embedded where it is of a kind that is searched by meaning, has a text,
/// is not deleted, and is not embedded yet, or by another model, or as another text.
pub proof fn what_is_to_be_embedded(n: Node, stored: Seq<Embedding>, model: Seq<char>, i: int)
    ensures
        n.deleted_at is Some ==> !is_pending(n, stored, model),
        n.body is None ==> !is_pending(n, stored, model),
        !(n.kind is Memory || n.kind is Chunk || n.kind is Annotation || n.kind is Symbol || n.kind
            is CodeChunk) ==> !is_pending(n, stored, model),
        n.deleted_at is None && n.body is Some && (n.kind is Memory || n.kind is Chunk || n.kind
            is Annotation || n.kind is Symbol || n.kind is CodeChunk) && (forall|k: int|
            0 <= k < stored.len() ==> (#[trigger] stored[k]).node_id != n.id) ==> is_pending(
            n,
            stored,
            model,
        ),
        n.deleted_at is None && n.body is Some && (n.kind is Memory || n.kind is Chunk || n.kind
            is Annotation || n.kind is Symbol || n.kind is CodeChunk) && 0 <= i < stored.len()
            && stored[i].node_id == n.id && (forall|k: int|
            0 <= k < i ==> (#[trigger] stored[k]).node_id != n.id) ==> (is_pending(n, stored, model)
            <==> stored[i].model@ != model || stored[i].content_hash@ != work_of(n).hash),
{
    lemma_first_where(stored, is_embedding_of(n.id));
    if 0 <= i < stored.len() && stored[i].node_id == n.id && (forall|k: int|
        0 <= k < i ==> (#[trigger] stored[k]).node_id != n.id) {
        lemma_first_where_is(stored, is_embedding_of(n.id), i);
    }
}

/// What is embedded is the title and below it the text, or the text alone where there is
/// no title; known by the node's hash, or else by the hash of the text.
pub proof fn title_and_text_are_embedded(n: Node)
    requires
        n.body is Some,
    ensures
        work_of(n).id == n.id,
        n.title is Some && n.title->0@.len() > 0 ==> work_of(n).text == n.title->0@ + "\n"@
            + n.body->0@,
        n.title is None || n.title->0@.len() == 0 ==> work_of(n).text == n.body->0@,
        n.content_hash is Some ==> work_of(n).hash == n.content_hash->0@,
        n.content_hash is None ==> work_of(n).hash == crate::memory::blake3_of(
            encode_utf8(n.body->0@),
        ),
{
}

/// The work is what is to be embedded, all of it, in order.
pub proof fn the_work_is_what_is_pending(
    nodes: Seq<Node>,
    stored: Seq<Embedding>,
    model: Seq<char>,
    n: int,
)
    requires
        0 < n <= nodes.len(),
    ensures
        is_pending(nodes[n - 1], stored, model) ==> work_list(nodes, stored, model, n)
            == work_list(nodes, stored, model, n - 1).push(work_of(nodes[n - 1])),
        !is_pending(nodes[n - 1], stored, model) ==> work_list(nodes, stored, model, n)
            == work_list(nodes, stored, model, n - 1),
        work_list(nodes, stored, model, 0).len() == 0,
{
}

/// A vector is copied from another node that has the same text under the same model; only
/// what no other has is computed.
pub proof fn known_texts_are_copied(
    stored: Seq<Embedding>,
    model: Seq<char>,
    work: Seq<PendingView>,
    from: int,
    to: int,
    k: int,
)
    requires
        0 <= from < to <= work.len(),
    ensures
        ({
            let p = work[to - 1];
            let twin = |i: int|
                0 <= i < stored.len() && stored[i].model@ == model && stored[i].content_hash@
                    == p.hash && stored[i].node_id != p.id;
            let a = copies_of(stored, model, work, from, to - 1);
            let b = copies_of(stored, model, work, from, to);
            let c = misses_of(stored, model, work, from, to - 1);
            let d = misses_of(stored, model, work, from, to);
            &&& (forall|i: int| !#[trigger] twin(i)) ==> b == a && d == c.push(to - 1)
            &&& twin(k) && (forall|i: int| 0 <= i < k ==> !#[trigger] twin(i)) ==> d == c && b
                == a.push((to - 1, k))
        }),
        copies_of(stored, model, work, from, from).len() == 0,
        misses_of(stored, model, work, from, from).len() == 0,
{
    let p = work[to - 1];
    let twin = |i: int|
        0 <= i < stored.len() && stored[i].model@ == model && stored[i].content_hash@ == p.hash
            && stored[i].node_id != p.id;
    let q = is_twin(model, p);
    lemma_first_where(stored, q);
    if forall|i: int| !#[trigger] twin(i) {
        if let Some(i) = first_where(stored, q) {
            assert(twin(i));
        }
    }
    if twin(k) && (forall|i: int| 0 <= i < k ==> !#[trigger] twin(i)) {
        assert forall|i: int| 0 <= i < k implies !q(#[trigger] stored[i]) by {
            assert(!twin(i));
        }
        lemma_first_where_is(stored, q, k);
    }
}

/// Work is done in batches of 256, computed 64 at a time.
pub proof fn work_is_done_in_batches(from: int, len: int)
    requires
        0 <= from <= len,
    ensures
        from + 256 <= len ==> batch_end(from, len) == from + 256,
        from + 256 > len ==> batch_end(from, len) == len,
        crate::embed::EMBED_BATCH == 64,
{
}

/// A vector is stored under its node, with the model it is of and the hash of the text it
/// is of.
pub proof fn a_vector_is_stored_under_its_node(
    p: PendingView,
    model: Seq<char>,
    dim: i64,
    vec: Seq<u8>,
)
    ensures
        ({
            let e = embedding_for(p, model, dim, vec);
            &&& e.node_id == p.id
            &&& e.model == model
            &&& e.dim == dim
            &&& e.vec == vec
            &&& e.content_hash == p.hash
        }),
{
}

/// What a batch writes: for each copy the vector it is copied from, and for each that was
/// computed the vector computed for it.
pub proof fn a_batch_writes_copies_and_vectors(
    stored: Seq<Embedding>,
    pending: Seq<Pending>,
    plan: BatchPlan,
    vectors: Seq<Vector>,
    model: Seq<char>,
    i: int,
)
    requires
        vectors.len() == plan.to_embed@.len(),
    ensures
        ({
            let r = batch_written(stored, pending, plan, vectors, model);
            let n = plan.copies@.len();
            &&& r.len() == n + vectors.len()
            &&& 0 <= i < n ==> ({
                let (to, from) = plan.copies@[i];
                &&& r[i].node_id == pending[to as int].id
                &&& r[i].content_hash == pending[to as int].hash@
                &&& r[i].model == model
                &&& r[i].dim == stored[from as int].dim
                &&& r[i].vec == stored[from as int].vec@
            })
            &&& 0 <= i < vectors.len() ==> ({
                let p = pending[plan.to_embed@[i] as int];
                &&& r[n + i].node_id == p.id
                &&& r[n + i].content_hash == p.hash@
                &&& r[n + i].model == model
                &&& r[n + i].dim == vectors[i].dim
                &&& r[n + i].vec == vectors[i].blob@
            })
        }),
{
}

/// A node has one vector: a new one replaces it in its place, and a first one is added.
pub proof fn a_node_has_one_vector(v: Seq<EmbeddingView>, e: EmbeddingView, i: int)
    ensures
        (forall|k: int| 0 <= k < v.len() ==> (#[trigger] v[k]).node_id != e.node_id) ==> upserted(
            v,
            e,
        ) == v.push(e),
        0 <= i < v.len() && v[i].node_id == e.node_id && (forall|k: int|
            0 <= k < i ==> (#[trigger] v[k]).node_id != e.node_id) ==> upserted(v, e) == v.update(
            i,
            e,
        ),
{
    let p = is_view_of(e.node_id);
    lemma_first_where(v, p);
    if 0 <= i < v.len() && v[i].node_id == e.node_id && (forall|k: int|
        0 <= k < i ==> (#[trigger] v[k]).node_id != e.node_id) {
        lemma_first_where_is(v, p, i);
    }
}

// ---------------------------------------------------------------------
// Reranking
// ---------------------------------------------------------------------

/// Results are reranked unasked only for more than one word, in a store of a thousand
/// nodes or more; in mode `warm` where a model is at hand, in mode `always` where one can
/// be had, and in no other mode.
pub proof fn when_results_are_reranked(
    auto: Seq<char>,
    loaded: bool,
    remote_alive: bool,
    loadable: bool,
    text: Seq<char>,
    store_nodes: Option<i64>,
)
    ensures
        ({
            let r = auto_reranks(auto, loaded, remote_alive, loadable, text, store_nodes);
            let large = store_nodes is Some && store_nodes->0 >= 1000;
            &&& words(text).len() <= 1 ==> !r
            &&& !large ==> !r
            &&& auto != "warm"@ && auto != "always"@ ==> !r
            &&& words(text).len() > 1 && large && auto == "warm"@ ==> (r <==> loaded || remote_alive)
            &&& words(text).len() > 1 && large && auto == "always"@ ==> (r <==> remote_alive
                || loadable)
        }),
{
    reveal_strlit("warm");
    reveal_strlit("always");
    assert("warm"@.len() == 4);
    assert("always"@.len() == 6);
}

/// A result is ranked by the first 1500 characters of its title and its text.
pub proof fn a_result_is_ranked_by_title_and_text(n: Node)
    ensures
        ({
            let title = if n.title is Some {
                n.title->0@
            } else {
                Seq::empty()
            };
            let body = if n.body is Some {
                n.body->0@
            } else {
                Seq::empty()
            };
            let all = title + "\n"@ + body;
            &&& all.len() <= 1500 ==> doc_of(n) == all
            &&& all.len() > 1500 ==> doc_of(n) == all.take(1500)
        }),
{
}

/// The higher score comes first; of equal scores the one that came first.
pub proof fn the_higher_score_comes_first(scores: Seq<i64>)
    ensures
        ({
            let r = ranking(score_keys(scores));
            &&& r.len() == scores.len()
            &&& forall|a: int, b: int|
                #![trigger r[a], r[b]]
                0 <= a < b < r.len() ==> scores[r[a]] > scores[r[b]] || (scores[r[a]]
                    == scores[r[b]] && r[a] < r[b])
        }),
{
    let keys = score_keys(scores);
    crate::order::ranking_is_sorted(keys, keys.len() as int);
    let r = ranking(keys);
    assert forall|a: int, b: int|
        #![trigger r[a], r[b]]
        0 <= a < b < r.len() implies scores[r[a]] > scores[r[b]] || (scores[r[a]] == scores[r[b]]
        && r[a] < r[b]) by {
        assert(keys[r[a]].less(keys[r[b]]) || (keys[r[a]] == keys[r[b]] && r[a] < r[b]));
    }
}

/// A ranking that names each place once is followed as far as it goes, and behind it
/// stands what it does not name, in the order it had.
pub proof fn the_ranking_is_followed(ranked: Seq<usize>, n: int)
    requires
        forall|k: int| 0 <= k < ranked.len() ==> #[trigger] ranked[k] < n,
        ranked.no_duplicates(),
    ensures
        ({
            let r = reordered(ranked, n);
            &&& r.len() >= ranked.len()
            &&& forall|k: int| 0 <= k < ranked.len() ==> #[trigger] r[k] == ranked[k]
            &&& forall|a: int, b: int|
                #![trigger r[a], r[b]]
                ranked.len() <= a < b < r.len() ==> r[a] < r[b]
        }),
{
    lemma_named(ranked, n);
    let p = is_unnamed(ranked, n);
    let rest = kept(places(n), p);
    let r = reordered(ranked, n);
    let m = ranked.len() as int;
    assert forall|a: int, b: int|
        #![trigger r[a], r[b]]
        m <= a < b < r.len() implies r[a] < r[b] by {
        let (x, y) = super::order::kept_in_order(places(n), p, a - m, b - m);
        assert(rest[a - m] == x);
        assert(rest[b - m] == y);
    }
}

proof fn lemma_named(ranked: Seq<usize>, n: int)
    requires
        forall|k: int| 0 <= k < ranked.len() ==> #[trigger] ranked[k] < n,
        ranked.no_duplicates(),
    ensures
        named(ranked, n).len() == ranked.len(),
        forall|k: int| 0 <= k < ranked.len() ==> #[trigger] named(ranked, n)[k] == ranked[k],
    decreases ranked.len(),
{
    if ranked.len() > 0 {
        let t = ranked.drop_last();
        assert forall|k: int| 0 <= k < t.len() implies #[trigger] t[k] < n by {
            assert(t[k] == ranked[k]);
        }
        lemma_named(t, n);
        let q = named(t, n);
        let i = ranked.last() as int;
        if q.contains(i) {
            let k = choose|k: int| 0 <= k < q.len() && q[k] == i;
            assert(t[k] == i);
            assert(ranked[k] == ranked[ranked.len() - 1]);
        }
        assert(ranked[ranked.len() - 1] < n);
        assert forall|k: int| 0 <= k < ranked.len() implies #[trigger] named(ranked, n)[k]
            == ranked[k] by {
            if k < t.len() {
                assert(q[k] == t[k]);
            }
        }
    }
}

/// A query that is remembered has the vector it was remembered with, and one that is not
/// has none.
pub proof fn a_query_is_remembered_by_its_text(
    c: Seq<(Seq<char>, Seq<u32>)>,
    text: Seq<char>,
    i: int,
)
    ensures
        0 <= i < c.len() && c[i].0 == text && (forall|k: int|
            0 <= k < i ==> (#[trigger] c[k]).0 != text) ==> cached(c, text) == Some(c[i].1),
        (forall|k: int| 0 <= k < c.len() ==> (#[trigger] c[k]).0 != text) ==> cached(c, text)
            is None,
{
    let p = is_entry(text);
    lemma_first_where(c, p);
    if 0 <= i < c.len() && c[i].0 == text && (forall|k: int|
        0 <= k < i ==> (#[trigger] c[k]).0 != text) {
        lemma_first_where_is(c, p, i);
    }
}

/// A model is loaded where it is not loaded yet, was not tried before, and is at hand or
/// may be fetched.
pub proof fn when_a_model_is_loaded(m: Lazy, allow_download: bool, ready: bool)
    ensures
        m.loads(allow_download, ready) <==> !m.loaded && !m.tried && (allow_download || ready),
        crate::engine::QUERY_CACHE_CAP == 256,
        crate::engine::PATCH_THRESHOLD == 200,
{
}

// ---------------------------------------------------------------------
// Roots
// ---------------------------------------------------------------------

/// What marks a root, and what marks a project where no root is marked.
pub proof fn the_markers()
    ensures
        ROOT_MARKERS@.len() == 5,
        ROOT_MARKERS@[0]@ == ".git"@,
        ROOT_MARKERS@[1]@ == ".hg"@,
        ROOT_MARKERS@[2]@ == ".svn"@,
        ROOT_MARKERS@[3]@ == ".jj"@,
        ROOT_MARKERS@[4]@ == ".mimir"@,
        PROJECT_MARKERS@.len() == 8,
        PROJECT_MARKERS@[0]@ == "Cargo.toml"@,
        PROJECT_MARKERS@[1]@ == "package.json"@,
        PROJECT_MARKERS@[2]@ == "pyproject.toml"@,
        PROJECT_MARKERS@[3]@ == "go.mod"@,
        PROJECT_MARKERS@[4]@ == "go.work"@,
        PROJECT_MARKERS@[5]@ == "deno.json"@,
        PROJECT_MARKERS@[6]@ == "deno.jsonc"@,
        PROJECT_MARKERS@[7]@ == "pnpm-workspace.yaml"@,
{
}

/// The nearest directory with a marker: none below it has any, and it has none that comes
/// before the one found.
pub proof fn the_nearest_has_none_below_it<F: Fn(&str, &str) -> bool>(
    has: F,
    dirs: Seq<String>,
    markers: Seq<&'static str>,
    i: int,
    j: int,
    k: int,
    m: int,
)
    ensures
        nearest(has, dirs, markers, i, j) ==> 0 <= i < dirs.len() && 0 <= j < markers.len()
            && answers(has, dirs[i]@, markers[j]@, true) && (0 <= k < i && 0 <= m < markers.len()
            ==> answers(has, dirs[k]@, markers[m]@, false)) && (0 <= m < j ==> answers(
            has,
            dirs[i]@,
            markers[m]@,
            false,
        )),
        nowhere(has, dirs, markers) && 0 <= k < dirs.len() && 0 <= m < markers.len() ==> answers(
            has,
            dirs[k]@,
            markers[m]@,
            false,
        ),
        forall|d: Seq<char>, x: Seq<char>, b: bool| #[trigger]
            answers(has, d, x, b) ==> exists|s: &str, t: &str|
                s@ == d && t@ == x && #[trigger] call_ensures(has, (s, t), b),
{
}

/// A marker is shown without its dot where it is one of version control.
pub proof fn markers_are_shown_by_name(marker: Seq<char>)
    ensures
        label_of(".git"@) == "git"@,
        label_of(".hg"@) == "hg"@,
        label_of(".svn"@) == "svn"@,
        label_of(".jj"@) == "jj"@,
        marker != ".git"@ && marker != ".hg"@ && marker != ".svn"@ && marker != ".jj"@ ==> label_of(
            marker,
        ) == marker,
{
    reveal_strlit(".git");
    reveal_strlit(".hg");
    reveal_strlit(".svn");
    reveal_strlit(".jj");
    assert(".git"@[1] == 'g');
    assert(".hg"@[1] == 'h');
    assert(".svn"@[1] == 's');
    assert(".jj"@[1] == 'j');
}

/// A verbatim path is shown as the plain path it stands for.
pub proof fn verbatim_paths_become_plain(x: Seq<char>)
    ensures
        normal_form("\\\\?\\UNC\\"@ + x) == "\\\\"@ + x,
        !starts_with("\\\\?\\"@ + x, "\\\\?\\UNC\\"@) ==> normal_form("\\\\?\\"@ + x) == x,
        !starts_with(x, "\\\\?\\"@) && !starts_with(x, "\\\\?\\UNC\\"@) ==> normal_form(x) == x,
{
    let (u, v) = ("\\\\?\\UNC\\"@, "\\\\?\\"@);
    super::text::beginnings_and_ends(u, x, x);
    super::text::beginnings_and_ends(v, x, x);
    assert((u + x).skip(u.len() as int) =~= x);
    assert((v + x).skip(v.len() as int) =~= x);
}

/// A session's briefs cost the first one in full and each later one as a recap.
pub proof fn a_session_costs_one_brief_and_recaps(c: BriefConfig)
    ensures
        c.max_fires_per_session == 0 ==> c.session_cost() == 0,
        c.max_fires_per_session == 1 ==> c.session_cost() == c.max_tokens,
        c.max_fires_per_session > 0 ==> c.session_cost() == c.max_tokens + (c.max_fires_per_session
            - 1) * c.recap_tokens,
        crate::config::MIN_SAFE_RETENTION_DAYS == 60,
{
    if c.max_fires_per_session == 1 {
        assert(0 * c.recap_tokens == 0) by (nonlinear_arith);
    }
}

/// A store is brought to version three, one version after the other; what is newer, or no
/// version, is left.
pub proof fn versions_follow_each_other(found: int)
    ensures
        0 <= found < 3 ==> steps_from(found).len() == 3 - found && forall|i: int|
            0 <= i < 3 - found ==> #[trigger] steps_from(found)[i] == found + 1 + i,
        found < 0 || found >= 3 ==> steps_from(found).len() == 0,
        crate::db::CHECKPOINT_SECONDS == 120,
{
}

/// What is said of each error.
pub proof fn errors_say_what_is_wrong(what: String, n: usize, found: i64, supported: i64)
    ensures
        Error::NotFound(what).text() == "not found: "@ + what@,
        Error::AmbiguousRef(what, n).text() == "ambiguous reference '"@ + what@ + "' matches "@
            + decimal_nat(n as nat) + " nodes; use a longer prefix"@,
        Error::Invalid(what).text() == what@,
        Error::Config(what).text() == "config error: "@ + what@,
        (Error::SchemaTooNew { found, supported }).text() == "database schema version "@ + decimal(
            found as int,
        ) + " is newer than this binary supports ("@ + decimal(supported as int)
            + "); upgrade mimir"@,
{
}

// ---------------------------------------------------------------------
// Numbers and lists
// ---------------------------------------------------------------------

proof fn lemma_leading(digits: Seq<char>, n: int)
    requires
        0 <= n <= digits.len(),
    ensures
        leading(digits, n) == digits_value(digits.take(n)) || !crate::text::all_digits(digits),
    decreases n,
{
    if n > 0 && crate::text::all_digits(digits) {
        lemma_leading(digits, n - 1);
        let t = digits.take(n);
        assert(t.drop_last() =~= digits.take(n - 1));
        assert(t.last() == digits[n - 1]);
        assert(crate::text::is_digit(digits[n - 1]));
    }
}

/// A time that is no whole number is rounded up: the digits before the point, and one more
/// where something but zeros follows; below zero what follows is dropped.
pub proof fn times_are_rounded_up(digits: Seq<char>, point: int)
    requires
        0 <= point <= digits.len(),
        forall|i: int| 0 <= i < digits.len() ==> '0' <= #[trigger] digits[i] <= '9',
    ensures
        ({
            let whole = digits_value(digits.take(point));
            let more = exists|i: int| point <= i < digits.len() && #[trigger] digits[i] != '0';
            &&& more ==> ceiling(Decimal { negative: false, digits, point }) == whole + 1
            &&& !more ==> ceiling(Decimal { negative: false, digits, point }) == whole
            &&& ceiling(Decimal { negative: true, digits, point }) == -(whole as int)
        }),
{
    assert(crate::text::all_digits(digits)) by {
        assert forall|i: int| 0 <= i < digits.len() implies crate::text::is_digit(
            #[trigger] digits[i],
        ) by {
            assert('0' <= digits[i] <= '9');
        }
    }
    lemma_leading(digits, point);
    if exists|i: int| point <= i < digits.len() && #[trigger] digits[i] != '0' {
        let i = choose|i: int| point <= i < digits.len() && #[trigger] digits[i] != '0';
        assert(goes_on(digits, point));
    }
}

/// A number too large for a time is none, one too small is the smallest; `true` and
/// `false` stand for one and zero.
pub proof fn times_out_of_range(json: Seq<char>)
    ensures
        second_of("true"@) == Some(1i64),
        second_of("false"@) == Some(0i64),
        json != "true"@ && json != "false"@ && decimal_in(json) is None ==> second_of(json) is None,
        json != "true"@ && json != "false"@ ==> (decimal_in(json) matches Some(d) ==> (ceiling(d)
            > i64::MAX ==> second_of(json) is None) && (ceiling(d) < i64::MIN ==> second_of(json)
            == Some(i64::MIN)) && (i64::MIN <= ceiling(d) <= i64::MAX ==> second_of(json) is Some
            && second_of(json)->0 == ceiling(d))),
{
    reveal_strlit("true");
    reveal_strlit("false");
    assert("true"@.len() == 4);
    assert("false"@.len() == 5);
}

/// Of what occurs more than once the first is kept, and the order stays.
pub proof fn the_first_of_each_is_kept(s: Seq<Seq<char>>, x: Seq<char>)
    ensures
        first_seen(s).contains(x) <==> s.contains(x),
        first_seen(s).no_duplicates(),
        s.contains(x) ==> first_seen(s.push(x)) == first_seen(s),
        !s.contains(x) ==> first_seen(s.push(x)) == first_seen(s).push(x),
    decreases s.len(),
{
    assert(s.push(x).drop_last() =~= s);
    if s.len() > 0 {
        let t = s.drop_last();
        the_first_of_each_is_kept(t, x);
        the_first_of_each_is_kept(t, s.last());
        let a = first_seen(t);
        assert(s =~= t.push(s.last()));
        assert(s.contains(x) <==> t.contains(x) || s.last() == x) by {
            if t.contains(x) {
                let i = choose|i: int| 0 <= i < t.len() && t[i] == x;
                assert(s[i] == x);
            }
            if s.last() == x {
                assert(s[s.len() - 1] == x);
            }
            if s.contains(x) && s.last() != x {
                let i = choose|i: int| 0 <= i < s.len() && s[i] == x;
                assert(t[i] == x);
            }
        }
        let b = a.push(s.last());
        assert(b.contains(x) <==> a.contains(x) || s.last() == x) by {
            if a.contains(x) {
                let i = choose|i: int| 0 <= i < a.len() && a[i] == x;
                assert(b[i] == x);
            }
            if s.last() == x {
                assert(b[b.len() - 1] == x);
            }
            if b.contains(x) && s.last() != x {
                let i = choose|i: int| 0 <= i < b.len() && b[i] == x;
                assert(a[i] == x);
            }
        }
    } else {
        assert(!s.contains(x));
        assert(!first_seen(s).contains(x));
    }
}

proof fn lemma_one_part(s: Seq<char>, c: char)
    requires
        forall|k: int| 0 <= k < s.len() ==> #[trigger] s[k] != c,
    ensures
        split(s, Delim::Char(c)) == seq![s],
{
    let d = Delim::Char(c);
    let e = Seq::<char>::empty();
    crate::text::lemma_split_append(e, s, d);
    assert(e + s =~= s);
    assert(split(e, d) =~= seq![e]);
    assert(split(s, d) =~= seq![s]);
}

/// A number is read from its digits, those before the point and those behind it; the
/// point stands behind the first.
pub proof fn a_fraction_is_read_digit_by_digit(w: Seq<char>, f: Seq<char>)
    requires
        w.len() > 0,
        forall|k: int| 0 <= k < w.len() ==> '0' <= #[trigger] w[k] <= '9',
        forall|k: int| 0 <= k < f.len() ==> '0' <= #[trigger] f[k] <= '9',
    ensures
        decimal_in(w) == Some(Decimal { negative: false, digits: w, point: w.len() as int }),
        decimal_in(w + seq!['.'] + f) == Some(
            Decimal { negative: false, digits: w + f, point: w.len() as int },
        ),
        decimal_in(seq!['-'] + w) == Some(
            Decimal { negative: true, digits: w, point: w.len() as int },
        ),
{
    let s = w + seq!['.'] + f;
    let m = seq!['-'] + w;
    assert forall|k: int| 0 <= k < w.len() implies #[trigger] w[k] != 'e' && w[k] != '.' && w[k]
        != '-' by {
        assert('0' <= w[k] <= '9');
    }
    assert forall|k: int| 0 <= k < f.len() implies #[trigger] f[k] != 'e' && f[k] != '.' by {
        assert('0' <= f[k] <= '9');
    }
    assert forall|k: int| 0 <= k < s.len() implies #[trigger] s[k] != 'e' by {
        if k < w.len() {
            assert(s[k] == w[k]);
        } else if k > w.len() {
            assert(s[k] == f[k - w.len() - 1]);
        }
    }
    assert forall|k: int| 0 <= k < m.len() implies #[trigger] m[k] != 'e' by {
        if k > 0 {
            assert(m[k] == w[k - 1]);
        }
    }
    lemma_one_part(w, 'e');
    lemma_one_part(s, 'e');
    lemma_one_part(m, 'e');
    lemma_one_part(w, '.');
    lemma_one_part(f, '.');
    crate::text::lemma_split_at(w, '.', f, Delim::Char('.'));
    assert(split(s, Delim::Char('.')) =~= seq![w, f]);
    assert(m.skip(1) =~= w);
    assert(w + Seq::<char>::empty() =~= w);
    assert(crate::text::all_digits(w)) by {
        assert forall|k: int| 0 <= k < w.len() implies crate::text::is_digit(#[trigger] w[k]) by {
            assert('0' <= w[k] <= '9');
        }
    }
    assert(crate::text::all_digits(w + f)) by {
        assert forall|k: int| 0 <= k < (w + f).len() implies crate::text::is_digit(
            #[trigger] (w + f)[k],
        ) by {
            if k < w.len() {
                assert('0' <= w[k] <= '9');
            } else {
                assert('0' <= f[k - w.len()] <= '9');
            }
        }
    }
    assert(s[0] == w[0]);
}

} // verus!
