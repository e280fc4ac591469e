//! The engine's decisions: when to rerank, whom to ask, how a ranking reorders the
//! hits, when a model is loaded, and which query embeddings are remembered.

use vstd::prelude::*;

use crate::model::Node;
#[allow(unused_imports)]
use crate::order::{as_ints, ranking};
use crate::order::{rank, Key};
#[allow(unused_imports)]
use crate::seqs::{
    first_n, first_where, kept, lemma_first_where, lemma_first_where_is, lemma_first_where_none,
    lemma_kept_all,
};
use crate::text::{chars_of, same, split_fields, string_of, Delim};
#[allow(unused_imports)]
use crate::text::{texts, words};
#[allow(unused_imports)]
use vstd::string::*;

verus! {

/// Most query embeddings that are remembered.
pub const QUERY_CACHE_CAP: usize = 256;

/// Fewest nodes of a store that is reranked of its own accord.
pub const RERANK_MIN_STORE_NODES: i64 = 1000;

/// Most nodes for which the table of vectors is patched rather than dropped.
pub const PATCH_THRESHOLD: usize = 200;

/// Most characters of a document that a reranker is given.
pub const RERANK_DOC_CHARS: usize = 1500;

// ---------------------------------------------------------------------
// Whether to rerank
// ---------------------------------------------------------------------

/// Whether a query and a store are worth reranking: more than one word, and a store
/// that is not small. A store of unknown size counts as small.
pub open spec fn gates_pass(text: Seq<char>, store_nodes: Option<i64>) -> bool {
    words(text).len() > 1 && match store_nodes {
        Some(n) => n >= RERANK_MIN_STORE_NODES,
        None => false,
    }
}

/// Whether a query and a store are worth reranking.
pub fn rerank_query_gates_pass(text: &str, store_nodes: Option<i64>) -> (r: bool)
    ensures
        r == gates_pass(text@, store_nodes),
{
    let parts = split_fields(text, Delim::Space);
    assert(texts(parts@).len() == parts@.len());
    parts.len() > 1 && (match store_nodes {
        Some(n) => n >= RERANK_MIN_STORE_NODES,
        None => false,
    })
}

/// Whether the automatic reranking has to try to load a model before it can decide:
/// only where it is always wanted, and no daemon holds one.
pub fn auto_rerank_loads(auto: &str, remote_alive: bool) -> (r: bool)
    ensures
        r == (auto@ == "always"@ && !remote_alive),
{
    same(auto, "always") && !remote_alive
}

/// Whether the automatic reranking fires. `warm` asks for a model that is at hand, in
/// this process or in a daemon; `always` also for one that can be loaded. Every other
/// setting is off.
pub open spec fn auto_reranks(
    auto: Seq<char>,
    loaded: bool,
    remote_alive: bool,
    loadable: bool,
    text: Seq<char>,
    store_nodes: Option<i64>,
) -> bool {
    ((auto == "warm"@ && (loaded || remote_alive)) || (auto == "always"@ && (remote_alive
        || loadable))) && gates_pass(text, store_nodes)
}

/// Whether the automatic reranking fires. `loadable` is whether a model is there once
/// it was tried to load one.
pub fn should_auto_rerank(
    auto: &str,
    loaded: bool,
    remote_alive: bool,
    loadable: bool,
    text: &str,
    store_nodes: Option<i64>,
) -> (r: bool)
    ensures
        r == auto_reranks(auto@, loaded, remote_alive, loadable, text@, store_nodes),
{
    let available = if same(auto, "warm") {
        proof {
            reveal_strlit("warm");
            reveal_strlit("always");
            assert("warm"@[0] != "always"@[0]);
        }
        loaded || remote_alive
    } else if same(auto, "always") {
        remote_alive || loadable
    } else {
        false
    };
    available && rerank_query_gates_pass(text, store_nodes)
}

/// How many hits are fetched: enough candidates where they are reranked.
pub fn fetch_limit(limit: usize, candidates: usize, rerank: bool) -> (r: usize)
    ensures
        r == if rerank && candidates > limit {
            candidates
        } else {
            limit
        },
{
    if rerank && candidates > limit {
        candidates
    } else {
        limit
    }
}

/// What a reranker reads of a hit: title and body, cut to what it can take.
pub open spec fn doc_of(n: Node) -> Seq<char> {
    let title = match n.title {
        Some(t) => t@,
        None => Seq::empty(),
    };
    let body = match n.body {
        Some(b) => b@,
        None => Seq::empty(),
    };
    first_n(title + "\n"@ + body, RERANK_DOC_CHARS as int)
}

/// What a reranker reads of a hit.
pub fn rerank_doc(n: &Node) -> (r: String)
    ensures
        r@ == doc_of(*n),
{
    let mut out = match &n.title {
        Some(t) => t.as_str().to_owned(),
        None => String::new(),
    };
    assert(n.title is None ==> out@ =~= Seq::empty());
    out.append("\n");
    let ghost head = out@;
    match &n.body {
        Some(b) => {
            out.append(b.as_str());
        },
        None => {
            assert(head + Seq::empty() =~= head);
        },
    }
    let v = chars_of(out.as_str());
    let k: usize = if v.len() <= RERANK_DOC_CHARS {
        v.len()
    } else {
        RERANK_DOC_CHARS
    };
    let r = string_of(&v, 0, k);
    assert(r@ =~= first_n(v@, RERANK_DOC_CHARS as int));
    r
}

// ---------------------------------------------------------------------
// Whom to ask
// ---------------------------------------------------------------------

/// The next step towards a ranking.
#[derive(Debug, Clone, Copy, PartialEq, Eq, Structural)]
pub enum RerankStep {
    /// Rank with the model of this process, loading it if need be.
    Local,
    /// Ask the daemon.
    Remote,
    /// Keep the order there is.
    Keep,
}

/// Whom to ask first: a model that is loaded here, else a live daemon, else a model
/// to be loaded, but only where that was asked for.
pub fn first_step(loaded: bool, remote_alive: bool, explicit: bool, auto: &str) -> (r: RerankStep)
    ensures
        r == if loaded {
            RerankStep::Local
        } else if remote_alive {
            RerankStep::Remote
        } else if explicit || auto@ == "always"@ {
            RerankStep::Local
        } else {
            RerankStep::Keep
        },
{
    if loaded {
        RerankStep::Local
    } else if remote_alive {
        RerankStep::Remote
    } else if explicit || same(auto, "always") {
        RerankStep::Local
    } else {
        RerankStep::Keep
    }
}

/// Whom to ask when the daemon failed: that does not justify loading a model, unless
/// the caller demanded a ranking.
pub fn step_after_remote_failed(explicit: bool) -> (r: RerankStep)
    ensures
        r == if explicit {
            RerankStep::Local
        } else {
            RerankStep::Keep
        },
{
    if explicit {
        RerankStep::Local
    } else {
        RerankStep::Keep
    }
}

/// Sort keys: the highest score first.
pub open spec fn score_keys(scores: Seq<i64>) -> Seq<Key> {
    Seq::new(
        scores.len(),
        |i: int| Key { first: (-1 - scores[i]) as i128, second: 0, third: 0 },
    )
}

/// The documents by the scores that a daemon gave them, best first. Scores are
/// numbers whose order is that of the relevance. Nothing where the daemon did not
/// score every document.
pub fn rank_by_scores(scores: &Vec<i64>, docs: usize) -> (r: Option<Vec<usize>>)
    ensures
        match r {
            Some(order) => scores@.len() == docs && as_ints(order@) == ranking(score_keys(scores@)),
            None => scores@.len() != docs,
        },
{
    if scores.len() != docs {
        return None;
    }
    let mut keys: Vec<Key> = Vec::new();
    let mut i: usize = 0;
    while i < scores.len()
        invariant
            i <= scores@.len(),
            keys@.len() == i,
            forall|k: int| 0 <= k < i ==> #[trigger] keys@[k] == score_keys(scores@)[k],
        decreases scores@.len() - i,
    {
        keys.push(Key::of(-1 - (scores[i] as i128)));
        i += 1;
    }
    assert(keys@ =~= score_keys(scores@));
    Some(rank(&keys))
}

// ---------------------------------------------------------------------
// Reordering
// ---------------------------------------------------------------------

/// The places below `n` that a ranking names, each where it names it first.
pub open spec fn named(ranked: Seq<usize>, n: int) -> Seq<int>
    decreases ranked.len(),
{
    if ranked.len() == 0 {
        Seq::empty()
    } else {
        let before = named(ranked.drop_last(), n);
        let i = ranked.last() as int;
        if i < n && !before.contains(i) {
            before.push(i)
        } else {
            before
        }
    }
}

/// The numbers below `n`.
pub open spec fn places(n: int) -> Seq<int> {
    Seq::new(n as nat, |i: int| i)
}

/// Places that a ranking does not name.
pub open spec fn is_unnamed(ranked: Seq<usize>, n: int) -> spec_fn(int) -> bool {
    |i: int| !named(ranked, n).contains(i)
}

/// The hits in their new order: those that the ranking names, and behind them the
/// others as they were.
pub open spec fn reordered(ranked: Seq<usize>, n: int) -> Seq<int> {
    named(ranked, n) + kept(places(n), is_unnamed(ranked, n))
}

/// The places of `n` hits in the order of a ranking, best first, the first `limit`
/// of them. What the ranking does not name keeps its order behind the rest.
pub fn reorder(ranked: &Vec<usize>, n: usize, limit: usize) -> (r: Vec<usize>)
    ensures
        as_ints(r@) == first_n(reordered(ranked@, n as int), limit as int),
        forall|i: int| 0 <= i < r@.len() ==> #[trigger] r@[i] < n,
{
    let mut used: Vec<bool> = Vec::new();
    let mut z: usize = 0;
    while z < n
        invariant
            z <= n,
            used@.len() == z,
            forall|i: int| 0 <= i < z ==> !#[trigger] used@[i],
        decreases n - z,
    {
        used.push(false);
        z += 1;
    }
    let mut out: Vec<usize> = Vec::new();
    let mut k: usize = 0;
    assert(as_ints(out@) =~= named(ranked@.take(0), n as int));
    while k < ranked.len()
        invariant
            k <= ranked@.len(),
            used@.len() == n,
            as_ints(out@) == named(ranked@.take(k as int), n as int),
            forall|i: int| 0 <= i < n ==> #[trigger] used@[i] == as_ints(out@).contains(i),
            forall|i: int| 0 <= i < out@.len() ==> #[trigger] out@[i] < n,
        decreases ranked@.len() - k,
    {
        assert(ranked@.take(k + 1).drop_last() =~= ranked@.take(k as int));
        assert(ranked@.take(k + 1).last() == ranked@[k as int]);
        let i: usize = ranked[k];
        if i < n && !used[i] {
            let ghost before = as_ints(out@);
            out.push(i);
            used.set(i, true);
            assert(as_ints(out@) =~= before.push(i as int));
            assert forall|j: int| 0 <= j < n implies #[trigger] used@[j] == as_ints(
                out@,
            ).contains(j) by {
                if before.contains(j) {
                    let x = choose|x: int| 0 <= x < before.len() && before[x] == j;
                    assert(before.push(i as int)[x] == j);
                }
                if j == i {
                    assert(before.push(i as int)[before.len() as int] == j);
                }
                if before.push(i as int).contains(j) && j != i {
                    let x = choose|x: int|
                        0 <= x < before.push(i as int).len() && before.push(i as int)[x] == j;
                    assert(before[x] == j);
                }
            }
        }
        k += 1;
    }
    assert(ranked@.take(ranked@.len() as int) =~= ranked@);
    let ghost head = named(ranked@, n as int);
    let ghost p = is_unnamed(ranked@, n as int);
    let ghost all = places(n as int);
    assert(head + kept(all.take(0), p) =~= head);
    let mut i: usize = 0;
    while i < n
        invariant
            i <= n,
            used@.len() == n,
            head == named(ranked@, n as int),
            p == is_unnamed(ranked@, n as int),
            all == places(n as int),
            forall|i: int| 0 <= i < n ==> #[trigger] used@[i] == head.contains(i),
            as_ints(out@) == head + kept(all.take(i as int), p),
            forall|i: int| 0 <= i < out@.len() ==> #[trigger] out@[i] < n,
        decreases n - i,
    {
        assert(all.take(i + 1).drop_last() =~= all.take(i as int));
        assert(all.take(i + 1).last() == i);
        if !used[i] {
            let ghost before = as_ints(out@);
            out.push(i);
            assert(as_ints(out@) =~= before.push(i as int));
            assert(as_ints(out@) =~= head + kept(all.take(i + 1), p));
        }
        i += 1;
    }
    assert(all.take(n as int) =~= all);
    let ghost whole = as_ints(out@);
    if out.len() > limit {
        out.truncate(limit);
        assert(as_ints(out@) =~= whole.take(limit as int));
    }
    out
}

// ---------------------------------------------------------------------
// Loading
// ---------------------------------------------------------------------

/// A model that is loaded on first use.
#[derive(Debug, Clone, Copy, PartialEq, Eq, Structural)]
pub struct Lazy {
    pub loaded: bool,
    pub tried: bool,
}

impl Lazy {
    /// Not loaded, and not tried.
    pub fn new() -> (r: Lazy)
        ensures
            r == (Lazy { loaded: false, tried: false }),
    {
        Lazy { loaded: false, tried: false }
    }

    /// Whether the model is loaded now: not yet loaded, not tried before, and either
    /// downloading is allowed or the model was downloaded.
    pub open spec fn loads(self, allow_download: bool, ready: bool) -> bool {
        !self.loaded && !self.tried && (allow_download || ready)
    }

    /// Decides whether to load the model, and notes that it is tried.
    pub fn start(&mut self, allow_download: bool, ready: bool) -> (r: bool)
        ensures
            r == old(self).loads(allow_download, ready),
            final(self).loaded == old(self).loaded,
            final(self).tried == (old(self).tried || r),
    {
        let go = !self.loaded && !self.tried && (allow_download || ready);
        if go {
            self.tried = true;
        }
        go
    }

    /// Notes how a load ended.
    pub fn finish(&mut self, ok: bool)
        ensures
            final(self).loaded == (old(self).loaded || ok),
            final(self).tried == old(self).tried,
    {
        if ok {
            self.loaded = true;
        }
    }
}

/// What becomes of the table of vectors when nodes were embedded.
#[derive(Debug, Clone, Copy, PartialEq, Eq, Structural)]
pub enum MatrixStep {
    /// Nothing was embedded: it stays.
    Keep,
    /// A few nodes were: they are patched in.
    Patch,
    /// Many were: it is dropped, and built again when it is needed.
    Drop,
}

/// What becomes of the table of vectors when `n` nodes were embedded.
pub fn matrix_step(n: usize) -> (r: MatrixStep)
    ensures
        r == if n == 0 {
            MatrixStep::Keep
        } else if n <= PATCH_THRESHOLD {
            MatrixStep::Patch
        } else {
            MatrixStep::Drop
        },
{
    if n == 0 {
        MatrixStep::Keep
    } else if n <= PATCH_THRESHOLD {
        MatrixStep::Patch
    } else {
        MatrixStep::Drop
    }
}

// ---------------------------------------------------------------------
// Remembered query embeddings
// ---------------------------------------------------------------------

/// The embeddings of recent queries, each by the bits of its numbers.
#[derive(Debug)]
pub struct QueryCache {
    entries: Vec<(String, Vec<u32>)>,
}

/// Entries of a query.
pub open spec fn is_entry(text: Seq<char>) -> spec_fn((Seq<char>, Seq<u32>)) -> bool {
    |e: (Seq<char>, Seq<u32>)| e.0 == text
}

impl View for QueryCache {
    type V = Seq<(Seq<char>, Seq<u32>)>;

    closed spec fn view(&self) -> Seq<(Seq<char>, Seq<u32>)> {
        Seq::new(self.entries@.len(), |i: int| (self.entries@[i].0@, self.entries@[i].1@))
    }
}

/// The embedding that a cache has of a query.
pub open spec fn cached(c: Seq<(Seq<char>, Seq<u32>)>, text: Seq<char>) -> Option<Seq<u32>> {
    match first_where(c, is_entry(text)) {
        Some(i) => Some(c[i].1),
        None => None,
    }
}

impl QueryCache {
    /// Nothing remembered.
    pub fn new() -> (r: QueryCache)
        ensures
            r@.len() == 0,
    {
        QueryCache { entries: Vec::new() }
    }

    fn find(&self, text: &str) -> (r: Option<usize>)
        ensures
            match r {
                Some(i) => i < self.entries@.len() && first_where(self@, is_entry(text@)) == Some(
                    i as int,
                ),
                None => first_where(self@, is_entry(text@)) is None,
            },
    {
        let ghost c = self@;
        let mut i: usize = 0;
        while i < self.entries.len()
            invariant
                i <= self.entries@.len(),
                c == self@,
                c.len() == self.entries@.len(),
                forall|k: int| 0 <= k < i ==> !is_entry(text@)(#[trigger] c[k]),
            decreases self.entries@.len() - i,
        {
            assert(c[i as int] == (self.entries@[i as int].0@, self.entries@[i as int].1@));
            if same(self.entries[i].0.as_str(), text) {
                proof {
                    lemma_first_where_is(c, is_entry(text@), i as int);
                }
                return Some(i);
            }
            i += 1;
        }
        proof {
            lemma_first_where_none(c, is_entry(text@));
        }
        None
    }

    /// The embedding of a query, if it is remembered.
    pub fn get(&self, text: &str) -> (r: Option<&Vec<u32>>)
        ensures
            match r {
                Some(v) => cached(self@, text@) == Some(v@),
                None => cached(self@, text@) is None,
            },
    {
        match self.find(text) {
            Some(i) => {
                assert(self@[i as int] == (self.entries@[i as int].0@, self.entries@[i as int].1@));
                Some(&self.entries[i].1)
            },
            None => None,
        }
    }

    /// Remembers the embedding of a query that is not remembered. A full cache
    /// forgets everything first.
    pub fn insert(&mut self, text: &str, v: Vec<u32>)
        requires
            cached(old(self)@, text@) is None,
        ensures
            final(self)@ == (if old(self)@.len() >= QUERY_CACHE_CAP {
                Seq::empty()
            } else {
                old(self)@
            }).push((text@, v@)),
    {
        let ghost before = self@;
        if self.entries.len() >= QUERY_CACHE_CAP {
            self.entries.clear();
        }
        let ghost rest = self@;
        assert(rest =~= if before.len() >= QUERY_CACHE_CAP {
            Seq::empty()
        } else {
            before
        });
        self.entries.push((text.to_owned(), v));
        assert(self@ =~= rest.push((text@, v@)));
    }
}

// ---------------------------------------------------------------------
// Laws
// ---------------------------------------------------------------------

proof fn lemma_named(ranked: Seq<usize>, n: int)
    ensures
        named(ranked, n).no_duplicates(),
        forall|i: int| 0 <= i < named(ranked, n).len() ==> 0 <= #[trigger] named(ranked, n)[i] < n,
    decreases ranked.len(),
{
    if ranked.len() > 0 {
        lemma_named(ranked.drop_last(), n);
        let before = named(ranked.drop_last(), n);
        let after = named(ranked, n);
        if after.len() > before.len() {
            assert forall|a: int, b: int| 0 <= a < after.len() && 0 <= b < after.len() && a != b implies after[a]
                != after[b] by {
                if a < before.len() && b < before.len() {
                    assert(after[a] == before[a] && after[b] == before[b]);
                } else if a < before.len() {
                    assert(before.contains(before[a]));
                } else if b < before.len() {
                    assert(before.contains(before[b]));
                }
            }
        }
    }
}

proof fn lemma_kept_places(p: spec_fn(int) -> bool, n: int)
    requires
        0 <= n,
    ensures
        kept(places(n), p).no_duplicates(),
        forall|i: int|
            0 <= i < kept(places(n), p).len() ==> 0 <= #[trigger] kept(places(n), p)[i] < n && p(
                kept(places(n), p)[i],
            ),
    decreases n,
{
    if n > 0 {
        lemma_kept_places(p, n - 1);
        let t = places(n);
        assert(t.drop_last() =~= places(n - 1));
        assert(t.last() == n - 1);
        let before = kept(places(n - 1), p);
        let after = kept(t, p);
        assert forall|a: int, b: int| 0 <= a < after.len() && 0 <= b < after.len() && a != b implies after[a]
            != after[b] by {
            if a < before.len() {
                assert(after[a] == before[a]);
            }
            if b < before.len() {
                assert(after[b] == before[b]);
            }
        }
        assert forall|i: int| 0 <= i < after.len() implies 0 <= #[trigger] after[i] < n && p(
            after[i],
        ) by {
            if i < before.len() {
                assert(after[i] == before[i]);
            }
        }
    } else {
        assert(places(n) =~= Seq::empty());
    }
}

/// Reranking loses no hit and doubles none, whatever the reranker says: the new
/// order holds each place once.
pub proof fn reordering_is_a_permutation(ranked: Seq<usize>, n: int)
    requires
        0 <= n,
    ensures
        reordered(ranked, n).no_duplicates(),
        forall|i: int| 0 <= i < n ==> #[trigger] reordered(ranked, n).contains(i),
        forall|k: int|
            0 <= k < reordered(ranked, n).len() ==> 0 <= #[trigger] reordered(ranked, n)[k] < n,
{
    let p = is_unnamed(ranked, n);
    let head = named(ranked, n);
    let tail = kept(places(n), p);
    let all = reordered(ranked, n);
    lemma_named(ranked, n);
    lemma_kept_places(p, n);
    assert forall|a: int, b: int| 0 <= a < all.len() && 0 <= b < all.len() && a != b implies all[a]
        != all[b] by {
        if a < head.len() && b >= head.len() {
            assert(all[b] == tail[b - head.len()]);
            assert(p(tail[b - head.len()]));
            assert(head.contains(head[a]));
        } else if b < head.len() && a >= head.len() {
            assert(all[a] == tail[a - head.len()]);
            assert(p(tail[a - head.len()]));
            assert(head.contains(head[b]));
        } else if a >= head.len() {
            assert(all[a] == tail[a - head.len()]);
            assert(all[b] == tail[b - head.len()]);
        }
    }
    assert forall|i: int| 0 <= i < n implies #[trigger] all.contains(i) by {
        if head.contains(i) {
            let k = choose|k: int| 0 <= k < head.len() && head[k] == i;
            assert(all[k] == i);
        } else {
            assert(places(n)[i] == i);
            lemma_kept_all(places(n), p, i);
            let k = choose|k: int| 0 <= k < tail.len() && tail[k] == i;
            assert(all[head.len() + k] == i);
        }
    }
    assert forall|k: int| 0 <= k < all.len() implies 0 <= #[trigger] all[k] < n by {
        if k >= head.len() {
            assert(all[k] == tail[k - head.len()]);
        }
    }
}

/// A ranking that names nothing changes nothing.
pub proof fn no_ranking_keeps_the_order(n: int)
    requires
        0 <= n,
    ensures
        reordered(Seq::empty(), n) == places(n),
{
    let p = is_unnamed(Seq::empty(), n);
    assert(named(Seq::empty(), n) =~= Seq::empty());
    lemma_kept_everything(places(n), p);
    assert(reordered(Seq::empty(), n) =~= places(n));
}

proof fn lemma_kept_everything(s: Seq<int>, p: spec_fn(int) -> bool)
    requires
        forall|x: int| #[trigger] p(x),
    ensures
        kept(s, p) == s,
    decreases s.len(),
{
    if s.len() > 0 {
        lemma_kept_everything(s.drop_last(), p);
        assert(p(s.last()));
        assert(s.drop_last().push(s.last()) =~= s);
    } else {
        assert(kept(s, p) =~= s);
    }
}

/// A query that was just embedded is remembered, and the cache never grows beyond
/// its bound.
pub proof fn a_fresh_query_is_remembered(
    before: Seq<(Seq<char>, Seq<u32>)>,
    after: Seq<(Seq<char>, Seq<u32>)>,
    text: Seq<char>,
    v: Seq<u32>,
)
    requires
        before.len() <= QUERY_CACHE_CAP,
        cached(before, text) is None,
        after == (if before.len() >= QUERY_CACHE_CAP {
            Seq::empty()
        } else {
            before
        }).push((text, v)),
    ensures
        cached(after, text) == Some(v),
        after.len() <= QUERY_CACHE_CAP,
{
    let n = after.len() - 1;
    lemma_first_where(before, is_entry(text));
    assert forall|k: int| 0 <= k < n implies !is_entry(text)(#[trigger] after[k]) by {
        assert(after[k] == before[k]);
    }
    assert(is_entry(text)(after[n]));
    lemma_first_where_is(after, is_entry(text), n);
}

/// A model is tried once: after a try, nothing loads it again.
pub proof fn a_model_is_tried_once(m: Lazy, allow_download: bool, ready: bool)
    requires
        m.tried,
    ensures
        !m.loads(allow_download, ready),
{
}

} // verus!
