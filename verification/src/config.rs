//! Settings. Weights and prices, which are fractions, are kept by the code that
//! computes with them.

use vstd::prelude::*;

use crate::paths::join_below;
#[allow(unused_imports)]
use crate::paths::below;
use crate::text::same;
#[allow(unused_imports)]
use vstd::string::*;

verus! {

/// Where an instance keeps its files.
#[derive(Debug, Clone)]
pub struct Paths {
    pub config_file: String,
    pub db_file: String,
    pub models_dir: String,
}

impl Paths {
    /// Everything under one root.
    pub fn under_root(root: &str) -> (r: Paths)
        ensures
            r.config_file@ == below(root@, "config.toml"@),
            r.db_file@ == below(root@, "mimir.db"@),
            r.models_dir@ == below(root@, "models"@),
    {
        Paths {
            config_file: join_below(root, "config.toml"),
            db_file: join_below(root, "mimir.db"),
            models_dir: join_below(root, "models"),
        }
    }
}

/// The session brief.
#[derive(Debug, Clone, Copy, PartialEq, Eq, Structural)]
pub struct BriefConfig {
    /// Master switch.
    pub enabled: bool,
    /// Most tokens of the brief at a session's start.
    pub max_tokens: usize,
    /// Most tokens of a brief that is repeated.
    pub recap_tokens: usize,
    /// Most lines.
    pub max_items: usize,
    /// Most briefs a session.
    pub max_fires_per_session: usize,
    /// Most characters a line quotes of a memory.
    pub line_chars: usize,
    /// Whether memories of no project must be relevant to the project.
    pub global_gate: bool,
    /// Millionths of the best score that a memory has to reach; 0 turns the floor
    /// off.
    pub score_floor: u32,
}

impl Default for BriefConfig {
    /// A brief that costs a session at most 450 tokens.
    fn default() -> (r: BriefConfig)
        ensures
            r == (BriefConfig {
                enabled: true,
                max_tokens: 150,
                recap_tokens: 100,
                max_items: 6,
                max_fires_per_session: 4,
                line_chars: 100,
                global_gate: true,
                score_floor: 750_000,
            }),
            r.session_cost() == 450,
    {
        BriefConfig {
            enabled: true,
            max_tokens: 150,
            recap_tokens: 100,
            max_items: 6,
            max_fires_per_session: 4,
            line_chars: 100,
            global_gate: true,
            score_floor: 750_000,
        }
    }
}

impl BriefConfig {
    /// Most tokens that briefs may cost a session: a full one and the repeats.
    pub open spec fn session_cost(self) -> int {
        if self.max_fires_per_session == 0 {
            0
        } else {
            self.max_tokens + (self.max_fires_per_session - 1) * self.recap_tokens
        }
    }
}

/// Delegation of model inference.
#[derive(Debug, Clone)]
pub struct DaemonConfig {
    /// `auto`: delegate when the daemon answers; `off`: never.
    pub inference: String,
}

impl Default for DaemonConfig {
    fn default() -> (r: DaemonConfig)
        ensures
            r.inference@ == "auto"@,
    {
        DaemonConfig { inference: "auto".to_owned() }
    }
}

/// Agent hooks.
#[derive(Debug, Clone)]
pub struct HooksConfig {
    /// Where the warm injection endpoint answers.
    pub inject_url: String,
    /// `fast`: no embedder on the cold path; `full`: the whole search.
    pub cold_mode: String,
    /// Context guard: `off`, `pause` or `handoff`.
    pub context_guard: String,
    /// Share of the context window at which the guard first fires.
    pub context_guard_threshold_pct: u8,
    /// The model's context window, in tokens.
    pub context_window_tokens: u32,
}

impl Default for HooksConfig {
    fn default() -> (r: HooksConfig)
        ensures
            r.inject_url@ == "http://127.0.0.1:8077/inject"@,
            r.cold_mode@ == "fast"@,
            r.context_guard@ == "off"@,
            r.context_guard_threshold_pct == 45,
            r.context_window_tokens == 200_000,
    {
        HooksConfig {
            inject_url: "http://127.0.0.1:8077/inject".to_owned(),
            cold_mode: "fast".to_owned(),
            context_guard: "off".to_owned(),
            context_guard_threshold_pct: 45,
            context_window_tokens: 200_000,
        }
    }
}

/// Shortest history that the ranking can do with, in days.
pub const MIN_SAFE_RETENTION_DAYS: u32 = 60;

/// The ledger of what was shown and opened.
#[derive(Debug, Clone, Copy, PartialEq, Eq, Structural)]
pub struct LearnConfig {
    /// Days that the ledger keeps; 0 keeps it for good.
    pub event_retention_days: u32,
}

impl Default for LearnConfig {
    fn default() -> (r: LearnConfig)
        ensures
            r == (LearnConfig { event_retention_days: 180 }),
    {
        LearnConfig { event_retention_days: 180 }
    }
}

impl LearnConfig {
    /// The days that a prune keeps. Nothing: there is no prune. A window shorter
    /// than the ranking can do with is widened.
    pub fn effective_retention_days(&self) -> (r: Option<u32>)
        ensures
            r == (if self.event_retention_days == 0 {
                None
            } else if self.event_retention_days < MIN_SAFE_RETENTION_DAYS {
                Some(MIN_SAFE_RETENTION_DAYS)
            } else {
                Some(self.event_retention_days)
            }),
    {
        if self.event_retention_days == 0 {
            None
        } else if self.event_retention_days < MIN_SAFE_RETENTION_DAYS {
            Some(MIN_SAFE_RETENTION_DAYS)
        } else {
            Some(self.event_retention_days)
        }
    }
}

/// The local API proxy.
#[derive(Debug, Clone)]
pub struct ProxyConfig {
    pub bind: String,
    pub upstream: String,
    /// Add cache breakpoints where the client set none.
    pub cache: bool,
    /// Replace later identical large blocks.
    pub dedup: bool,
    /// Prune old tool results; this loses something.
    pub prune: bool,
}

impl Default for ProxyConfig {
    fn default() -> (r: ProxyConfig)
        ensures
            r.bind@ == "127.0.0.1:8788"@,
            r.upstream@ == "https://api.anthropic.com"@,
            r.cache,
            r.dedup,
            !r.prune,
    {
        ProxyConfig {
            bind: "127.0.0.1:8788".to_owned(),
            upstream: "https://api.anthropic.com".to_owned(),
            cache: true,
            dedup: true,
            prune: false,
        }
    }
}

/// Sync between machines.
#[derive(Debug, Clone)]
pub struct SyncConfig {
    /// `off`, `file` or `server`.
    pub mode: String,
    pub dir: String,
    pub endpoint: String,
    pub interval_mins: u64,
    pub auto: bool,
}

impl Default for SyncConfig {
    fn default() -> (r: SyncConfig)
        ensures
            r.mode@ == "off"@,
            r.dir@.len() == 0,
            r.endpoint@.len() == 0,
            r.interval_mins == 30,
            !r.auto,
    {
        SyncConfig {
            mode: "off".to_owned(),
            dir: String::new(),
            endpoint: String::new(),
            interval_mins: 30,
            auto: false,
        }
    }
}

impl SyncConfig {
    /// Whether anything is synced.
    pub fn enabled(&self) -> (r: bool)
        ensures
            r == (self.mode@ != "off"@),
    {
        !same(self.mode.as_str(), "off")
    }
}

/// What the server does by itself when it starts in a project.
#[derive(Debug, Clone, Copy, PartialEq, Eq, Structural)]
pub struct AutoConfig {
    /// Refresh the code graph.
    pub graph: bool,
    /// Index the project's documents.
    pub docs: bool,
}

impl Default for AutoConfig {
    fn default() -> (r: AutoConfig)
        ensures
            r == (AutoConfig { graph: true, docs: true }),
    {
        AutoConfig { graph: true, docs: true }
    }
}

/// The embedding model.
#[derive(Debug, Clone)]
pub struct EmbeddingConfig {
    pub model: String,
    /// `auto` or `cpu`.
    pub device: String,
}

impl Default for EmbeddingConfig {
    fn default() -> (r: EmbeddingConfig)
        ensures
            r.model@ == "bge-small-en-v1.5"@,
            r.device@ == "auto"@,
    {
        EmbeddingConfig { model: "bge-small-en-v1.5".to_owned(), device: "auto".to_owned() }
    }
}

/// Consolidation.
#[derive(Debug, Clone)]
pub struct ConsolidateConfig {
    /// `weekly` or `off`.
    pub auto: String,
}

impl Default for ConsolidateConfig {
    fn default() -> (r: ConsolidateConfig)
        ensures
            r.auto@ == "weekly"@,
    {
        ConsolidateConfig { auto: "weekly".to_owned() }
    }
}

/// The reranker.
#[derive(Debug, Clone)]
pub struct RerankConfig {
    pub model: String,
    /// How many candidates are scored.
    pub candidates: usize,
    /// `off`, `warm` or `always`.
    pub auto: String,
}

impl Default for RerankConfig {
    fn default() -> (r: RerankConfig)
        ensures
            r.model@ == "jina-reranker-v1-turbo-en"@,
            r.candidates == 15,
            r.auto@ == "off"@,
    {
        RerankConfig {
            model: "jina-reranker-v1-turbo-en".to_owned(),
            candidates: 15,
            auto: "off".to_owned(),
        }
    }
}

/// Output.
#[derive(Debug, Clone, Copy, PartialEq, Eq, Structural)]
pub struct OutputConfig {
    pub default_limit: usize,
    pub snippet_chars: usize,
}

impl Default for OutputConfig {
    fn default() -> (r: OutputConfig)
        ensures
            r == (OutputConfig { default_limit: 8, snippet_chars: 120 }),
    {
        OutputConfig { default_limit: 8, snippet_chars: 120 }
    }
}

} // verus!
