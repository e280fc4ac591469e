//! The vocabulary of the store: kinds, nodes, edges, scopes.

use vstd::prelude::*;

use crate::error::Error;
use crate::json::{keep_strings, read_bool, read_i64, read_json, read_list, read_str};
#[allow(unused_imports)]
use crate::json::{
    is_set, member_bool, member_i64, member_json, member_list, member_str, only_strings, opt_view,
};
use crate::number::first_second;
#[allow(unused_imports)]
use crate::number::second_of;
use crate::text::{chars_of, joined, same, split_fields, string_of, Delim};
#[allow(unused_imports)]
use crate::text::{join, texts, words};
#[allow(unused_imports)]
use vstd::string::*;

verus! {

/// What a node is.
#[derive(Debug, Clone, Copy, PartialEq, Eq, Hash, Structural)]
pub enum Kind {
    Memory,
    Collection,
    File,
    Chunk,
    Project,
    Symbol,
    Community,
    Tag,
    Annotation,
    CodeChunk,
}

impl Kind {
    /// Every value, in order.
    pub const ALL: [Kind; 10] = [
        Kind::Memory, Kind::Collection, Kind::File, Kind::Chunk, Kind::Project, Kind::Symbol,
        Kind::Community, Kind::Tag, Kind::Annotation, Kind::CodeChunk,
    ];

    /// The name a value is stored under.
    pub open spec fn name(self) -> Seq<char> {
        match self {
            Kind::Memory => "memory"@,
            Kind::Collection => "collection"@,
            Kind::File => "file"@,
            Kind::Chunk => "chunk"@,
            Kind::Project => "project"@,
            Kind::Symbol => "symbol"@,
            Kind::Community => "community"@,
            Kind::Tag => "tag"@,
            Kind::Annotation => "annotation"@,
            Kind::CodeChunk => "codechunk"@,
        }
    }

    /// The name a value is stored under.
    pub fn as_str(self) -> (r: &'static str)
        ensures
            r@ == self.name(),
    {
        match self {
            Kind::Memory => "memory",
            Kind::Collection => "collection",
            Kind::File => "file",
            Kind::Chunk => "chunk",
            Kind::Project => "project",
            Kind::Symbol => "symbol",
            Kind::Community => "community",
            Kind::Tag => "tag",
            Kind::Annotation => "annotation",
            Kind::CodeChunk => "codechunk",
        }
    }

    /// The value stored under a name.
    pub fn from_name(s: &str) -> (r: Option<Kind>)
        ensures
            match r {
                Some(v) => v.name() == s@,
                None => forall|v: Kind| #[trigger] v.name() != s@,
            },
    {
        if same(s, "memory") {
            Some(Kind::Memory)
        } else if same(s, "collection") {
            Some(Kind::Collection)
        } else if same(s, "file") {
            Some(Kind::File)
        } else if same(s, "chunk") {
            Some(Kind::Chunk)
        } else if same(s, "project") {
            Some(Kind::Project)
        } else if same(s, "symbol") {
            Some(Kind::Symbol)
        } else if same(s, "community") {
            Some(Kind::Community)
        } else if same(s, "tag") {
            Some(Kind::Tag)
        } else if same(s, "annotation") {
            Some(Kind::Annotation)
        } else if same(s, "codechunk") {
            Some(Kind::CodeChunk)
        } else {
            None
        }
    }

    /// No two values share a name, so a stored name reads back as the value it
    /// was written for.
    pub proof fn names_are_distinct(a: Kind, b: Kind)
        ensures
            a.name() == b.name() ==> a == b,
    {
        reveal_strlit("memory");
        reveal_strlit("collection");
        reveal_strlit("file");
        reveal_strlit("chunk");
        reveal_strlit("project");
        reveal_strlit("symbol");
        reveal_strlit("community");
        reveal_strlit("tag");
        reveal_strlit("annotation");
        reveal_strlit("codechunk");
        let (x, y) = (a.name(), b.name());
        assert(x == y ==> x.len() == y.len());
        assert(x == y ==> x[3] == y[3]);
    }
}

impl std::str::FromStr for Kind {
    type Err = Error;

    /// The value stored under a name. What is no value's name is refused, and the
    /// error quotes it.
    fn from_str(s: &str) -> (r: std::result::Result<Self, Error>)
        ensures
            match r {
                Ok(v) => v.name() == s@,
                Err(e) => (forall|v: Kind| #[trigger] v.name() != s@) && e is Invalid && e->Invalid_0@
                    == "unknown Kind '"@ + s@ + "'"@,
            },
    {
        proof {
            reveal_strlit("unknown ");
            reveal_strlit("Kind");
            reveal_strlit(" '");
            reveal_strlit("unknown Kind '");
            assert("unknown "@ + "Kind"@ + " '"@ =~= "unknown Kind '"@);
        }
        match Kind::from_name(s) {
            Some(v) => Ok(v),
            None => Err(Error::unknown("Kind", s)),
        }
    }
}

/// What sort of thing a memory states.
#[derive(Debug, Clone, Copy, PartialEq, Eq, Hash, Structural)]
pub enum MemoryType {
    Insight,
    Decision,
    Gotcha,
    Idea,
    Note,
    Person,
    Summary,
}

impl MemoryType {
    /// Every value, in order.
    pub const ALL: [MemoryType; 7] = [
        MemoryType::Insight, MemoryType::Decision, MemoryType::Gotcha, MemoryType::Idea,
        MemoryType::Note, MemoryType::Person, MemoryType::Summary,
    ];

    /// The name a value is stored under.
    pub open spec fn name(self) -> Seq<char> {
        match self {
            MemoryType::Insight => "insight"@,
            MemoryType::Decision => "decision"@,
            MemoryType::Gotcha => "gotcha"@,
            MemoryType::Idea => "idea"@,
            MemoryType::Note => "note"@,
            MemoryType::Person => "person"@,
            MemoryType::Summary => "summary"@,
        }
    }

    /// The name a value is stored under.
    pub fn as_str(self) -> (r: &'static str)
        ensures
            r@ == self.name(),
    {
        match self {
            MemoryType::Insight => "insight",
            MemoryType::Decision => "decision",
            MemoryType::Gotcha => "gotcha",
            MemoryType::Idea => "idea",
            MemoryType::Note => "note",
            MemoryType::Person => "person",
            MemoryType::Summary => "summary",
        }
    }

    /// The value stored under a name.
    pub fn from_name(s: &str) -> (r: Option<MemoryType>)
        ensures
            match r {
                Some(v) => v.name() == s@,
                None => forall|v: MemoryType| #[trigger] v.name() != s@,
            },
    {
        if same(s, "insight") {
            Some(MemoryType::Insight)
        } else if same(s, "decision") {
            Some(MemoryType::Decision)
        } else if same(s, "gotcha") {
            Some(MemoryType::Gotcha)
        } else if same(s, "idea") {
            Some(MemoryType::Idea)
        } else if same(s, "note") {
            Some(MemoryType::Note)
        } else if same(s, "person") {
            Some(MemoryType::Person)
        } else if same(s, "summary") {
            Some(MemoryType::Summary)
        } else {
            None
        }
    }

    /// No two values share a name, so a stored name reads back as the value it
    /// was written for.
    pub proof fn names_are_distinct(a: MemoryType, b: MemoryType)
        ensures
            a.name() == b.name() ==> a == b,
    {
        reveal_strlit("insight");
        reveal_strlit("decision");
        reveal_strlit("gotcha");
        reveal_strlit("idea");
        reveal_strlit("note");
        reveal_strlit("person");
        reveal_strlit("summary");
        let (x, y) = (a.name(), b.name());
        assert(x == y ==> x.len() == y.len());
        assert(x == y ==> x[0] == y[0]);
    }
}

impl std::str::FromStr for MemoryType {
    type Err = Error;

    /// The value stored under a name. What is no value's name is refused, and the
    /// error quotes it.
    fn from_str(s: &str) -> (r: std::result::Result<Self, Error>)
        ensures
            match r {
                Ok(v) => v.name() == s@,
                Err(e) => (forall|v: MemoryType| #[trigger] v.name() != s@) && e is Invalid && e->Invalid_0@
                    == "unknown MemoryType '"@ + s@ + "'"@,
            },
    {
        proof {
            reveal_strlit("unknown ");
            reveal_strlit("MemoryType");
            reveal_strlit(" '");
            reveal_strlit("unknown MemoryType '");
            assert("unknown "@ + "MemoryType"@ + " '"@ =~= "unknown MemoryType '"@);
        }
        match MemoryType::from_name(s) {
            Some(v) => Ok(v),
            None => Err(Error::unknown("MemoryType", s)),
        }
    }
}

/// How sure the author was when they wrote a memory, never how useful it has
/// since proved. Absent is a state of its own.
#[derive(Debug, Clone, Copy, PartialEq, Eq, Hash, Structural)]
pub enum MemoryConfidence {
    Certain,
    Likely,
    Unsure,
}

impl MemoryConfidence {
    /// Every value, in order.
    pub const ALL: [MemoryConfidence; 3] = [
        MemoryConfidence::Certain, MemoryConfidence::Likely, MemoryConfidence::Unsure,
    ];

    /// The name a value is stored under.
    pub open spec fn name(self) -> Seq<char> {
        match self {
            MemoryConfidence::Certain => "certain"@,
            MemoryConfidence::Likely => "likely"@,
            MemoryConfidence::Unsure => "unsure"@,
        }
    }

    /// The name a value is stored under.
    pub fn as_str(self) -> (r: &'static str)
        ensures
            r@ == self.name(),
    {
        match self {
            MemoryConfidence::Certain => "certain",
            MemoryConfidence::Likely => "likely",
            MemoryConfidence::Unsure => "unsure",
        }
    }

    /// The value stored under a name.
    pub fn from_name(s: &str) -> (r: Option<MemoryConfidence>)
        ensures
            match r {
                Some(v) => v.name() == s@,
                None => forall|v: MemoryConfidence| #[trigger] v.name() != s@,
            },
    {
        if same(s, "certain") {
            Some(MemoryConfidence::Certain)
        } else if same(s, "likely") {
            Some(MemoryConfidence::Likely)
        } else if same(s, "unsure") {
            Some(MemoryConfidence::Unsure)
        } else {
            None
        }
    }

    /// No two values share a name, so a stored name reads back as the value it
    /// was written for.
    pub proof fn names_are_distinct(a: MemoryConfidence, b: MemoryConfidence)
        ensures
            a.name() == b.name() ==> a == b,
    {
        reveal_strlit("certain");
        reveal_strlit("likely");
        reveal_strlit("unsure");
        let (x, y) = (a.name(), b.name());
        assert(x == y ==> x.len() == y.len());
        assert(x == y ==> x[0] == y[0]);
    }
}

impl std::str::FromStr for MemoryConfidence {
    type Err = Error;

    /// The value stored under a name. What is no value's name is refused, and the
    /// error quotes it.
    fn from_str(s: &str) -> (r: std::result::Result<Self, Error>)
        ensures
            match r {
                Ok(v) => v.name() == s@,
                Err(e) => (forall|v: MemoryConfidence| #[trigger] v.name() != s@) && e is Invalid && e->Invalid_0@
                    == "unknown MemoryConfidence '"@ + s@ + "'"@,
            },
    {
        proof {
            reveal_strlit("unknown ");
            reveal_strlit("MemoryConfidence");
            reveal_strlit(" '");
            reveal_strlit("unknown MemoryConfidence '");
            assert("unknown "@ + "MemoryConfidence"@ + " '"@ =~= "unknown MemoryConfidence '"@);
        }
        match MemoryConfidence::from_name(s) {
            Some(v) => Ok(v),
            None => Err(Error::unknown("MemoryConfidence", s)),
        }
    }
}

/// Who performed a mutation.
#[derive(Debug, Clone, Copy, PartialEq, Eq, Hash, Structural)]
pub enum Actor {
    Human,
    Agent,
    System,
    Sync,
}

impl Actor {
    /// Every value, in order.
    pub const ALL: [Actor; 4] = [Actor::Human, Actor::Agent, Actor::System, Actor::Sync];

    /// The name a value is stored under.
    pub open spec fn name(self) -> Seq<char> {
        match self {
            Actor::Human => "human"@,
            Actor::Agent => "agent"@,
            Actor::System => "system"@,
            Actor::Sync => "sync"@,
        }
    }

    /// The name a value is stored under.
    pub fn as_str(self) -> (r: &'static str)
        ensures
            r@ == self.name(),
    {
        match self {
            Actor::Human => "human",
            Actor::Agent => "agent",
            Actor::System => "system",
            Actor::Sync => "sync",
        }
    }

    /// The value stored under a name.
    pub fn from_name(s: &str) -> (r: Option<Actor>)
        ensures
            match r {
                Some(v) => v.name() == s@,
                None => forall|v: Actor| #[trigger] v.name() != s@,
            },
    {
        if same(s, "human") {
            Some(Actor::Human)
        } else if same(s, "agent") {
            Some(Actor::Agent)
        } else if same(s, "system") {
            Some(Actor::System)
        } else if same(s, "sync") {
            Some(Actor::Sync)
        } else {
            None
        }
    }

    /// No two values share a name, so a stored name reads back as the value it
    /// was written for.
    pub proof fn names_are_distinct(a: Actor, b: Actor)
        ensures
            a.name() == b.name() ==> a == b,
    {
        reveal_strlit("human");
        reveal_strlit("agent");
        reveal_strlit("system");
        reveal_strlit("sync");
        let (x, y) = (a.name(), b.name());
        assert(x == y ==> x.len() == y.len());
        assert(x == y ==> x[0] == y[0]);
    }
}

impl std::str::FromStr for Actor {
    type Err = Error;

    /// The value stored under a name. What is no value's name is refused, and the
    /// error quotes it.
    fn from_str(s: &str) -> (r: std::result::Result<Self, Error>)
        ensures
            match r {
                Ok(v) => v.name() == s@,
                Err(e) => (forall|v: Actor| #[trigger] v.name() != s@) && e is Invalid && e->Invalid_0@
                    == "unknown Actor '"@ + s@ + "'"@,
            },
    {
        proof {
            reveal_strlit("unknown ");
            reveal_strlit("Actor");
            reveal_strlit(" '");
            reveal_strlit("unknown Actor '");
            assert("unknown "@ + "Actor"@ + " '"@ =~= "unknown Actor '"@);
        }
        match Actor::from_name(s) {
            Some(v) => Ok(v),
            None => Err(Error::unknown("Actor", s)),
        }
    }
}

/// What was done to a memory.
#[derive(Debug, Clone, Copy, PartialEq, Eq, Hash, Structural)]
pub enum MutationOp {
    Create,
    Edit,
    Supersede,
    Forget,
    Archive,
    HardDelete,
    Reproject,
    Pin,
    Unpin,
    Restore,
    Review,
}

impl MutationOp {
    /// Every value, in order.
    pub const ALL: [MutationOp; 11] = [
        MutationOp::Create, MutationOp::Edit, MutationOp::Supersede, MutationOp::Forget,
        MutationOp::Archive, MutationOp::HardDelete, MutationOp::Reproject, MutationOp::Pin,
        MutationOp::Unpin, MutationOp::Restore, MutationOp::Review,
    ];

    /// The name a value is stored under.
    pub open spec fn name(self) -> Seq<char> {
        match self {
            MutationOp::Create => "create"@,
            MutationOp::Edit => "edit"@,
            MutationOp::Supersede => "supersede"@,
            MutationOp::Forget => "forget"@,
            MutationOp::Archive => "archive"@,
            MutationOp::HardDelete => "hard_delete"@,
            MutationOp::Reproject => "reproject"@,
            MutationOp::Pin => "pin"@,
            MutationOp::Unpin => "unpin"@,
            MutationOp::Restore => "restore"@,
            MutationOp::Review => "review"@,
        }
    }

    /// The name a value is stored under.
    pub fn as_str(self) -> (r: &'static str)
        ensures
            r@ == self.name(),
    {
        match self {
            MutationOp::Create => "create",
            MutationOp::Edit => "edit",
            MutationOp::Supersede => "supersede",
            MutationOp::Forget => "forget",
            MutationOp::Archive => "archive",
            MutationOp::HardDelete => "hard_delete",
            MutationOp::Reproject => "reproject",
            MutationOp::Pin => "pin",
            MutationOp::Unpin => "unpin",
            MutationOp::Restore => "restore",
            MutationOp::Review => "review",
        }
    }

    /// The value stored under a name.
    pub fn from_name(s: &str) -> (r: Option<MutationOp>)
        ensures
            match r {
                Some(v) => v.name() == s@,
                None => forall|v: MutationOp| #[trigger] v.name() != s@,
            },
    {
        if same(s, "create") {
            Some(MutationOp::Create)
        } else if same(s, "edit") {
            Some(MutationOp::Edit)
        } else if same(s, "supersede") {
            Some(MutationOp::Supersede)
        } else if same(s, "forget") {
            Some(MutationOp::Forget)
        } else if same(s, "archive") {
            Some(MutationOp::Archive)
        } else if same(s, "hard_delete") {
            Some(MutationOp::HardDelete)
        } else if same(s, "reproject") {
            Some(MutationOp::Reproject)
        } else if same(s, "pin") {
            Some(MutationOp::Pin)
        } else if same(s, "unpin") {
            Some(MutationOp::Unpin)
        } else if same(s, "restore") {
            Some(MutationOp::Restore)
        } else if same(s, "review") {
            Some(MutationOp::Review)
        } else {
            None
        }
    }

    /// No two values share a name, so a stored name reads back as the value it
    /// was written for.
    pub proof fn names_are_distinct(a: MutationOp, b: MutationOp)
        ensures
            a.name() == b.name() ==> a == b,
    {
        reveal_strlit("create");
        reveal_strlit("edit");
        reveal_strlit("supersede");
        reveal_strlit("forget");
        reveal_strlit("archive");
        reveal_strlit("hard_delete");
        reveal_strlit("reproject");
        reveal_strlit("pin");
        reveal_strlit("unpin");
        reveal_strlit("restore");
        reveal_strlit("review");
        let (x, y) = (a.name(), b.name());
        assert(x == y ==> x.len() == y.len());
        assert(x == y ==> x[0] == y[0]);
    }
}

impl std::str::FromStr for MutationOp {
    type Err = Error;

    /// The value stored under a name. What is no value's name is refused, and the
    /// error quotes it.
    fn from_str(s: &str) -> (r: std::result::Result<Self, Error>)
        ensures
            match r {
                Ok(v) => v.name() == s@,
                Err(e) => (forall|v: MutationOp| #[trigger] v.name() != s@) && e is Invalid && e->Invalid_0@
                    == "unknown MutationOp '"@ + s@ + "'"@,
            },
    {
        proof {
            reveal_strlit("unknown ");
            reveal_strlit("MutationOp");
            reveal_strlit(" '");
            reveal_strlit("unknown MutationOp '");
            assert("unknown "@ + "MutationOp"@ + " '"@ =~= "unknown MutationOp '"@);
        }
        match MutationOp::from_name(s) {
            Some(v) => Ok(v),
            None => Err(Error::unknown("MutationOp", s)),
        }
    }
}

/// How two nodes are related.
#[derive(Debug, Clone, Copy, PartialEq, Eq, Hash, Structural)]
pub enum Rel {
    Links,
    Mentions,
    Tagged,
    Describes,
    About,
    Relates,
    Supersedes,
    Summarizes,
    DerivedFrom,
    Calls,
    Imports,
    Defines,
    MemberOf,
}

impl Rel {
    /// Every value, in order.
    pub const ALL: [Rel; 13] = [
        Rel::Links, Rel::Mentions, Rel::Tagged, Rel::Describes, Rel::About, Rel::Relates,
        Rel::Supersedes, Rel::Summarizes, Rel::DerivedFrom, Rel::Calls, Rel::Imports, Rel::Defines,
        Rel::MemberOf,
    ];

    /// The name a value is stored under.
    pub open spec fn name(self) -> Seq<char> {
        match self {
            Rel::Links => "links"@,
            Rel::Mentions => "mentions"@,
            Rel::Tagged => "tagged"@,
            Rel::Describes => "describes"@,
            Rel::About => "about"@,
            Rel::Relates => "relates"@,
            Rel::Supersedes => "supersedes"@,
            Rel::Summarizes => "summarizes"@,
            Rel::DerivedFrom => "derived_from"@,
            Rel::Calls => "calls"@,
            Rel::Imports => "imports"@,
            Rel::Defines => "defines"@,
            Rel::MemberOf => "member_of"@,
        }
    }

    /// The name a value is stored under.
    pub fn as_str(self) -> (r: &'static str)
        ensures
            r@ == self.name(),
    {
        match self {
            Rel::Links => "links",
            Rel::Mentions => "mentions",
            Rel::Tagged => "tagged",
            Rel::Describes => "describes",
            Rel::About => "about",
            Rel::Relates => "relates",
            Rel::Supersedes => "supersedes",
            Rel::Summarizes => "summarizes",
            Rel::DerivedFrom => "derived_from",
            Rel::Calls => "calls",
            Rel::Imports => "imports",
            Rel::Defines => "defines",
            Rel::MemberOf => "member_of",
        }
    }

    /// The value stored under a name.
    pub fn from_name(s: &str) -> (r: Option<Rel>)
        ensures
            match r {
                Some(v) => v.name() == s@,
                None => forall|v: Rel| #[trigger] v.name() != s@,
            },
    {
        if same(s, "links") {
            Some(Rel::Links)
        } else if same(s, "mentions") {
            Some(Rel::Mentions)
        } else if same(s, "tagged") {
            Some(Rel::Tagged)
        } else if same(s, "describes") {
            Some(Rel::Describes)
        } else if same(s, "about") {
            Some(Rel::About)
        } else if same(s, "relates") {
            Some(Rel::Relates)
        } else if same(s, "supersedes") {
            Some(Rel::Supersedes)
        } else if same(s, "summarizes") {
            Some(Rel::Summarizes)
        } else if same(s, "derived_from") {
            Some(Rel::DerivedFrom)
        } else if same(s, "calls") {
            Some(Rel::Calls)
        } else if same(s, "imports") {
            Some(Rel::Imports)
        } else if same(s, "defines") {
            Some(Rel::Defines)
        } else if same(s, "member_of") {
            Some(Rel::MemberOf)
        } else {
            None
        }
    }

    /// No two values share a name, so a stored name reads back as the value it
    /// was written for.
    pub proof fn names_are_distinct(a: Rel, b: Rel)
        ensures
            a.name() == b.name() ==> a == b,
    {
        reveal_strlit("links");
        reveal_strlit("mentions");
        reveal_strlit("tagged");
        reveal_strlit("describes");
        reveal_strlit("about");
        reveal_strlit("relates");
        reveal_strlit("supersedes");
        reveal_strlit("summarizes");
        reveal_strlit("derived_from");
        reveal_strlit("calls");
        reveal_strlit("imports");
        reveal_strlit("defines");
        reveal_strlit("member_of");
        let (x, y) = (a.name(), b.name());
        assert(x == y ==> x.len() == y.len());
        assert(x == y ==> x[2] == y[2]);
    }
}

impl std::str::FromStr for Rel {
    type Err = Error;

    /// The value stored under a name. What is no value's name is refused, and the
    /// error quotes it.
    fn from_str(s: &str) -> (r: std::result::Result<Self, Error>)
        ensures
            match r {
                Ok(v) => v.name() == s@,
                Err(e) => (forall|v: Rel| #[trigger] v.name() != s@) && e is Invalid && e->Invalid_0@
                    == "unknown Rel '"@ + s@ + "'"@,
            },
    {
        proof {
            reveal_strlit("unknown ");
            reveal_strlit("Rel");
            reveal_strlit(" '");
            reveal_strlit("unknown Rel '");
            assert("unknown "@ + "Rel"@ + " '"@ =~= "unknown Rel '"@);
        }
        match Rel::from_name(s) {
            Some(v) => Ok(v),
            None => Err(Error::unknown("Rel", s)),
        }
    }
}

/// Where a query or capture applies.
#[derive(Debug, Clone, Copy, PartialEq, Eq, Structural)]
pub enum Scope {
    /// No scope filter: global and every project.
    All,
    /// Only nodes with no project.
    Global,
    /// Only nodes of one project, by node id.
    Project(i64),
}

impl Scope {
    /// Whether a node of project `project_id` is inside the scope.
    pub open spec fn admits(self, project_id: Option<i64>) -> bool {
        match self {
            Scope::All => true,
            Scope::Global => project_id is None,
            Scope::Project(id) => project_id == Some(id),
        }
    }

    /// Whether a node of project `project_id` is inside the scope.
    pub fn covers(self, project_id: Option<i64>) -> (r: bool)
        ensures
            r == self.admits(project_id),
    {
        match self {
            Scope::All => true,
            Scope::Global => project_id.is_none(),
            Scope::Project(id) => match project_id {
                Some(p) => p == id,
                None => false,
            },
        }
    }
}

/// The members of a node's metadata that the library reads.
#[derive(Debug, Clone)]
pub struct Meta {
    /// Unix time from which the memory is no longer true.
    pub expires_at: Option<i64>,
    /// Where that time is given by other than an integer, the first second that is
    /// not before it.
    pub rough_expiry: Option<i64>,
    /// Free-text condition under which the memory stops being true.
    pub resolves_when: Option<String>,
    /// Whether such a condition is given by other than a string.
    pub other_condition: bool,
    /// Name of the author's confidence.
    pub confidence: Option<String>,
    /// Unix time from which the stated fact held.
    pub valid_from: Option<i64>,
    /// Unix time at which the stated fact stopped holding.
    pub valid_to: Option<i64>,
    /// Phrases the author declared as triggers.
    pub fires_when: Option<Vec<String>>,
    /// Guard-anchor patterns.
    pub anchors: Option<Vec<String>>,
    /// 1 on what the decay pass archived.
    pub archived: Option<i64>,
    /// Set on summaries that the consolidation wrote.
    pub distilled: Option<bool>,
    /// Modification time of an indexed file.
    pub mtime: Option<i64>,
    /// Size of an indexed file.
    pub size: Option<i64>,
}

/// Whether `list` is what `text` holds under `key`, elements that are no
/// strings left out.
pub open spec fn list_read(list: Option<Vec<String>>, text: Seq<char>, key: Seq<char>) -> bool {
    match list {
        Some(v) => member_list(text, key) is Some && texts(v@) == only_strings(
            member_list(text, key)->0,
        ),
        None => member_list(text, key) is None,
    }
}

fn read_texts(text: &str, key: &str) -> (r: Option<Vec<String>>)
    ensures
        list_read(r, text@, key@),
{
    match read_list(text, key) {
        Some(v) => Some(keep_strings(&v)),
        None => None,
    }
}

/// The first second not before the expiry that `text` gives by other than an integer.
pub open spec fn rough_expiry_in(text: Seq<char>) -> Option<i64> {
    match (member_i64(text, "expires_at"@), member_json(text, "expires_at"@)) {
        (None, Some(j)) => second_of(j),
        _ => None,
    }
}

/// The mark of the decay pass in `text`: an integer, of which `true` and the fraction
/// 1.0 are other forms of 1.
pub open spec fn archived_in(text: Seq<char>) -> Option<i64> {
    let j = member_json(text, "archived"@);
    if j == Some("true"@) || j == Some("1.0"@) {
        Some(1)
    } else {
        member_i64(text, "archived"@)
    }
}

impl Meta {
    /// Metadata that declares nothing.
    pub open spec fn nothing() -> Meta {
        Meta {
            expires_at: None,
            rough_expiry: None,
            resolves_when: None,
            other_condition: false,
            confidence: None,
            valid_from: None,
            valid_to: None,
            fires_when: None,
            anchors: None,
            archived: None,
            distilled: None,
            mtime: None,
            size: None,
        }
    }

    /// Metadata that declares nothing.
    pub fn empty() -> (r: Meta)
        ensures
            r == Meta::nothing(),
    {
        Meta {
            expires_at: None,
            rough_expiry: None,
            resolves_when: None,
            other_condition: false,
            confidence: None,
            valid_from: None,
            valid_to: None,
            fires_when: None,
            anchors: None,
            archived: None,
            distilled: None,
            mtime: None,
            size: None,
        }
    }

    /// When the memory lapses, if it declares an expiry of any form: the first second
    /// that is not before it.
    pub open spec fn lapses_at(self) -> Option<i64> {
        match self.expires_at {
            Some(t) => Some(t),
            None => self.rough_expiry,
        }
    }

    /// Whether the memory declares an end condition of any form.
    pub open spec fn has_condition(self) -> bool {
        self.resolves_when is Some || self.other_condition
    }

    /// Reads the metadata of a node from the JSON text it is stored as.
    pub fn parse(text: &str) -> (r: Meta)
        ensures
            r.expires_at == member_i64(text@, "expires_at"@),
            r.rough_expiry == rough_expiry_in(text@),
            opt_view(r.resolves_when) == member_str(text@, "resolves_when"@),
            r.other_condition == (is_set(text@, "resolves_when"@) && member_str(
                text@,
                "resolves_when"@,
            ) is None),
            opt_view(r.confidence) == member_str(text@, "confidence"@),
            r.valid_from == member_i64(text@, "valid_from"@),
            r.valid_to == member_i64(text@, "valid_to"@),
            list_read(r.fires_when, text@, "fires_when"@),
            list_read(r.anchors, text@, "anchors"@),
            r.archived == archived_in(text@),
            r.distilled == member_bool(text@, "distilled"@),
            r.mtime == member_i64(text@, "mtime"@),
            r.size == member_i64(text@, "size"@),
    {
        let expires_at = read_i64(text, "expires_at");
        let rough_expiry = match expires_at {
            Some(_) => None,
            None => match read_json(text, "expires_at") {
                Some(j) => first_second(j.as_str()),
                None => None,
            },
        };
        let resolves_when = read_str(text, "resolves_when");
        let other_condition = resolves_when.is_none() && match read_json(text, "resolves_when") {
            Some(j) => !same(j.as_str(), "null"),
            None => false,
        };
        let archived = match read_json(text, "archived") {
            Some(j) => if same(j.as_str(), "true") || same(j.as_str(), "1.0") {
                Some(1)
            } else {
                read_i64(text, "archived")
            },
            None => read_i64(text, "archived"),
        };
        Meta {
            expires_at,
            rough_expiry,
            resolves_when,
            other_condition,
            confidence: read_str(text, "confidence"),
            valid_from: read_i64(text, "valid_from"),
            valid_to: read_i64(text, "valid_to"),
            fires_when: read_texts(text, "fires_when"),
            anchors: read_texts(text, "anchors"),
            archived,
            distilled: read_bool(text, "distilled"),
            mtime: read_i64(text, "mtime"),
            size: read_i64(text, "size"),
        }
    }
}

/// A row of the store. Its learned strength, a number the ranking code keeps,
/// is not part of it.
#[derive(Debug, Clone)]
pub struct Node {
    pub id: i64,
    pub uid: String,
    pub kind: Kind,
    pub subkind: Option<String>,
    pub project_id: Option<i64>,
    pub collection_id: Option<i64>,
    pub parent_id: Option<i64>,
    pub title: Option<String>,
    pub body: Option<String>,
    pub path: Option<String>,
    pub span_start: Option<i64>,
    pub span_end: Option<i64>,
    pub lang: Option<String>,
    pub tags_text: String,
    pub content_hash: Option<Vec<u8>>,
    pub meta: Meta,
    pub created_at: i64,
    pub updated_at: i64,
    pub access_count: i64,
    pub last_accessed: Option<i64>,
    pub pinned: bool,
    pub superseded_by: Option<i64>,
    pub deleted_at: Option<i64>,
}

impl Node {
    /// A live memory: of kind memory, neither deleted nor superseded.
    pub open spec fn live_memory(self) -> bool {
        self.kind == Kind::Memory && self.deleted_at is None && self.superseded_by is None
    }

    /// Whether this is a live memory.
    pub fn is_live_memory(&self) -> (r: bool)
        ensures
            r == self.live_memory(),
    {
        self.kind == Kind::Memory && self.deleted_at.is_none() && self.superseded_by.is_none()
    }

    /// The node's tags.
    pub fn tags(&self) -> (r: Vec<String>)
        ensures
            texts(r@) == words(self.tags_text@),
    {
        split_fields(self.tags_text.as_str(), Delim::Space)
    }

    /// Unix time from which this memory is no longer true, if it declared one.
    pub fn expires_at(&self) -> (r: Option<i64>)
        ensures
            r == self.meta.expires_at,
    {
        self.meta.expires_at
    }

    /// Condition under which this memory stops being true. It travels with the
    /// memory and is never evaluated.
    pub fn resolves_when(&self) -> (r: Option<&str>)
        ensures
            match r {
                Some(s) => opt_view(self.meta.resolves_when) == Some(s@),
                None => self.meta.resolves_when is None,
            },
    {
        match &self.meta.resolves_when {
            Some(s) => Some(s.as_str()),
            None => None,
        }
    }

    /// The author's confidence: the level whose name the metadata holds.
    pub open spec fn confidence_spec(self) -> Option<MemoryConfidence> {
        match self.meta.confidence {
            Some(s) => if exists|c: MemoryConfidence| #[trigger] c.name() == s@ {
                Some(choose|c: MemoryConfidence| #[trigger] c.name() == s@)
            } else {
                None
            },
            None => None,
        }
    }

    /// What the author said about their own certainty. Nothing when they said
    /// nothing, or nothing that is a level.
    pub fn confidence(&self) -> (r: Option<MemoryConfidence>)
        ensures
            r == self.confidence_spec(),
    {
        match &self.meta.confidence {
            Some(s) => {
                let r = MemoryConfidence::from_name(s.as_str());
                proof {
                    match r {
                        Some(c) => {
                            let d = choose|d: MemoryConfidence| #[trigger] d.name() == s@;
                            MemoryConfidence::names_are_distinct(c, d);
                        },
                        None => {},
                    }
                }
                r
            },
            None => None,
        }
    }

    /// Unix time from which the stated fact held, if declared.
    pub fn valid_from(&self) -> (r: Option<i64>)
        ensures
            r == self.meta.valid_from,
    {
        self.meta.valid_from
    }

    /// Unix time at which the stated fact stopped holding, if declared.
    pub fn valid_to(&self) -> (r: Option<i64>)
        ensures
            r == self.meta.valid_to,
    {
        self.meta.valid_to
    }

    /// Whether a declared validity has closed by `now`.
    pub open spec fn closed_by(self, now: int) -> bool {
        self.meta.valid_to is Some && self.meta.valid_to->0 <= now
    }

    /// Whether a declared validity has closed by `now`.
    pub fn validity_closed(&self, now: i64) -> (r: bool)
        ensures
            r == self.closed_by(now as int),
    {
        match self.meta.valid_to {
            Some(to) => to <= now,
            None => false,
        }
    }

    /// Whether `at` lies in the declared interval, whose start is inside it and
    /// whose end is not; an end that was not declared bounds nothing.
    pub open spec fn holds_at(self, at: int) -> bool {
        &&& self.meta.valid_from is Some ==> self.meta.valid_from->0 <= at
        &&& self.meta.valid_to is Some ==> at < self.meta.valid_to->0
    }

    /// Whether the fact was true at `at`, as far as the author declared.
    /// Nothing when nothing was declared: unknown, not false.
    pub fn valid_at(&self, at: i64) -> (r: Option<bool>)
        ensures
            r == (if self.meta.valid_from is None && self.meta.valid_to is None {
                None
            } else {
                Some(self.holds_at(at as int))
            }),
    {
        if self.meta.valid_from.is_none() && self.meta.valid_to.is_none() {
            return None;
        }
        let after = match self.meta.valid_from {
            Some(f) => at >= f,
            None => true,
        };
        let before = match self.meta.valid_to {
            Some(t) => at < t,
            None => true,
        };
        Some(after && before)
    }

    /// Whether the declared expiry has been reached by `now`.
    pub open spec fn expired_by(self, now: int) -> bool {
        self.meta.expires_at is Some && self.meta.expires_at->0 <= now
    }

    /// Whether the declared expiry has been reached by `now`.
    pub fn is_expired(&self, now: i64) -> (r: bool)
        ensures
            r == self.expired_by(now as int),
    {
        match self.meta.expires_at {
            Some(t) => t <= now,
            None => false,
        }
    }

    /// What the node says: its body where that is not empty, else its title.
    pub open spec fn said(self) -> Seq<char> {
        match self.body {
            Some(b) => if b@.len() > 0 {
                b@
            } else {
                self.title_or_empty()
            },
            None => self.title_or_empty(),
        }
    }

    /// The title, or nothing.
    pub open spec fn title_or_empty(self) -> Seq<char> {
        match self.title {
            Some(t) => t@,
            None => Seq::empty(),
        }
    }

    /// What the node says: its body where that is not empty, else its title.
    pub fn statement(&self) -> (r: String)
        ensures
            r@ == self.said(),
    {
        if let Some(b) = &self.body {
            if !b.as_str().is_empty() {
                return b.clone();
            }
        }
        match &self.title {
            Some(t) => t.clone(),
            None => String::new(),
        }
    }
}

/// Expiry is for good: once a memory has expired it stays so.
pub proof fn expiry_is_permanent(node: Node, now: int, later: int)
    requires
        now <= later,
        node.expired_by(now),
    ensures
        node.expired_by(later),
{
}

/// A declared interval and its end exclude each other: where validity has
/// closed, the fact no longer holds.
pub proof fn closed_means_not_valid(node: Node, now: int)
    requires
        node.closed_by(now),
    ensures
        !node.holds_at(now),
{
}

/// Fields for inserting a new node; everything not listed gets a default.
#[derive(Debug, Clone)]
pub struct NewNode {
    pub kind: Option<Kind>,
    pub subkind: Option<String>,
    pub project_id: Option<i64>,
    pub collection_id: Option<i64>,
    pub parent_id: Option<i64>,
    pub title: Option<String>,
    pub body: Option<String>,
    pub path: Option<String>,
    pub span_start: Option<i64>,
    pub span_end: Option<i64>,
    pub lang: Option<String>,
    pub tags: Vec<String>,
    pub content_hash: Option<Vec<u8>>,
    pub meta: Option<Meta>,
}

impl NewNode {
    /// Nothing but the kind.
    pub open spec fn is_bare(self, kind: Kind) -> bool {
        &&& self.kind == Some(kind)
        &&& self.subkind is None
        &&& self.project_id is None
        &&& self.collection_id is None
        &&& self.parent_id is None
        &&& self.title is None
        &&& self.body is None
        &&& self.path is None
        &&& self.span_start is None
        &&& self.span_end is None
        &&& self.lang is None
        &&& self.tags@.len() == 0
        &&& self.content_hash is None
        &&& self.meta is None
    }

    /// A node of `kind` with nothing else set.
    pub fn new(kind: Kind) -> (r: NewNode)
        ensures
            r.is_bare(kind),
    {
        NewNode {
            kind: Some(kind),
            subkind: None,
            project_id: None,
            collection_id: None,
            parent_id: None,
            title: None,
            body: None,
            path: None,
            span_start: None,
            span_end: None,
            lang: None,
            tags: Vec::new(),
            content_hash: None,
            meta: None,
        }
    }

    /// Whether `n` is this node as it is stored under an id: with what it says, and
    /// everything else at its default.
    pub open spec fn is_stored_as(self, n: Node, id: i64, uid: Seq<char>, now: i64) -> bool {
        &&& n.id == id
        &&& n.uid@ == uid
        &&& Some(n.kind) == self.kind
        &&& n.subkind == self.subkind
        &&& n.project_id == self.project_id
        &&& n.collection_id == self.collection_id
        &&& n.parent_id == self.parent_id
        &&& n.title == self.title
        &&& n.body == self.body
        &&& n.path == self.path
        &&& n.span_start == self.span_start
        &&& n.span_end == self.span_end
        &&& n.lang == self.lang
        &&& n.tags_text@ == join(texts(self.tags@), " "@)
        &&& n.content_hash == self.content_hash
        &&& n.meta == match self.meta {
            Some(m) => m,
            None => Meta::nothing(),
        }
        &&& n.created_at == now
        &&& n.updated_at == now
        &&& n.access_count == 0
        &&& n.last_accessed is None
        &&& !n.pinned
        &&& n.superseded_by is None
        &&& n.deleted_at is None
    }

    /// The node as it is stored under an id.
    pub fn stored(self, id: i64, uid: String, now: i64) -> (r: Node)
        requires
            self.kind is Some,
        ensures
            self.is_stored_as(r, id, uid@, now),
    {
        let kind = match self.kind {
            Some(k) => k,
            None => Kind::Memory,
        };
        let meta = match self.meta {
            Some(m) => m,
            None => Meta::empty(),
        };
        Node {
            id,
            uid,
            kind,
            subkind: self.subkind,
            project_id: self.project_id,
            collection_id: self.collection_id,
            parent_id: self.parent_id,
            title: self.title,
            body: self.body,
            path: self.path,
            span_start: self.span_start,
            span_end: self.span_end,
            lang: self.lang,
            tags_text: joined(&self.tags, " "),
            content_hash: self.content_hash,
            meta,
            created_at: now,
            updated_at: now,
            access_count: 0,
            last_accessed: None,
            pinned: false,
            superseded_by: None,
            deleted_at: None,
        }
    }
}

/// An edge to be stored, of weight one.
#[derive(Debug, Clone, Copy, PartialEq, Eq, Structural)]
pub struct NewEdge {
    pub src: i64,
    pub dst: i64,
    pub rel: Rel,
}

/// An edge between two nodes. Its weight, a number the ranking code keeps, is
/// not part of it.
#[derive(Debug, Clone, Copy)]
pub struct Edge {
    pub id: i64,
    pub src: i64,
    pub dst: i64,
    pub rel: Rel,
    pub created_at: i64,
}

/// `std::time::SystemTime`, a reading of the system clock.
#[verifier::external_type_specification]
#[verifier::external_body]
pub struct ExSystemTime(std::time::SystemTime);

/// Reads the system clock with `SystemTime::now`. Nothing is claimed of the reading.
#[verifier::external_body]
fn clock_now() -> (r: std::time::SystemTime) {
    std::time::SystemTime::now()
}

/// How long after the Unix epoch a reading stands, by `SystemTime::duration_since`;
/// nothing where it stands before the epoch. A reading is opaque, so nothing is
/// claimed of the span.
#[verifier::external_body]
fn since_epoch(t: std::time::SystemTime) -> (r: Option<std::time::Duration>) {
    t.duration_since(std::time::UNIX_EPOCH).ok()
}

/// The whole seconds of a span, by `Duration::as_secs`. A span is opaque, so nothing
/// is claimed of the number.
#[verifier::external_body]
fn whole_seconds(d: std::time::Duration) -> (r: u64) {
    d.as_secs()
}

/// The timestamp for a reading of the clock.
pub open spec fn stamp_of(reading: Option<u64>) -> i64 {
    match reading {
        Some(s) => s as i64,
        None => 0,
    }
}

/// The timestamp for a reading of the clock: its seconds, or 0 before the
/// epoch.
pub fn unix_stamp(reading: Option<u64>) -> (r: i64)
    ensures
        r == stamp_of(reading),
{
    match reading {
        Some(s) => s as i64,
        None => 0,
    }
}

/// The current Unix time.
pub fn now_unix() -> (r: i64)
    ensures
        exists|reading: Option<u64>| r == stamp_of(reading),
{
    let reading = match since_epoch(clock_now()) {
        Some(d) => Some(whole_seconds(d)),
        None => None,
    };
    unix_stamp(reading)
}

/// The letter that stands for a kind in short ids.
pub open spec fn sigil(kind: Kind) -> char {
    match kind {
        Kind::Memory => 'm',
        Kind::Chunk | Kind::File | Kind::Annotation => 'd',
        Kind::Symbol | Kind::Community | Kind::CodeChunk => 'c',
        Kind::Project => 'p',
        Kind::Collection => 'l',
        Kind::Tag => 't',
    }
}

/// The last `n` characters of `s`, or all of it.
pub open spec fn tail_chars(s: Seq<char>, n: int) -> Seq<char> {
    if s.len() <= n {
        s
    } else {
        s.skip(s.len() - n)
    }
}

/// The short form of a node id: the kind's letter, a colon, and the id's last
/// six characters.
pub open spec fn short_form(kind: Kind, uid: Seq<char>) -> Seq<char> {
    seq![sigil(kind), ':'] + tail_chars(uid, 6)
}

/// The short display form of a node id.
pub fn short_uid(kind: Kind, uid: &str) -> (r: String)
    ensures
        r@ == short_form(kind, uid@),
{
    let letter = match kind {
        Kind::Memory => 'm',
        Kind::Chunk | Kind::File | Kind::Annotation => 'd',
        Kind::Symbol | Kind::Community | Kind::CodeChunk => 'c',
        Kind::Project => 'p',
        Kind::Collection => 'l',
        Kind::Tag => 't',
    };
    let v = chars_of(uid);
    let n: usize = v.len();
    let from: usize = if n <= 6 {
        0
    } else {
        n - 6
    };
    let tail = string_of(&v, from, n);
    let mut out = String::new();
    out.push(letter);
    out.push(':');
    out.append(tail.as_str());
    assert(out@ =~= short_form(kind, uid@));
    out
}

} // verus!
