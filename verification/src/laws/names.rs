//! The names under which values are stored and shown.

use vstd::prelude::*;

#[allow(unused_imports)]
use crate::model::{short_form, Actor, Kind, MemoryConfidence, MemoryType, MutationOp, Rel, Scope};
#[allow(unused_imports)]
use crate::review::{Disposition, Finding};
#[allow(unused_imports)]
use vstd::string::*;

verus! {

/// Kinds of nodes are stored under these names.
pub proof fn kinds_by_name()
    ensures
        Kind::Memory.name() == "memory"@,
        Kind::Collection.name() == "collection"@,
        Kind::File.name() == "file"@,
        Kind::Chunk.name() == "chunk"@,
        Kind::Project.name() == "project"@,
        Kind::Symbol.name() == "symbol"@,
        Kind::Community.name() == "community"@,
        Kind::Tag.name() == "tag"@,
        Kind::Annotation.name() == "annotation"@,
        Kind::CodeChunk.name() == "codechunk"@,
{
}

/// Types of memories are stored under these names.
pub proof fn memory_types_by_name()
    ensures
        MemoryType::Insight.name() == "insight"@,
        MemoryType::Decision.name() == "decision"@,
        MemoryType::Gotcha.name() == "gotcha"@,
        MemoryType::Idea.name() == "idea"@,
        MemoryType::Note.name() == "note"@,
        MemoryType::Person.name() == "person"@,
        MemoryType::Summary.name() == "summary"@,
{
}

/// Declared confidences are stored under these names.
pub proof fn confidences_by_name()
    ensures
        MemoryConfidence::Certain.name() == "certain"@,
        MemoryConfidence::Likely.name() == "likely"@,
        MemoryConfidence::Unsure.name() == "unsure"@,
{
}

/// Actors are stored under these names.
pub proof fn actors_by_name()
    ensures
        Actor::Human.name() == "human"@,
        Actor::Agent.name() == "agent"@,
        Actor::System.name() == "system"@,
        Actor::Sync.name() == "sync"@,
{
}

/// Operations in the ledger are stored under these names.
pub proof fn operations_by_name()
    ensures
        MutationOp::Create.name() == "create"@,
        MutationOp::Edit.name() == "edit"@,
        MutationOp::Supersede.name() == "supersede"@,
        MutationOp::Forget.name() == "forget"@,
        MutationOp::Archive.name() == "archive"@,
        MutationOp::HardDelete.name() == "hard_delete"@,
        MutationOp::Reproject.name() == "reproject"@,
        MutationOp::Pin.name() == "pin"@,
        MutationOp::Unpin.name() == "unpin"@,
        MutationOp::Restore.name() == "restore"@,
        MutationOp::Review.name() == "review"@,
{
}

/// Relations are stored under these names.
pub proof fn relations_by_name()
    ensures
        Rel::Links.name() == "links"@,
        Rel::Mentions.name() == "mentions"@,
        Rel::Tagged.name() == "tagged"@,
        Rel::Describes.name() == "describes"@,
        Rel::About.name() == "about"@,
        Rel::Relates.name() == "relates"@,
        Rel::Supersedes.name() == "supersedes"@,
        Rel::Summarizes.name() == "summarizes"@,
        Rel::DerivedFrom.name() == "derived_from"@,
        Rel::Calls.name() == "calls"@,
        Rel::Imports.name() == "imports"@,
        Rel::Defines.name() == "defines"@,
        Rel::MemberOf.name() == "member_of"@,
{
}

/// Findings are stored under these names.
pub proof fn findings_by_name()
    ensures
        Finding::Contradiction.name() == "contradiction"@,
        Finding::StaleGrounding.name() == "stale-grounding"@,
        Finding::Unresolved.name() == "unresolved"@,
        Finding::Resurfacing.name() == "resurfacing"@,
{
}

/// Decisions are stored under these names.
pub proof fn dispositions_by_name()
    ensures
        Disposition::Keep.name() == "keep"@,
        Disposition::Supersede.name() == "supersede"@,
        Disposition::Dismiss.name() == "dismiss"@,
{
}

/// A short name begins with the letter of the kind, and ends with the last six
/// characters of the uid, or all of it where it is shorter.
pub proof fn short_names(uid: Seq<char>, kind: Kind)
    ensures
        short_form(Kind::Memory, uid)[0] == 'm',
        short_form(Kind::Chunk, uid)[0] == 'd',
        short_form(Kind::File, uid)[0] == 'd',
        short_form(Kind::Annotation, uid)[0] == 'd',
        short_form(Kind::Symbol, uid)[0] == 'c',
        short_form(Kind::Community, uid)[0] == 'c',
        short_form(Kind::CodeChunk, uid)[0] == 'c',
        short_form(Kind::Project, uid)[0] == 'p',
        short_form(Kind::Collection, uid)[0] == 'l',
        short_form(Kind::Tag, uid)[0] == 't',
        short_form(kind, uid).len() >= 2,
        short_form(kind, uid)[1] == ':',
        uid.len() >= 6 ==> short_form(kind, uid).skip(2) == uid.subrange(
            uid.len() - 6,
            uid.len() as int,
        ),
        uid.len() < 6 ==> short_form(kind, uid).skip(2) == uid,
{
    if uid.len() >= 6 {
        assert(short_form(kind, uid).skip(2) =~= uid.subrange(uid.len() - 6, uid.len() as int));
    } else {
        assert(short_form(kind, uid).skip(2) =~= uid);
    }
}

/// Everything is in the scope of all; what has no project is global; and a project
/// holds what is its own, and nothing of another or of none.
pub proof fn scopes_admit(id: i64, other: i64, project_id: Option<i64>)
    ensures
        Scope::All.admits(project_id),
        Scope::Global.admits(None),
        !Scope::Global.admits(Some(id)),
        Scope::Project(id).admits(Some(id)),
        other != id ==> !Scope::Project(id).admits(Some(other)),
        !Scope::Project(id).admits(None),
{
}

} // verus!
