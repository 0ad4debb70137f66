//! Scatter-first commits.
//!
//! Every flush of a child's inode writes the parent directory's scatter object
//! before the child's own inode object. The scatter object is therefore the
//! durable commit point of a mutation: if it cannot be written, the flush
//! fails and nothing has happened; once it is written, it alone is enough to
//! rebuild the child's entry, and the child's inode object is a best-effort
//! replica.
use vstd::prelude::*;
use crate::ident::{Ulid, Uuid};
use crate::scatter::{scatter_key, DirScatterInodeOp};
use crate::store::{scatter_event, ScatterPut};
use crate::text::ends_with;

verus! {

/// Why a child's inode is flushed.
#[derive(Clone, Copy, Debug, PartialEq, Eq, Structural)]
pub enum FlushFlag {
    Ignore,
    Create,
    Update,
    Delete,
    Unknown,
}

/// Turns each flush of a child's inode into a commit in the parent directory.
/// Parent, name and identity of the child are given, since a child's prefix
/// does not tell its parent.
#[derive(Clone, Debug)]
pub struct ScatterFirstInterceptor {
    /// Prefix of the parent directory.
    pub parent_path: String,
    /// Name of the child in the parent directory.
    pub name: String,
    /// Identity of the child.
    pub child: Uuid,
}

/// The op that a flush commits. A delete is committed by an unlink, whose
/// body is not an inode; other flushes are not commits.
pub open spec fn op_of_flush(flag: FlushFlag) -> Option<DirScatterInodeOp> {
    match flag {
        FlushFlag::Create => Some(DirScatterInodeOp::Create),
        FlushFlag::Update => Some(DirScatterInodeOp::Update),
        _ => None,
    }
}

impl ScatterFirstInterceptor {
    /// An interceptor for the child `child`, named `name` in the directory
    /// under `parent_path`.
    pub fn new(parent_path: &str, name: &str, child: Uuid) -> (r: ScatterFirstInterceptor)
        ensures
            r.parent_path@ == parent_path@,
            r.name@ == name@,
            r.child == child,
    {
        ScatterFirstInterceptor { parent_path: parent_path.to_string(), name: name.to_string(), child }
    }

    /// The scatter object that is to be written before the inode `payload` is
    /// flushed; `None` where the flush commits nothing.
    pub fn before_flush_inode(&self, payload: &[u8], flag: FlushFlag, ulid: &Ulid) -> (r: Option<ScatterPut>)
        requires
            !ends_with(self.parent_path@, "/"@),
        ensures
            match op_of_flush(flag) {
                None => r is None,
                Some(op) => r matches Some(p) && p.key@ == scatter_key(
                    self.parent_path@,
                    self.name@,
                    *ulid,
                    self.child,
                    op.code(),
                ) && p.body@ == payload@,
            },
    {
        let op: DirScatterInodeOp = match flag {
            FlushFlag::Create => DirScatterInodeOp::Create,
            FlushFlag::Update => DirScatterInodeOp::Update,
            FlushFlag::Delete | FlushFlag::Ignore | FlushFlag::Unknown => {
                return None;
            },
        };
        match scatter_event(self.parent_path.as_str(), self.name.as_str(), &self.child, payload, op, ulid) {
            Ok(p) => Some(p),
            Err(_) => None,
        }
    }
}

/// Only flushes that create or update a child are commits, each of its own op.
pub proof fn law_flushes_that_are_commits(flag: FlushFlag)
    ensures
        op_of_flush(FlushFlag::Create) == Some(DirScatterInodeOp::Create),
        op_of_flush(FlushFlag::Update) == Some(DirScatterInodeOp::Update),
        flag != FlushFlag::Create && flag != FlushFlag::Update ==> op_of_flush(flag) is None,
{
}

} // verus!
