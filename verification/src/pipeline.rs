//! Per-entry decisions of a run: which staged changes are skipped, passed
//! through, or rewritten, and the update set a run accumulates.

use vstd::prelude::*;

use crate::config::Configuration;
use crate::config::ConfigurationItem;
use crate::errors::Error;
use crate::router::spec_route;
use crate::router::route;
use crate::router::RouteOutcome;
use crate::transform::spec_chain;
use crate::transform::ChainOutcome;

verus! {

/// One changed file of the staged-versus-last-commit diff, as the diff
/// engine reports it: its repository-relative path, its staged content, its
/// file mode, and whether the engine flagged the content binary.
pub struct ChangeEntry {
    pub path: String,
    pub content: Vec<u8>,
    pub mode: u32,
    pub binary: bool,
}

/// The mathematical value of a [`ChangeEntry`].
pub struct EntryV {
    pub path: Seq<char>,
    pub content: Seq<u8>,
    pub mode: u32,
    pub binary: bool,
}

impl View for ChangeEntry {
    type V = EntryV;

    open spec fn view(&self) -> EntryV {
        EntryV { path: self.path@, content: self.content@, mode: self.mode, binary: self.binary }
    }
}

/// One rewrite the run will apply to the staged tree: the transformed
/// content for a path, under the entry's original file mode.
pub struct Update {
    pub path: String,
    pub content: Vec<u8>,
    pub mode: u32,
}

/// The mathematical value of an [`Update`].
pub struct UpdateV {
    pub path: Seq<char>,
    pub content: Seq<u8>,
    pub mode: u32,
}

impl View for Update {
    type V = UpdateV;

    open spec fn view(&self) -> UpdateV {
        UpdateV { path: self.path@, content: self.content@, mode: self.mode }
    }
}

/// What the run does with one change entry.
pub enum EntryPlan {
    /// The entry is flagged binary: it is never handed to a transformer and
    /// its content is left as staged.
    Skip,
    /// No rule matches the path: the staged content is committed unchanged.
    PassThrough,
    /// The first matching rule's chain rewrites the content.
    Transform { rule: usize },
}

/// The spec-level counterpart of [`EntryPlan`].
pub enum PlanV {
    Skip,
    PassThrough,
    Transform(int),
}

/// The decision for one entry: binary entries are skipped before any rule is
/// consulted; otherwise the first matching rule is found, and a matched rule
/// must carry a non-empty chain.
pub open spec fn spec_plan(items: Seq<ConfigurationItem>, e: EntryV) -> Result<PlanV, ()> {
    if e.binary {
        Ok(PlanV::Skip)
    } else {
        match spec_route(items, e.path) {
            RouteOutcome::BadPattern => Err(()),
            RouteOutcome::NoMatch => Ok(PlanV::PassThrough),
            RouteOutcome::Match(i) => if items[i].transformers@.len() == 0 {
                Err(())
            } else {
                Ok(PlanV::Transform(i))
            },
        }
    }
}

/// Decides what the run does with `entry`.
pub fn plan_entry(config: &Configuration, entry: &ChangeEntry) -> (r: Result<EntryPlan, Error>)
    requires
        crate::router::repo_path_ok(entry.path@),
    ensures
        (match spec_plan(config@, entry@) {
            Ok(p) => r matches Ok(q) && (match p {
                PlanV::Skip => q is Skip,
                PlanV::PassThrough => q is PassThrough,
                PlanV::Transform(i) => q matches EntryPlan::Transform { rule } && rule == i,
            }),
            Err(_) => r is Err,
        }),
        spec_route(config@, entry@.path) is BadPattern && !entry.binary ==> (r matches Err(e)
            && e is GitError),
        !entry.binary && (spec_route(config@, entry@.path) matches RouteOutcome::Match(i)
            && config@[i].transformers@.len() == 0) ==> (r matches Err(e)
            && e is ConfigurationParseError),
{
    if entry.binary {
        return Ok(EntryPlan::Skip);
    }
    match route(config, &entry.path) {
        Err(e) => Err(e),
        Ok(None) => Ok(EntryPlan::PassThrough),
        Ok(Some(rule)) => {
            proof {
                crate::router::lemma_route_from_match(config@, entry@.path, 0, rule as int);
            }
            if config.items()[rule].transformers.len() == 0 {
                Err(
                    Error::ConfigurationParseError(
                        String::from_str("a matched rule names no transformers"),
                    ),
                )
            } else {
                Ok(EntryPlan::Transform { rule })
            }
        },
    }
}

/// Builds the update one transformed entry contributes: the new content
/// under the entry's path and original file mode.
pub fn make_update(entry: &ChangeEntry, content: Vec<u8>) -> (r: Update)
    ensures
        r@ == (UpdateV { path: entry.path@, content: content@, mode: entry.mode }),
{
    Update { path: entry.path.clone(), content, mode: entry.mode }
}

/// The updates one entry contributes when the run needs no external process
/// for it: none for a skipped or passed-through entry, the fully transformed
/// content for a matched one.  `None` when the run stops at this entry — a
/// routing or configuration error, a failed built-in stage, or a chain that
/// needs an external process run.
pub open spec fn spec_entry_updates(items: Seq<ConfigurationItem>, e: EntryV) -> Option<
    Seq<UpdateV>,
> {
    match spec_plan(items, e) {
        Err(_) => None,
        Ok(PlanV::Skip) => Some(Seq::empty()),
        Ok(PlanV::PassThrough) => Some(Seq::empty()),
        Ok(PlanV::Transform(i)) => match spec_chain(items[i].transformers@, 0, e.content) {
            ChainOutcome::Complete(out) => Some(
                seq![UpdateV { path: e.path, content: out, mode: e.mode }],
            ),
            _ => None,
        },
    }
}

/// The update set of a whole run over `entries`, in diff order, when every
/// chain completes in-process.
pub open spec fn spec_run_updates(
    items: Seq<ConfigurationItem>,
    entries: Seq<EntryV>,
) -> Option<Seq<UpdateV>>
    decreases entries.len(),
{
    if entries.len() == 0 {
        Some(Seq::empty())
    } else {
        match spec_run_updates(items, entries.drop_last()) {
            None => None,
            Some(ups) => match spec_entry_updates(items, entries.last()) {
                None => None,
                Some(more) => Some(ups + more),
            },
        }
    }
}

} // verus!
