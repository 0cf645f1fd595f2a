//! The laws a run obeys, stated over the spec-level run and proved once and
//! for all: what pass-through, mode preservation, binary skip, conflict
//! precedence and idempotence mean at the tree level.

use vstd::prelude::*;

use crate::config::BuiltinTransformer;
use crate::config::ConfigurationItem;
use crate::config::TransformerOptions;
use crate::pipeline::spec_entry_updates;
use crate::pipeline::spec_plan;
use crate::pipeline::spec_run_updates;
use crate::pipeline::EntryV;
use crate::pipeline::PlanV;
use crate::pipeline::UpdateV;
use crate::router::spec_route;
use crate::router::RouteOutcome;
use crate::transform::is_utf8;
use crate::transform::lemma_chain_idempotent;
use crate::transform::spec_builtin;
use crate::transform::spec_chain;
use crate::transform::strip_spec;
use crate::transform::ChainOutcome;
use crate::tree::opt_at;
use crate::tree::spec_apply;
use crate::tree::spec_merge;
use crate::tree::spec_merge_at;
use crate::tree::FileV;

verus! {

/// No two entries of one diff name the same path, as trees hold each path
/// once.
pub open spec fn distinct_paths(entries: Seq<EntryV>) -> bool {
    forall|n: int, m: int|
        0 <= n < m < entries.len() ==> #[trigger] entries[n].path != #[trigger] entries[m].path
}

/// `e` reports a real staged change: it carries the staged tree's content
/// and mode for its path, and that file differs from the last commit.
pub open spec fn entry_from_staged(
    e: EntryV,
    last: Map<Seq<char>, FileV>,
    staged: Map<Seq<char>, FileV>,
) -> bool {
    &&& staged.contains_key(e.path)
    &&& staged[e.path] == (FileV { content: e.content, mode: e.mode })
    &&& !last.contains_key(e.path) || last[e.path] != staged[e.path]
}

/// The entries are exactly a diff of `last` against `staged`: every entry
/// reports a real staged change, every changed path has an entry, and no
/// path repeats.  (Paths deleted from the staged tree carry no new content
/// and contribute no entry here.)
pub open spec fn entries_cover_diff(
    entries: Seq<EntryV>,
    last: Map<Seq<char>, FileV>,
    staged: Map<Seq<char>, FileV>,
) -> bool {
    &&& forall|n: int| 0 <= n < entries.len() ==> entry_from_staged(#[trigger] entries[n], last, staged)
    &&& forall|p: Seq<char>|
        staged.contains_key(p) && (!last.contains_key(p) || last[p] != staged[p]) ==> exists|n: int|
            0 <= n < entries.len() && (#[trigger] entries[n]).path == p
    &&& distinct_paths(entries)
}

proof fn lemma_run_some_entries(items: Seq<ConfigurationItem>, entries: Seq<EntryV>)
    requires
        spec_run_updates(items, entries) is Some,
    ensures
        forall|j: int|
            0 <= j < entries.len() ==> spec_entry_updates(items, #[trigger] entries[j]) is Some,
    decreases entries.len(),
{
    if entries.len() > 0 {
        lemma_run_some_entries(items, entries.drop_last());
        assert forall|j: int|
            0 <= j < entries.len() implies spec_entry_updates(items, #[trigger] entries[j])
            is Some by {
            if j < entries.len() - 1 {
                assert(entries.drop_last()[j] == entries[j]);
            }
        }
    }
}

proof fn lemma_update_source(items: Seq<ConfigurationItem>, entries: Seq<EntryV>, n: int)
    requires
        spec_run_updates(items, entries) is Some,
        0 <= n < spec_run_updates(items, entries)->Some_0.len(),
    ensures
        exists|j: int|
            0 <= j < entries.len() && spec_entry_updates(items, #[trigger] entries[j]) == Some(
                seq![spec_run_updates(items, entries)->Some_0[n]],
            ),
    decreases entries.len(),
{
    let ups = spec_run_updates(items, entries)->Some_0;
    let ups0 = spec_run_updates(items, entries.drop_last())->Some_0;
    let more = spec_entry_updates(items, entries.last())->Some_0;
    assert(ups == ups0 + more);
    if n < ups0.len() {
        lemma_update_source(items, entries.drop_last(), n);
        let j = choose|j: int|
            0 <= j < entries.drop_last().len() && spec_entry_updates(
                items,
                #[trigger] entries.drop_last()[j],
            ) == Some(seq![ups0[n]]);
        assert(entries[j] == entries.drop_last()[j]);
        assert(ups[n] == ups0[n]);
    } else {
        assert(more.len() <= 1);
        assert(more.len() == ups.len() - ups0.len());
        assert(n == ups0.len());
        assert(ups[n] == more[0]);
        assert(seq![more[0]] =~= more);
        assert(spec_entry_updates(items, entries[entries.len() - 1]) == Some(seq![ups[n]]));
    }
}

proof fn lemma_entry_contributes(items: Seq<ConfigurationItem>, entries: Seq<EntryV>, j: int)
    requires
        spec_run_updates(items, entries) is Some,
        0 <= j < entries.len(),
        spec_entry_updates(items, entries[j])->Some_0.len() == 1,
    ensures
        exists|n: int|
            0 <= n < spec_run_updates(items, entries)->Some_0.len() && spec_run_updates(
                items,
                entries,
            )->Some_0[n] == spec_entry_updates(items, entries[j])->Some_0[0],
    decreases entries.len(),
{
    let ups = spec_run_updates(items, entries)->Some_0;
    let ups0 = spec_run_updates(items, entries.drop_last())->Some_0;
    let more = spec_entry_updates(items, entries.last())->Some_0;
    assert(ups == ups0 + more);
    if j < entries.len() - 1 {
        assert(entries.drop_last()[j] == entries[j]);
        lemma_entry_contributes(items, entries.drop_last(), j);
        let n = choose|n: int|
            0 <= n < ups0.len() && ups0[n] == spec_entry_updates(
                items,
                entries.drop_last()[j],
            )->Some_0[0];
        assert(ups[n] == ups0[n]);
    } else {
        assert(ups[ups0.len() as int] == more[0]);
    }
}

proof fn lemma_apply_untouched(base: Map<Seq<char>, FileV>, ups: Seq<UpdateV>, p: Seq<char>)
    requires
        forall|n: int| 0 <= n < ups.len() ==> (#[trigger] ups[n]).path != p,
    ensures
        spec_apply(base, ups).contains_key(p) == base.contains_key(p),
        base.contains_key(p) ==> spec_apply(base, ups)[p] == base[p],
    decreases ups.len(),
{
    if ups.len() > 0 {
        assert(forall|n: int| 0 <= n < ups.len() - 1 ==> #[trigger] ups.drop_last()[n] == ups[n]);
        lemma_apply_untouched(base, ups.drop_last(), p);
        assert(ups[ups.len() - 1].path != p);
    }
}

proof fn lemma_apply_at(base: Map<Seq<char>, FileV>, ups: Seq<UpdateV>, n: int)
    requires
        0 <= n < ups.len(),
        forall|m: int| n < m < ups.len() ==> (#[trigger] ups[m]).path != ups[n].path,
    ensures
        spec_apply(base, ups).contains_key(ups[n].path),
        spec_apply(base, ups)[ups[n].path] == (FileV {
            content: ups[n].content,
            mode: ups[n].mode,
        }),
    decreases ups.len(),
{
    if n == ups.len() - 1 {
        assert(ups.last() == ups[n]);
    } else {
        assert(forall|m: int| 0 <= m < ups.len() - 1 ==> #[trigger] ups.drop_last()[m] == ups[m]);
        lemma_apply_at(base, ups.drop_last(), n);
        assert(ups[ups.len() - 1].path != ups[n].path);
    }
}

proof fn lemma_updates_distinct(items: Seq<ConfigurationItem>, entries: Seq<EntryV>)
    requires
        spec_run_updates(items, entries) is Some,
        distinct_paths(entries),
    ensures
        forall|n: int, m: int|
            0 <= n < m < spec_run_updates(items, entries)->Some_0.len()
                ==> (#[trigger] spec_run_updates(items, entries)->Some_0[n]).path
                != (#[trigger] spec_run_updates(items, entries)->Some_0[m]).path,
{
    let ups = spec_run_updates(items, entries)->Some_0;
    assert forall|n: int, m: int|
        0 <= n < m < ups.len() implies (#[trigger] ups[n]).path != (#[trigger] ups[m]).path by {
        lemma_update_source(items, entries, n);
        lemma_update_source(items, entries, m);
        let jn = choose|j: int|
            0 <= j < entries.len() && spec_entry_updates(items, #[trigger] entries[j]) == Some(
                seq![ups[n]],
            );
        let jm = choose|j: int|
            0 <= j < entries.len() && spec_entry_updates(items, #[trigger] entries[j]) == Some(
                seq![ups[m]],
            );
        lemma_entry_update_shape(items, entries[jn]);
        lemma_entry_update_shape(items, entries[jm]);
        if ups[n].path == ups[m].path {
            lemma_update_positions_agree(items, entries, n, m);
        }
    }
}

/// A singleton contribution has the entry's path and mode, comes from a
/// matched, non-binary entry, and carries its chain's completed output.
proof fn lemma_entry_update_shape(items: Seq<ConfigurationItem>, e: EntryV)
    requires
        spec_entry_updates(items, e) is Some,
        spec_entry_updates(items, e)->Some_0.len() == 1,
    ensures
        spec_entry_updates(items, e)->Some_0[0].path == e.path,
        spec_entry_updates(items, e)->Some_0[0].mode == e.mode,
        !e.binary,
        spec_plan(items, e) is Ok,
        spec_plan(items, e)->Ok_0 is Transform,
        spec_route(items, e.path) == RouteOutcome::Match(spec_plan(items, e)->Ok_0->Transform_0),
        spec_chain(items[spec_plan(items, e)->Ok_0->Transform_0].transformers@, 0, e.content)
            == ChainOutcome::Complete(spec_entry_updates(items, e)->Some_0[0].content),
{
    let r = spec_entry_updates(items, e);
    match spec_plan(items, e) {
        Err(_) => {
            assert(r is None);
        },
        Ok(p) => match p {
            PlanV::Skip => {
                assert(r->Some_0.len() == 0);
            },
            PlanV::PassThrough => {
                assert(r->Some_0.len() == 0);
            },
            PlanV::Transform(i) => {
                match spec_chain(items[i].transformers@, 0, e.content) {
                    ChainOutcome::Complete(out) => {
                        let u = UpdateV { path: e.path, content: out, mode: e.mode };
                        assert(r == Some(seq![u]));
                        assert(r->Some_0[0] == u);
                    },
                    ChainOutcome::Await { .. } => {
                        assert(r is None);
                    },
                    ChainOutcome::Failed => {
                        assert(r is None);
                    },
                }
            },
        },
    }
}

/// Updates at two positions share a path only when the positions coincide:
/// each entry contributes at most one update, and entry paths are distinct.
proof fn lemma_update_positions_agree(
    items: Seq<ConfigurationItem>,
    entries: Seq<EntryV>,
    n: int,
    m: int,
)
    requires
        spec_run_updates(items, entries) is Some,
        distinct_paths(entries),
        0 <= n <= m < spec_run_updates(items, entries)->Some_0.len(),
        spec_run_updates(items, entries)->Some_0[n].path == spec_run_updates(
            items,
            entries,
        )->Some_0[m].path,
    ensures
        n == m,
    decreases entries.len(),
{
    let ups = spec_run_updates(items, entries)->Some_0;
    let ups0 = spec_run_updates(items, entries.drop_last())->Some_0;
    let more = spec_entry_updates(items, entries.last())->Some_0;
    assert(ups == ups0 + more);
    assert(more.len() <= 1);
    assert(forall|k: int|
        0 <= k < entries.len() - 1 ==> #[trigger] entries.drop_last()[k] == entries[k]);
    if m < ups0.len() {
        lemma_update_positions_agree(items, entries.drop_last(), n, m);
    } else if n < ups0.len() {
        // `m` names the last entry's own contribution, `n` an earlier
        // entry's: their paths cannot agree.
        assert(ups[m] == more[0]);
        lemma_entry_update_shape(items, entries.last());
        lemma_update_source(items, entries.drop_last(), n);
        let jn = choose|k: int|
            0 <= k < entries.drop_last().len() && spec_entry_updates(
                items,
                #[trigger] entries.drop_last()[k],
            ) == Some(seq![ups0[n]]);
        lemma_entry_update_shape(items, entries.drop_last()[jn]);
        assert(ups[n] == ups0[n]);
        assert(entries[jn].path == entries[entries.len() - 1].path);
        assert(jn < entries.len() - 1);
    }
}

/// Pass-through invariant: a changed path matching no configured rule is
/// committed byte-identical to the staged tree — the run's update set never
/// touches it.
pub proof fn lemma_pass_through(
    items: Seq<ConfigurationItem>,
    entries: Seq<EntryV>,
    staged: Map<Seq<char>, FileV>,
    p: Seq<char>,
)
    requires
        spec_run_updates(items, entries) is Some,
        spec_route(items, p) is NoMatch,
    ensures
        spec_apply(staged, spec_run_updates(items, entries)->Some_0).contains_key(p)
            == staged.contains_key(p),
        staged.contains_key(p) ==> spec_apply(staged, spec_run_updates(items, entries)->Some_0)[p]
            == staged[p],
{
    let ups = spec_run_updates(items, entries)->Some_0;
    assert forall|n: int| 0 <= n < ups.len() implies (#[trigger] ups[n]).path != p by {
        lemma_update_source(items, entries, n);
        let j = choose|j: int|
            0 <= j < entries.len() && spec_entry_updates(items, #[trigger] entries[j]) == Some(
                seq![ups[n]],
            );
        lemma_entry_update_shape(items, entries[j]);
    }
    lemma_apply_untouched(staged, ups, p);
}

/// Mode preservation: every update of the run carries the file mode of the
/// staged entry it rewrote.
pub proof fn lemma_mode_preservation(items: Seq<ConfigurationItem>, entries: Seq<EntryV>, n: int)
    requires
        spec_run_updates(items, entries) is Some,
        0 <= n < spec_run_updates(items, entries)->Some_0.len(),
    ensures
        exists|j: int|
            0 <= j < entries.len() && (#[trigger] entries[j]).path == spec_run_updates(
                items,
                entries,
            )->Some_0[n].path && entries[j].mode == spec_run_updates(items, entries)->Some_0[n].mode,
{
    let ups = spec_run_updates(items, entries)->Some_0;
    lemma_update_source(items, entries, n);
    let j = choose|j: int|
        0 <= j < entries.len() && spec_entry_updates(items, #[trigger] entries[j]) == Some(
            seq![ups[n]],
        );
    lemma_entry_update_shape(items, entries[j]);
}

/// Binary skip: an entry flagged binary is never handed to a transformer —
/// its plan is the skip — and the transformed tree holds its path unchanged
/// from the staged tree.
pub proof fn lemma_binary_skip(
    items: Seq<ConfigurationItem>,
    entries: Seq<EntryV>,
    staged: Map<Seq<char>, FileV>,
    k: int,
)
    requires
        spec_run_updates(items, entries) is Some,
        distinct_paths(entries),
        0 <= k < entries.len(),
        entries[k].binary,
    ensures
        spec_plan(items, entries[k]) == Ok::<PlanV, ()>(PlanV::Skip),
        spec_entry_updates(items, entries[k]) == Some(Seq::<UpdateV>::empty()),
        spec_apply(staged, spec_run_updates(items, entries)->Some_0).contains_key(entries[k].path)
            == staged.contains_key(entries[k].path),
        staged.contains_key(entries[k].path) ==> spec_apply(
            staged,
            spec_run_updates(items, entries)->Some_0,
        )[entries[k].path] == staged[entries[k].path],
{
    let ups = spec_run_updates(items, entries)->Some_0;
    let p = entries[k].path;
    assert forall|n: int| 0 <= n < ups.len() implies (#[trigger] ups[n]).path != p by {
        lemma_update_source(items, entries, n);
        let j = choose|j: int|
            0 <= j < entries.len() && spec_entry_updates(items, #[trigger] entries[j]) == Some(
                seq![ups[n]],
            );
        lemma_entry_update_shape(items, entries[j]);
        if ups[n].path == p {
            assert(entries[j].path == entries[k].path);
            assert(j == k);
            assert(false);
        }
    }
    lemma_apply_untouched(staged, ups, p);
}

proof fn lemma_apply_concat(base: Map<Seq<char>, FileV>, a: Seq<UpdateV>, b: Seq<UpdateV>)
    ensures
        spec_apply(base, a + b) == spec_apply(spec_apply(base, a), b),
    decreases b.len(),
{
    if b.len() == 0 {
        assert(a + b =~= a);
    } else {
        assert((a + b).drop_last() =~= a + b.drop_last());
        assert((a + b).last() == b.last());
        lemma_apply_concat(base, a, b.drop_last());
    }
}

/// Every update the entry contributes re-inserts what `t1` already holds at
/// its path.
pub open spec fn entry_noop(
    items: Seq<ConfigurationItem>,
    e: EntryV,
    t1: Map<Seq<char>, FileV>,
) -> bool {
    match spec_entry_updates(items, e) {
        Some(more) => forall|q: int|
            0 <= q < more.len() ==> opt_at(t1, (#[trigger] more[q]).path) == Some(
                FileV { content: more[q].content, mode: more[q].mode },
            ),
        None => false,
    }
}

proof fn lemma_apply_noop_run(
    items: Seq<ConfigurationItem>,
    entries: Seq<EntryV>,
    t1: Map<Seq<char>, FileV>,
)
    requires
        forall|n: int| 0 <= n < entries.len() ==> entry_noop(items, #[trigger] entries[n], t1),
    ensures
        spec_run_updates(items, entries) is Some,
        spec_apply(t1, spec_run_updates(items, entries)->Some_0) == t1,
    decreases entries.len(),
{
    if entries.len() == 0 {
        assert(spec_apply(t1, Seq::<UpdateV>::empty()) == t1);
    } else {
        assert(forall|n: int|
            0 <= n < entries.len() - 1 ==> #[trigger] entries.drop_last()[n] == entries[n]);
        lemma_apply_noop_run(items, entries.drop_last(), t1);
        let ups0 = spec_run_updates(items, entries.drop_last())->Some_0;
        assert(entry_noop(items, entries[entries.len() - 1], t1));
        let more = spec_entry_updates(items, entries.last())->Some_0;
        lemma_apply_concat(t1, ups0, more);
        if more.len() == 0 {
            assert(spec_apply(t1, more) == t1);
        } else {
            assert(more.len() <= 1);
            assert(more.drop_last() =~= Seq::<UpdateV>::empty());
            assert(spec_apply(t1, Seq::<UpdateV>::empty()) == t1);
            let u = more[0];
            assert(more.last() == u);
            assert(opt_at(t1, u.path) == Some(FileV { content: u.content, mode: u.mode }));
            assert(spec_apply(t1, more) == t1.insert(
                u.path,
                FileV { content: u.content, mode: u.mode },
            ));
            assert(t1.insert(u.path, FileV { content: u.content, mode: u.mode }) =~= t1);
        }
    }
}

/// A second run's entry changes nothing: its chain reproduces the content
/// the transformed tree already holds, or it is skipped or passed through.
proof fn lemma_rerun_entry(
    items: Seq<ConfigurationItem>,
    entries1: Seq<EntryV>,
    last: Map<Seq<char>, FileV>,
    staged: Map<Seq<char>, FileV>,
    e2: EntryV,
)
    requires
        spec_run_updates(items, entries1) is Some,
        entries_cover_diff(entries1, last, staged),
        entry_from_staged(e2, last, spec_apply(staged, spec_run_updates(items, entries1)->Some_0)),
        forall|m: int|
            0 <= m < entries1.len() && (#[trigger] entries1[m]).path == e2.path
                ==> entries1[m].binary == e2.binary,
    ensures
        entry_noop(items, e2, spec_apply(staged, spec_run_updates(items, entries1)->Some_0)),
{
    let ups1 = spec_run_updates(items, entries1)->Some_0;
    let t1 = spec_apply(staged, ups1);
    let p = e2.path;
    if e2.binary {
        assert(spec_entry_updates(items, e2) == Some(Seq::<UpdateV>::empty()));
    } else if exists|n: int| 0 <= n < ups1.len() && (#[trigger] ups1[n]).path == p {
        // The first run rewrote this path; the chain is idempotent on its
        // own output.
        let n = choose|n: int| 0 <= n < ups1.len() && (#[trigger] ups1[n]).path == p;
        lemma_update_source(items, entries1, n);
        let j = choose|j: int|
            0 <= j < entries1.len() && spec_entry_updates(items, #[trigger] entries1[j]) == Some(
                seq![ups1[n]],
            );
        lemma_entry_update_shape(items, entries1[j]);
        let i = spec_plan(items, entries1[j])->Ok_0->Transform_0;
        lemma_updates_distinct(items, entries1);
        lemma_apply_at(staged, ups1, n);
        assert(t1[p] == (FileV { content: ups1[n].content, mode: ups1[n].mode }));
        assert(e2.content == ups1[n].content);
        assert(e2.mode == ups1[n].mode);
        assert(spec_route(items, p) == RouteOutcome::Match(i));
        assert(spec_plan(items, e2) == Ok::<PlanV, ()>(PlanV::Transform(i)));
        lemma_chain_idempotent(items[i].transformers@, entries1[j].content);
        assert(spec_chain(items[i].transformers@, 0, e2.content) == ChainOutcome::Complete(
            e2.content,
        ));
        let u2 = UpdateV { path: p, content: e2.content, mode: e2.mode };
        assert(spec_entry_updates(items, e2) == Some(seq![u2]));
        assert(opt_at(t1, p) == Some(FileV { content: u2.content, mode: u2.mode }));
    } else {
        // The first run left this path alone, so the staged change is still
        // there and its path matched no rule.
        assert(forall|n: int| 0 <= n < ups1.len() ==> (#[trigger] ups1[n]).path != p);
        lemma_apply_untouched(staged, ups1, p);
        assert(staged.contains_key(p) && staged[p] == t1[p]);
        assert(!last.contains_key(p) || last[p] != staged[p]);
        let m = choose|m: int| 0 <= m < entries1.len() && (#[trigger] entries1[m]).path == p;
        lemma_run_some_entries(items, entries1);
        assert(spec_entry_updates(items, entries1[m]) is Some);
        assert(!entries1[m].binary);
        match spec_plan(items, entries1[m]) {
            Err(_) => {
                assert(spec_entry_updates(items, entries1[m]) is None);
            },
            Ok(plan) => match plan {
                PlanV::Skip => {
                    assert(entries1[m].binary);
                },
                PlanV::PassThrough => {
                    assert(spec_route(items, p) is NoMatch);
                    assert(spec_plan(items, e2) == Ok::<PlanV, ()>(PlanV::PassThrough));
                    assert(spec_entry_updates(items, e2) == Some(Seq::<UpdateV>::empty()));
                },
                PlanV::Transform(i) => {
                    match spec_chain(items[i].transformers@, 0, entries1[m].content) {
                        ChainOutcome::Complete(out) => {
                            lemma_entry_contributes(items, entries1, m);
                            assert(exists|n: int|
                                0 <= n < ups1.len() && (#[trigger] ups1[n]).path == p);
                        },
                        ChainOutcome::Await { .. } => {
                            assert(spec_entry_updates(items, entries1[m]) is None);
                        },
                        ChainOutcome::Failed => {
                            assert(spec_entry_updates(items, entries1[m]) is None);
                        },
                    }
                },
            },
        }
    }
}

/// Idempotence, fixed point: run the pipeline again with the transformed
/// tree staged, and the second run completes and reproduces that tree
/// exactly — formatting already-formatted content changes nothing.
pub proof fn lemma_rerun_fixed_point(
    items: Seq<ConfigurationItem>,
    entries1: Seq<EntryV>,
    entries2: Seq<EntryV>,
    last: Map<Seq<char>, FileV>,
    staged: Map<Seq<char>, FileV>,
)
    requires
        spec_run_updates(items, entries1) is Some,
        entries_cover_diff(entries1, last, staged),
        entries_cover_diff(
            entries2,
            last,
            spec_apply(staged, spec_run_updates(items, entries1)->Some_0),
        ),
        forall|n: int, m: int|
            0 <= n < entries2.len() && 0 <= m < entries1.len() && (#[trigger] entries2[n]).path
                == (#[trigger] entries1[m]).path ==> entries2[n].binary == entries1[m].binary,
    ensures
        spec_run_updates(items, entries2) is Some,
        spec_apply(
            spec_apply(staged, spec_run_updates(items, entries1)->Some_0),
            spec_run_updates(items, entries2)->Some_0,
        ) == spec_apply(staged, spec_run_updates(items, entries1)->Some_0),
{
    let ups1 = spec_run_updates(items, entries1)->Some_0;
    let t1 = spec_apply(staged, ups1);
    assert forall|n: int| 0 <= n < entries2.len() implies entry_noop(
        items,
        #[trigger] entries2[n],
        t1,
    ) by {
        lemma_rerun_entry(items, entries1, last, staged, entries2[n]);
    }
    lemma_apply_noop_run(items, entries2, t1);
}

/// Idempotence, empty second run: once the transformed tree is committed,
/// a diff of that commit against the unchanged staged tree is empty, so the
/// pipeline produces no updates and leaves the tree as it is; the outcome
/// check then signals the empty index.
pub proof fn lemma_second_run_empty(
    items: Seq<ConfigurationItem>,
    entries2: Seq<EntryV>,
    t1: Map<Seq<char>, FileV>,
)
    requires
        entries_cover_diff(entries2, t1, t1),
    ensures
        spec_run_updates(items, entries2) == Some(Seq::<UpdateV>::empty()),
        spec_apply(t1, Seq::<UpdateV>::empty()) == t1,
{
    if entries2.len() > 0 {
        assert(entry_from_staged(entries2[0], t1, t1));
    }
    assert(entries2 =~= Seq::<EntryV>::empty());
}

proof fn lemma_run_updates_all(items: Seq<ConfigurationItem>, entries: Seq<EntryV>)
    requires
        forall|n: int|
            0 <= n < entries.len() ==> spec_entry_updates(items, #[trigger] entries[n]) is Some,
    ensures
        spec_run_updates(items, entries) is Some,
    decreases entries.len(),
{
    if entries.len() > 0 {
        assert(forall|n: int|
            0 <= n < entries.len() - 1 ==> #[trigger] entries.drop_last()[n] == entries[n]);
        lemma_run_updates_all(items, entries.drop_last());
        assert(spec_entry_updates(items, entries[entries.len() - 1]) is Some);
    }
}

/// The shape of one whitespace-only staged change: the entry is text, the
/// rule handling its path runs the trailing-whitespace stripper alone, and
/// stripping its content yields exactly the file the last commit holds at
/// that path, mode included.  (The last clause entails that the committed
/// content carries no trailing whitespace of its own.)
pub open spec fn whitespace_only_entry(
    items: Seq<ConfigurationItem>,
    e: EntryV,
    last: Map<Seq<char>, FileV>,
) -> bool {
    &&& !e.binary
    &&& is_utf8(e.content)
    &&& (match spec_route(items, e.path) {
        RouteOutcome::Match(i) => items[i].transformers@ == seq![
            TransformerOptions::Builtin(BuiltinTransformer::TrailingWhitespace),
        ],
        _ => false,
    })
    &&& last.contains_key(e.path)
    &&& last[e.path] == (FileV { content: strip_spec(e.content), mode: e.mode })
}

/// Empty-result detection: when no file was added or removed and every
/// staged change is whitespace-only — stripping it reproduces the last
/// commit's file — the run completes and its transformed tree equals the
/// last commit's tree exactly, on which the outcome check signals the
/// empty index.
pub proof fn lemma_empty_result_detection(
    items: Seq<ConfigurationItem>,
    entries: Seq<EntryV>,
    last: Map<Seq<char>, FileV>,
    staged: Map<Seq<char>, FileV>,
)
    requires
        entries_cover_diff(entries, last, staged),
        forall|p: Seq<char>| #[trigger] staged.contains_key(p) == last.contains_key(p),
        forall|n: int|
            0 <= n < entries.len() ==> whitespace_only_entry(items, #[trigger] entries[n], last),
    ensures
        spec_run_updates(items, entries) is Some,
        spec_apply(staged, spec_run_updates(items, entries)->Some_0) == last,
{
    // Each entry's chain completes and contributes the last commit's file.
    assert forall|n: int| 0 <= n < entries.len() implies spec_entry_updates(
        items,
        #[trigger] entries[n],
    ) == Some(
        seq![
            UpdateV {
                path: entries[n].path,
                content: strip_spec(entries[n].content),
                mode: entries[n].mode,
            },
        ],
    ) by {
        let e = entries[n];
        match spec_route(items, e.path) {
            RouteOutcome::Match(i) => {
                let chain = items[i].transformers@;
                let tw = TransformerOptions::Builtin(BuiltinTransformer::TrailingWhitespace);
                assert(chain == seq![tw]);
                assert(chain.len() == 1 && chain[0] == tw);
                assert(spec_plan(items, e) == Ok::<PlanV, ()>(PlanV::Transform(i)));
                assert(spec_builtin(BuiltinTransformer::TrailingWhitespace, e.content)
                    == Ok::<Seq<u8>, ()>(strip_spec(e.content)));
                assert(spec_chain(chain, 1, strip_spec(e.content)) == ChainOutcome::Complete(
                    strip_spec(e.content),
                ));
                assert(spec_chain(chain, 0, e.content) == ChainOutcome::Complete(
                    strip_spec(e.content),
                ));
            },
            _ => {
            },
        }
    }
    lemma_run_updates_all(items, entries);
    lemma_updates_distinct(items, entries);
    let ups = spec_run_updates(items, entries)->Some_0;
    let t = spec_apply(staged, ups);
    assert forall|p: Seq<char>| #[trigger] t.contains_key(p) implies last.contains_key(p) && t[p]
        == last[p] by {
        if exists|m: int| 0 <= m < ups.len() && (#[trigger] ups[m]).path == p {
            let m = choose|m: int| 0 <= m < ups.len() && (#[trigger] ups[m]).path == p;
            lemma_apply_at(staged, ups, m);
            lemma_update_source(items, entries, m);
            let j = choose|j: int|
                0 <= j < entries.len() && spec_entry_updates(items, #[trigger] entries[j])
                    == Some(seq![ups[m]]);
            let u = UpdateV {
                path: entries[j].path,
                content: strip_spec(entries[j].content),
                mode: entries[j].mode,
            };
            assert(seq![ups[m]] == seq![u]);
            assert(seq![ups[m]][0] == ups[m]);
            assert(seq![u][0] == u);
            assert(ups[m] == u);
            assert(whitespace_only_entry(items, entries[j], last));
        } else {
            assert(forall|m: int| 0 <= m < ups.len() ==> (#[trigger] ups[m]).path != p);
            lemma_apply_untouched(staged, ups, p);
            assert(staged.contains_key(p));
            if staged[p] != last[p] {
                let n = choose|n: int|
                    0 <= n < entries.len() && (#[trigger] entries[n]).path == p;
                lemma_entry_contributes(items, entries, n);
                let m = choose|m: int|
                    0 <= m < ups.len() && spec_run_updates(items, entries)->Some_0[m]
                        == spec_entry_updates(items, entries[n])->Some_0[0];
                assert(ups[m].path == p);
            }
        }
    }
    assert forall|p: Seq<char>| #[trigger] last.contains_key(p) implies t.contains_key(p) by {
        if exists|m: int| 0 <= m < ups.len() && (#[trigger] ups[m]).path == p {
            let m = choose|m: int| 0 <= m < ups.len() && (#[trigger] ups[m]).path == p;
            lemma_apply_at(staged, ups, m);
        } else {
            assert(forall|m: int| 0 <= m < ups.len() ==> (#[trigger] ups[m]).path != p);
            lemma_apply_untouched(staged, ups, p);
        }
    }
    assert(t =~= last);
}

/// Working-copy precedence: wherever the working copy differs from the
/// staged ancestor, the merged tree holds the working copy's version — the
/// formatter's output never overrides the author's newer edit.
pub proof fn lemma_working_copy_precedence(
    anc: Map<Seq<char>, FileV>,
    ours: Map<Seq<char>, FileV>,
    theirs: Map<Seq<char>, FileV>,
    p: Seq<char>,
)
    requires
        opt_at(ours, p) != opt_at(anc, p),
    ensures
        opt_at(spec_merge(anc, ours, theirs), p) == opt_at(ours, p),
{
    let merged = spec_merge(anc, ours, theirs);
    assert(merged.contains_key(p) == (spec_merge_at(anc, ours, theirs, p) is Some));
    if merged.contains_key(p) {
        assert(merged[p] == spec_merge_at(anc, ours, theirs, p)->Some_0);
    }
}

} // verus!
