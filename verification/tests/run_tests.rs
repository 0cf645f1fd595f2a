use yact::config::BuiltinTransformer;
use yact::config::Configuration;
use yact::config::ConfigurationItem;
use yact::config::ShellCommandTransformer;
use yact::config::TransformerOptions;
use yact::errors::Error;
use yact::pipeline::make_update;
use yact::pipeline::plan_entry;
use yact::pipeline::ChangeEntry;
use yact::pipeline::EntryPlan;
use yact::pipeline::Update;
use yact::transform::advance_chain;
use yact::transform::ChainProgress;
use yact::tree::DiskFile;
use yact::tree::TreeModel;

const MODE: u32 = 0o100644;

fn whitespace_on(pathspec: &str) -> Configuration {
    Configuration::new(vec![ConfigurationItem {
        pathspec: pathspec.to_string(),
        transformers: vec![TransformerOptions::Builtin(BuiltinTransformer::TrailingWhitespace)],
    }])
}

fn tree(files: &[(&str, &[u8], u32)]) -> TreeModel {
    let mut t = TreeModel::empty();
    for (path, content, mode) in files {
        t.upsert(path.to_string(), content.to_vec(), *mode);
    }
    t
}

fn entry(path: &str, content: &[u8], mode: u32, binary: bool) -> ChangeEntry {
    ChangeEntry { path: path.to_string(), content: content.to_vec(), mode, binary }
}

/// Drives the per-entry decisions over a set of entries, the way the
/// surrounding command does, for configurations whose chains are built-in.
fn run_builtin_pipeline(
    config: &Configuration,
    entries: &[ChangeEntry],
    staged: &TreeModel,
) -> Result<TreeModel, Error> {
    let mut updates: Vec<Update> = Vec::new();
    for e in entries {
        match plan_entry(config, e)? {
            EntryPlan::Skip | EntryPlan::PassThrough => {},
            EntryPlan::Transform { rule } => {
                let chain = &config.items()[rule].transformers;
                match advance_chain(chain, 0, e.content.clone()) {
                    ChainProgress::Complete(out) => updates.push(make_update(e, out)),
                    ChainProgress::Failed(err) => return Err(err),
                    ChainProgress::Await { .. } => panic!("built-in chain awaited a process"),
                }
            },
        }
    }
    Ok(staged.apply_updates(&updates))
}

fn content_at(t: &TreeModel, path: &str) -> Vec<u8> {
    t.lookup(&path.to_string()).expect("path should be present").content.clone()
}

#[test]
fn whitespace_only_change_is_neutralized() {
    // One committed file; the staged change only adds trailing whitespace.
    let last = tree(&[("README.md", b"# Blah\n", MODE)]);
    let staged = tree(&[("README.md", b"# Blah     ", MODE)]);
    let config = whitespace_on("*.md");
    let entries = vec![entry("README.md", b"# Blah     ", MODE, false)];

    let transformed = run_builtin_pipeline(&config, &entries, &staged).unwrap();
    assert_eq!(content_at(&transformed, "README.md"), b"# Blah\n");

    // Nothing real remains: the run must signal the empty index.
    assert!(matches!(
        TreeModel::evaluate_outcome(&last, &transformed),
        Err(Error::EmptyIndex)
    ));

    // Reconciliation: the on-disk file still holds the staged bytes, so the
    // formatter's output is adopted and the working file ends up clean.
    let slice = staged.worktree_slice(&vec![DiskFile {
        path: "README.md".to_string(),
        content: b"# Blah     ".to_vec(),
    }]);
    let merged = TreeModel::merge_favor_ours(&staged, &slice, &transformed);
    assert_eq!(content_at(&merged, "README.md"), b"# Blah\n");
}

#[test]
fn unicode_whitespace_only_change_is_neutralized() {
    // The staged change only appends a no-break space; stripping it
    // reproduces the committed file, so nothing remains to commit.
    let last = tree(&[("README.md", b"a\n", MODE)]);
    let staged_content = "a\u{a0}".as_bytes();
    let staged = tree(&[("README.md", staged_content, MODE)]);
    let config = whitespace_on("*.md");
    let entries = vec![entry("README.md", staged_content, MODE, false)];
    let transformed = run_builtin_pipeline(&config, &entries, &staged).unwrap();
    assert_eq!(content_at(&transformed, "README.md"), b"a\n");
    assert!(matches!(
        TreeModel::evaluate_outcome(&last, &transformed),
        Err(Error::EmptyIndex)
    ));
}

#[test]
fn later_working_copy_edit_wins_over_formatter() {
    // Stage a whitespace-only change, then edit the file on disk before the
    // run: the author's newer edit must survive.
    let last = tree(&[("README.md", b"# Blah\n", MODE)]);
    let staged = tree(&[("README.md", b"# Blah     ", MODE)]);
    let config = whitespace_on("*.md");
    let entries = vec![entry("README.md", b"# Blah     ", MODE, false)];

    let transformed = run_builtin_pipeline(&config, &entries, &staged).unwrap();
    assert!(matches!(
        TreeModel::evaluate_outcome(&last, &transformed),
        Err(Error::EmptyIndex)
    ));

    let slice = staged.worktree_slice(&vec![DiskFile {
        path: "README.md".to_string(),
        content: b"# Blab".to_vec(),
    }]);
    let merged = TreeModel::merge_favor_ours(&staged, &slice, &transformed);
    assert_eq!(content_at(&merged, "README.md"), b"# Blab");
}

#[test]
fn unmatched_change_is_committed_byte_identical() {
    let staged = tree(&[("notes.txt", b"text with spaces   ", MODE)]);
    let config = whitespace_on("*.md");
    let entries = vec![entry("notes.txt", b"text with spaces   ", MODE, false)];

    let transformed = run_builtin_pipeline(&config, &entries, &staged).unwrap();
    assert_eq!(content_at(&transformed, "notes.txt"), b"text with spaces   ");

    // A real change remains, so the run succeeds.
    let last = tree(&[]);
    assert!(TreeModel::evaluate_outcome(&last, &transformed).is_ok());
}

#[test]
fn failing_external_transformer_aborts_without_updates() {
    let staged = tree(&[("src.c", b"int main;", MODE)]);
    let config = Configuration::new(vec![ConfigurationItem {
        pathspec: "*.c".to_string(),
        transformers: vec![TransformerOptions::RawCommand(ShellCommandTransformer::System {
            command: "false".to_string(),
            env: Vec::new(),
            args: Vec::new(),
        })],
    }]);
    let e = entry("src.c", b"int main;", MODE, false);

    // The run reaches the external stage...
    let rule = match plan_entry(&config, &e).unwrap() {
        EntryPlan::Transform { rule } => rule,
        _ => panic!("the entry should match"),
    };
    let chain = &config.items()[rule].transformers;
    let input = match advance_chain(chain, 0, e.content.clone()) {
        ChainProgress::Await { step: 0, input } => input,
        _ => panic!("the chain should await the external stage"),
    };
    // ... the process exits non-zero, and the whole run aborts with a
    // transformer error before any update is applied.
    let err = yact::transform::external_outcome(false, Vec::new(), "false").unwrap_err();
    assert!(matches!(err, Error::TransformerError(_)));
    assert_eq!(input, b"int main;");

    // No update was produced, so the tree the index points at is unchanged.
    let untouched = staged.apply_updates(&Vec::new());
    assert!(TreeModel::equal_trees(&staged, &untouched));
}

#[test]
fn modes_are_carried_over_unchanged() {
    let staged = tree(&[("run.md", b"#!x  ", 0o100755)]);
    let config = whitespace_on("*.md");
    let entries = vec![entry("run.md", b"#!x  ", 0o100755, false)];
    let transformed = run_builtin_pipeline(&config, &entries, &staged).unwrap();
    let e = transformed.lookup(&"run.md".to_string()).unwrap();
    assert_eq!(e.mode, 0o100755);
    assert_eq!(e.content, b"#!x\n");
}

#[test]
fn binary_entries_keep_their_staged_content() {
    let blob: &[u8] = &[0u8, 1, 2, 255];
    let staged = tree(&[("data.md", blob, MODE)]);
    let config = whitespace_on("*.md");
    let entries = vec![entry("data.md", blob, MODE, true)];
    let transformed = run_builtin_pipeline(&config, &entries, &staged).unwrap();
    assert_eq!(content_at(&transformed, "data.md"), blob);
}

#[test]
fn untouched_paths_survive_the_rewrite() {
    let staged = tree(&[
        ("README.md", b"# hi  ", MODE),
        ("keep.txt", b"keep me   ", MODE),
    ]);
    let config = whitespace_on("*.md");
    let entries = vec![
        entry("README.md", b"# hi  ", MODE, false),
        entry("keep.txt", b"keep me   ", MODE, false),
    ];
    let transformed = run_builtin_pipeline(&config, &entries, &staged).unwrap();
    assert_eq!(content_at(&transformed, "README.md"), b"# hi\n");
    assert_eq!(content_at(&transformed, "keep.txt"), b"keep me   ");
}

#[test]
fn second_run_reproduces_the_transformed_tree() {
    let staged = tree(&[("README.md", b"# hi  \nmore ", MODE)]);
    let config = whitespace_on("*.md");
    let entries = vec![entry("README.md", b"# hi  \nmore ", MODE, false)];
    let t1 = run_builtin_pipeline(&config, &entries, &staged).unwrap();

    // The second run sees the transformed content staged.
    let c1 = content_at(&t1, "README.md");
    let entries2 = vec![entry("README.md", &c1, MODE, false)];
    let t2 = run_builtin_pipeline(&config, &entries2, &t1).unwrap();
    assert!(TreeModel::equal_trees(&t1, &t2));
}

#[test]
fn merge_adopts_formatting_where_the_working_copy_is_unchanged() {
    let anc = tree(&[("a.md", b"x  ", MODE), ("b.md", b"y", MODE)]);
    let ours = tree(&[("a.md", b"x  ", MODE), ("b.md", b"y", MODE)]);
    let theirs = tree(&[("a.md", b"x\n", MODE), ("b.md", b"y", MODE)]);
    let merged = TreeModel::merge_favor_ours(&anc, &ours, &theirs);
    assert_eq!(content_at(&merged, "a.md"), b"x\n");
    assert_eq!(content_at(&merged, "b.md"), b"y");
}

#[test]
fn merge_keeps_ours_on_conflict() {
    let anc = tree(&[("a.md", b"old", MODE)]);
    let ours = tree(&[("a.md", b"edited by author", MODE)]);
    let theirs = tree(&[("a.md", b"formatted\n", MODE)]);
    let merged = TreeModel::merge_favor_ours(&anc, &ours, &theirs);
    assert_eq!(content_at(&merged, "a.md"), b"edited by author");
}

#[test]
fn merge_takes_additions_from_either_side() {
    let anc = tree(&[]);
    let ours = tree(&[("mine.md", b"m", MODE)]);
    let theirs = tree(&[("new.md", b"n", MODE)]);
    let merged = TreeModel::merge_favor_ours(&anc, &ours, &theirs);
    assert_eq!(content_at(&merged, "mine.md"), b"m");
    assert_eq!(content_at(&merged, "new.md"), b"n");
}

#[test]
fn merge_respects_a_deletion_kept_by_the_other_side() {
    // Ours deleted a file the ancestor had; theirs kept it: the deletion
    // (ours differing from the ancestor) wins.
    let anc = tree(&[("gone.md", b"g", MODE)]);
    let ours = tree(&[]);
    let theirs = tree(&[("gone.md", b"g", MODE)]);
    let merged = TreeModel::merge_favor_ours(&anc, &ours, &theirs);
    assert!(merged.lookup(&"gone.md".to_string()).is_none());
}

#[test]
fn trees_compare_by_content_path_and_mode() {
    let a = tree(&[("x", b"1", MODE), ("y", b"2", MODE)]);
    let b = tree(&[("y", b"2", MODE), ("x", b"1", MODE)]);
    assert!(TreeModel::equal_trees(&a, &b));
    let c = tree(&[("x", b"1", MODE), ("y", b"2", 0o100755)]);
    assert!(!TreeModel::equal_trees(&a, &c));
    let d = tree(&[("x", b"1", MODE)]);
    assert!(!TreeModel::equal_trees(&a, &d));
}

#[test]
fn worktree_slice_overlays_disk_files_on_the_staged_tree() {
    let staged = tree(&[("a.md", b"staged", MODE), ("b.md", b"kept", MODE)]);
    let slice = staged.worktree_slice(&vec![DiskFile {
        path: "a.md".to_string(),
        content: b"on disk".to_vec(),
    }]);
    assert_eq!(content_at(&slice, "a.md"), b"on disk");
    assert_eq!(content_at(&slice, "b.md"), b"kept");
}

#[test]
fn a_tree_lists_each_of_its_paths_once() {
    let t = tree(&[("a.md", b"1", MODE), ("b/c.md", b"2", MODE)]);
    let mut paths = t.paths();
    paths.sort();
    assert_eq!(paths, vec!["a.md".to_string(), "b/c.md".to_string()]);
}

#[test]
fn empty_index_requires_identical_trees() {
    let a = tree(&[("x", b"1", MODE)]);
    let b = tree(&[("x", b"1", MODE)]);
    assert!(matches!(TreeModel::evaluate_outcome(&a, &b), Err(Error::EmptyIndex)));
    let c = tree(&[("x", b"2", MODE)]);
    assert!(TreeModel::evaluate_outcome(&a, &c).is_ok());
}
