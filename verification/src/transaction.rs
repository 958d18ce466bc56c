//! Planning what installing or removing an archive does to a directory.
//!
//! A transaction is a plan: an ordered list of filesystem effects, whose
//! paths are relative to the directory that the archive is applied to. It is
//! built in full before any effect is applied, and it is only built when
//! every entry's path is safe. Applying the plan is not this library's work.
//! Whoever applies it takes the effects in order and stops at the first that
//! fails, except that a directory that cannot be removed is left alone;
//! effects already applied are not undone.

use vstd::prelude::*;
use vstd::slice::{slice_subrange, slice_to_vec};
use crate::entry::Entry;
use crate::error::{EntryError, Error};
use crate::path::{escapes, is_safe, lemma_escaping_is_unsafe, reports_first_fault, SEPARATOR};

verus! {

/// One filesystem effect.
#[derive(Clone, Debug, PartialEq, Eq)]
pub enum Action {
    /// Create the directory at the path, unless it is there already.
    CreateDir(Vec<u8>),
    /// Create or replace the regular file at the path, with the data and the
    /// permission bits of the entry. The data is checked against the entry's
    /// size and digest while it is written.
    WriteFile(Vec<u8>, Entry),
    /// Remove the regular file at the path.
    RemoveFile(Vec<u8>),
    /// Remove the directory at the path if it is empty, and else leave it.
    RemoveDir(Vec<u8>),
}

/// An effect, with its path as a sequence of bytes.
pub enum ActionView {
    /// Create the directory at the path.
    CreateDir(Seq<u8>),
    /// Create or replace the file at the path from the entry.
    WriteFile(Seq<u8>, Entry),
    /// Remove the file at the path.
    RemoveFile(Seq<u8>),
    /// Remove the directory at the path if it is empty.
    RemoveDir(Seq<u8>),
}

impl View for Action {
    type V = ActionView;

    open spec fn view(&self) -> ActionView {
        match self {
            Action::CreateDir(path) => ActionView::CreateDir(path@),
            Action::WriteFile(path, entry) => ActionView::WriteFile(path@, *entry),
            Action::RemoveFile(path) => ActionView::RemoveFile(path@),
            Action::RemoveDir(path) => ActionView::RemoveDir(path@),
        }
    }
}

/// Whether `dir` is a directory above `path`: what stands in front of one of
/// its separators.
pub open spec fn is_parent_of(dir: Seq<u8>, path: Seq<u8>) -> bool {
    &&& dir.len() < path.len()
    &&& path[dir.len() as int] == SEPARATOR
    &&& dir == path.subrange(0, dir.len() as int)
}

/// The creation of the directories above `path` whose separator lies before
/// `upto`, the outermost first.
pub open spec fn create_dirs(path: Seq<u8>, upto: int) -> Seq<ActionView>
    decreases upto,
{
    if upto <= 0 {
        Seq::empty()
    } else if path[upto - 1] == SEPARATOR {
        create_dirs(path, upto - 1).push(ActionView::CreateDir(path.subrange(0, upto - 1)))
    } else {
        create_dirs(path, upto - 1)
    }
}

/// The removal of the directories above `path` whose separator lies at
/// `from` or after, the innermost first.
pub open spec fn remove_dirs(path: Seq<u8>, from: int) -> Seq<ActionView>
    decreases path.len() - from,
{
    if from >= path.len() {
        Seq::empty()
    } else if path[from] == SEPARATOR {
        remove_dirs(path, from + 1).push(ActionView::RemoveDir(path.subrange(0, from)))
    } else {
        remove_dirs(path, from + 1)
    }
}

/// What installing one entry takes: the directories above its path, the
/// outermost first, and then the file.
pub open spec fn install_steps(entry: Entry) -> Seq<ActionView> {
    create_dirs(entry.stored_path(), entry.stored_path().len() as int).push(
        ActionView::WriteFile(entry.stored_path(), entry),
    )
}

/// The plan that installs `entries`: the steps of each, in their order.
pub open spec fn install_plan(entries: Seq<Entry>) -> Seq<ActionView>
    decreases entries.len(),
{
    if entries.len() == 0 {
        Seq::empty()
    } else {
        install_plan(entries.drop_last()) + install_steps(entries.last())
    }
}

/// The removal of the files of `entries`, in their order.
pub open spec fn remove_files(entries: Seq<Entry>) -> Seq<ActionView>
    decreases entries.len(),
{
    if entries.len() == 0 {
        Seq::empty()
    } else {
        remove_files(entries.drop_last()).push(ActionView::RemoveFile(entries.last().stored_path()))
    }
}

/// The removal of the directories above the files of `entries`: for each
/// entry in turn the directories above its path, the innermost first.
pub open spec fn remove_parents(entries: Seq<Entry>) -> Seq<ActionView>
    decreases entries.len(),
{
    if entries.len() == 0 {
        Seq::empty()
    } else {
        remove_parents(entries.drop_last()) + remove_dirs(entries.last().stored_path(), 0)
    }
}

/// The plan that removes `entries`: first every file, then the directories
/// above them.
pub open spec fn remove_plan(entries: Seq<Entry>) -> Seq<ActionView> {
    remove_files(entries) + remove_parents(entries)
}

/// Whether every entry has a safe path.
pub open spec fn all_safe(entries: Seq<Entry>) -> bool {
    forall|i: int| 0 <= i < entries.len() ==> is_safe((#[trigger] entries[i]).stored_path())
}

/// Whether `error` is what the check of the first entry with an unsafe path
/// gives: that entry, with the report of the first faulty component of its
/// path.
pub open spec fn is_first_refusal(entries: Seq<Entry>, error: Error) -> bool {
    exists|i: int|
        {
            &&& 0 <= i < entries.len()
            &&& all_safe(entries.subrange(0, i))
            &&& !is_safe((#[trigger] entries[i]).stored_path())
            &&& error matches Error::Entry(entry, EntryError::InvalidPathComponent(component))
            &&& entry == entries[i]
            &&& reports_first_fault(entries[i].stored_path(), component@)
        }
}

/// Where one entry has a path with a component `..`, a leading separator or
/// an empty component, the check of its path fails, and there is no plan to
/// install or to remove the entries: [`Entry::check_path`] succeeds only on
/// a safe path, and [`Transaction::install`] and [`Transaction::remove`]
/// only where every path is safe.
pub proof fn lemma_escaping_path_is_refused(entries: Seq<Entry>, i: int)
    requires
        0 <= i < entries.len(),
        escapes(entries[i].stored_path()),
    ensures
        !is_safe(entries[i].stored_path()),
        !all_safe(entries),
{
    lemma_escaping_is_unsafe(entries[i].stored_path());
}

/// Creating the directories above a path creates each of them, and does
/// nothing else.
proof fn lemma_create_dirs(path: Seq<u8>, upto: int)
    requires
        0 <= upto <= path.len(),
    ensures
        forall|j: int|
            0 <= j < create_dirs(path, upto).len() ==> (#[trigger] create_dirs(path, upto)[j])
                is CreateDir,
        forall|dir: Seq<u8>|
            #![trigger is_parent_of(dir, path)]
            is_parent_of(dir, path) && dir.len() < upto ==> exists|j: int|
                0 <= j < create_dirs(path, upto).len() && #[trigger] create_dirs(path, upto)[j]
                    == ActionView::CreateDir(dir),
    decreases upto,
{
    if upto > 0 {
        lemma_create_dirs(path, upto - 1);
        let before = create_dirs(path, upto - 1);
        let now = create_dirs(path, upto);
        assert forall|dir: Seq<u8>|
            #![trigger is_parent_of(dir, path)]
            is_parent_of(dir, path) && dir.len() < upto implies exists|j: int|
            0 <= j < now.len() && #[trigger] now[j] == ActionView::CreateDir(dir) by {
            if dir.len() < upto - 1 {
                let j = choose|j: int|
                    0 <= j < before.len() && #[trigger] before[j] == ActionView::CreateDir(dir);
                assert(now[j] == ActionView::CreateDir(dir));
            } else {
                assert(now[now.len() - 1] == ActionView::CreateDir(dir));
            }
        }
    }
}

/// In a plan of installation, each file is written after every directory
/// above it has been created.
pub proof fn lemma_install_creates_parents_first(entries: Seq<Entry>, k: int, dir: Seq<u8>)
    requires
        0 <= k < install_plan(entries).len(),
        install_plan(entries)[k] matches ActionView::WriteFile(path, _) && is_parent_of(dir, path),
    ensures
        exists|j: int|
            0 <= j < k && #[trigger] install_plan(entries)[j] == ActionView::CreateDir(dir),
    decreases entries.len(),
{
    let plan = install_plan(entries);
    let front = install_plan(entries.drop_last());
    let path = entries.last().stored_path();
    let dirs = create_dirs(path, path.len() as int);
    if k < front.len() {
        assert(plan[k] == front[k]);
        lemma_install_creates_parents_first(entries.drop_last(), k, dir);
        let j = choose|j: int| 0 <= j < k && #[trigger] front[j] == ActionView::CreateDir(dir);
        assert(plan[j] == ActionView::CreateDir(dir));
    } else {
        lemma_create_dirs(path, path.len() as int);
        let at = k - front.len();
        assert(plan[k] == install_steps(entries.last())[at]);
        if at < dirs.len() {
            assert(install_steps(entries.last())[at] == dirs[at]);
        }
        let j = choose|j: int|
            0 <= j < dirs.len() && #[trigger] dirs[j] == ActionView::CreateDir(dir);
        assert(plan[front.len() + j] == ActionView::CreateDir(dir));
    }
}

/// The plan that installs the entries at the front of a list is the front
/// of the plan that installs all.
proof fn lemma_install_plan_front(entries: Seq<Entry>, i: int)
    requires
        0 <= i <= entries.len(),
    ensures
        install_plan(entries.subrange(0, i)).len() <= install_plan(entries).len(),
        forall|k: int|
            0 <= k < install_plan(entries.subrange(0, i)).len() ==> #[trigger] install_plan(
                entries,
            )[k] == install_plan(entries.subrange(0, i))[k],
    decreases entries.len(),
{
    if i == entries.len() {
        assert(entries.subrange(0, i) =~= entries);
    } else {
        lemma_install_plan_front(entries.drop_last(), i);
        assert(entries.drop_last().subrange(0, i) =~= entries.subrange(0, i));
    }
}

/// A plan of installation writes the file of every entry, with the entry's
/// path, data and mode, and the files in the order of the entries: the file
/// of the entry at index `i` is the last step of the plan for the entries up
/// to it, and the index returned.
pub proof fn lemma_install_writes_each_entry(entries: Seq<Entry>, i: int) -> (k: int)
    requires
        0 <= i < entries.len(),
    ensures
        0 <= k < install_plan(entries).len(),
        k == install_plan(entries.subrange(0, i + 1)).len() - 1,
        install_plan(entries)[k] == ActionView::WriteFile(entries[i].stored_path(), entries[i]),
{
    let upto = entries.subrange(0, i + 1);
    lemma_install_plan_front(entries, i + 1);
    let k = install_plan(upto).len() - 1;
    assert(upto.last() == entries[i]);
    assert(install_plan(upto)[k] == install_steps(entries[i]).last());
    k
}

/// A plan of installation writes no other files than those of the entries:
/// each file that it writes is the file of the entry at the index returned.
pub proof fn lemma_install_writes_only_entries(entries: Seq<Entry>, k: int) -> (i: int)
    requires
        0 <= k < install_plan(entries).len(),
        install_plan(entries)[k] is WriteFile,
    ensures
        0 <= i < entries.len(),
        install_plan(entries)[k] == ActionView::WriteFile(entries[i].stored_path(), entries[i]),
    decreases entries.len(),
{
    let front = install_plan(entries.drop_last());
    if k < front.len() {
        assert(install_plan(entries)[k] == front[k]);
        lemma_install_writes_only_entries(entries.drop_last(), k)
    } else {
        let path = entries.last().stored_path();
        let dirs = create_dirs(path, path.len() as int);
        lemma_create_dirs(path, path.len() as int);
        let at = k - front.len();
        assert(install_plan(entries)[k] == install_steps(entries.last())[at]);
        if at < dirs.len() {
            assert(install_steps(entries.last())[at] == dirs[at]);
        }
        entries.len() - 1
    }
}

/// A plan of removal removes the file of every entry, the file of the entry
/// at index `i` as its step `i`.
pub proof fn lemma_remove_removes_each_file(entries: Seq<Entry>, i: int)
    requires
        0 <= i < entries.len(),
    ensures
        i < remove_plan(entries).len(),
        remove_plan(entries)[i] == ActionView::RemoveFile(entries[i].stored_path()),
    decreases entries.len(),
{
    lemma_remove_parts(entries);
    if i < entries.len() - 1 {
        lemma_remove_removes_each_file(entries.drop_last(), i);
        lemma_remove_parts(entries.drop_last());
        assert(remove_files(entries)[i] == remove_files(entries.drop_last())[i]);
    }
    assert(remove_plan(entries)[i] == remove_files(entries)[i]);
}

/// The removal of the directories whose separator lies at `inner` or after
/// is the front of the removal of those whose separator lies at `from` or
/// after, for `from` before `inner`.
proof fn lemma_remove_dirs_front(path: Seq<u8>, from: int, inner: int)
    requires
        0 <= from <= inner <= path.len(),
    ensures
        remove_dirs(path, inner).len() <= remove_dirs(path, from).len(),
        forall|j: int|
            0 <= j < remove_dirs(path, inner).len() ==> #[trigger] remove_dirs(path, from)[j]
                == remove_dirs(path, inner)[j],
    decreases inner - from,
{
    if from < inner {
        lemma_remove_dirs_front(path, from + 1, inner);
    }
}

/// Which directory the removal at index `k` removes: the one in front of
/// the separator at the index returned, and `k` counts the separators behind
/// that one.
proof fn lemma_remove_dirs_at(path: Seq<u8>, from: int, k: int) -> (at: int)
    requires
        0 <= from <= path.len(),
        0 <= k < remove_dirs(path, from).len(),
    ensures
        from <= at < path.len(),
        path[at] == SEPARATOR,
        k == remove_dirs(path, at + 1).len(),
        remove_dirs(path, from)[k] == ActionView::RemoveDir(path.subrange(0, at)),
    decreases path.len() - from,
{
    let rest = remove_dirs(path, from + 1);
    if k < rest.len() {
        lemma_remove_dirs_at(path, from + 1, k)
    } else {
        from
    }
}

/// Among the removals of the directories above `path`, the directory `dir`
/// at index `k` is followed by the directory `parent` above it.
proof fn lemma_remove_dirs(path: Seq<u8>, k: int, dir: Seq<u8>, parent: Seq<u8>) -> (j: int)
    requires
        0 <= k < remove_dirs(path, 0).len(),
        remove_dirs(path, 0)[k] == ActionView::RemoveDir(dir),
        is_parent_of(parent, dir),
    ensures
        k < j < remove_dirs(path, 0).len(),
        remove_dirs(path, 0)[j] == ActionView::RemoveDir(parent),
{
    let at = lemma_remove_dirs_at(path, 0, k);
    let m = parent.len() as int;
    assert(dir == path.subrange(0, at));
    assert(path[m] == dir[m]);
    assert(parent =~= path.subrange(0, m));
    let j = remove_dirs(path, m + 1).len() as int;
    lemma_remove_dirs_front(path, m + 1, at);
    lemma_remove_dirs_front(path, 0, m);
    assert(remove_dirs(path, m)[j] == ActionView::RemoveDir(path.subrange(0, m)));
    j
}

/// The removal of the directories above a path removes directories only.
proof fn lemma_remove_dirs_only(path: Seq<u8>, from: int)
    requires
        0 <= from <= path.len(),
    ensures
        forall|k: int|
            0 <= k < remove_dirs(path, from).len() ==> (#[trigger] remove_dirs(path, from)[k])
                is RemoveDir,
    decreases path.len() - from,
{
    if from < path.len() {
        lemma_remove_dirs_only(path, from + 1);
    }
}

/// The removal of files removes one file for each entry, and the removal
/// of directories removes directories only.
proof fn lemma_remove_parts(entries: Seq<Entry>)
    ensures
        remove_files(entries).len() == entries.len(),
        forall|k: int|
            0 <= k < remove_files(entries).len() ==> (#[trigger] remove_files(entries)[k])
                is RemoveFile,
        forall|k: int|
            0 <= k < remove_parents(entries).len() ==> (#[trigger] remove_parents(entries)[k])
                is RemoveDir,
    decreases entries.len(),
{
    if entries.len() > 0 {
        lemma_remove_parts(entries.drop_last());
        let path = entries.last().stored_path();
        lemma_remove_dirs_only(path, 0);
        let front = remove_parents(entries.drop_last());
        let dirs = remove_dirs(path, 0);
        assert forall|k: int| 0 <= k < remove_parents(entries).len() implies (
        #[trigger] remove_parents(entries)[k]) is RemoveDir by {
            if k < front.len() {
                assert(remove_parents(entries)[k] == front[k]);
            } else {
                assert(remove_parents(entries)[k] == dirs[k - front.len()]);
            }
        }
    }
}

/// In a plan of removal, every file is removed before any directory is.
pub proof fn lemma_remove_takes_files_first(entries: Seq<Entry>, j: int, k: int)
    requires
        0 <= j < remove_plan(entries).len(),
        0 <= k < remove_plan(entries).len(),
        remove_plan(entries)[j] is RemoveFile,
        remove_plan(entries)[k] is RemoveDir,
    ensures
        j < k,
{
    lemma_remove_parts(entries);
    let files = remove_files(entries);
    let dirs = remove_parents(entries);
    if j >= files.len() {
        assert(remove_plan(entries)[j] == dirs[j - files.len()]);
    }
    if k < files.len() {
        assert(remove_plan(entries)[k] == files[k]);
    }
}

/// After a directory is removed among the directories above the files of
/// `entries`, every directory above it is removed.
proof fn lemma_remove_parents(entries: Seq<Entry>, k: int, dir: Seq<u8>, parent: Seq<u8>)
    requires
        0 <= k < remove_parents(entries).len(),
        remove_parents(entries)[k] == ActionView::RemoveDir(dir),
        is_parent_of(parent, dir),
    ensures
        exists|j: int|
            k < j < remove_parents(entries).len() && #[trigger] remove_parents(entries)[j]
                == ActionView::RemoveDir(parent),
    decreases entries.len(),
{
    let all = remove_parents(entries);
    let front = remove_parents(entries.drop_last());
    let path = entries.last().stored_path();
    let dirs = remove_dirs(path, 0);
    if k < front.len() {
        assert(all[k] == front[k]);
        lemma_remove_parents(entries.drop_last(), k, dir, parent);
        let j = choose|j: int|
            k < j < front.len() && #[trigger] front[j] == ActionView::RemoveDir(parent);
        assert(all[j] == front[j]);
    } else {
        let at = k - front.len();
        assert(all[k] == dirs[at]);
        let j = lemma_remove_dirs(path, at, dir, parent);
        assert(all[front.len() + j] == dirs[j]);
    }
}

/// In a plan of removal, after a directory is removed every directory above
/// it is removed, so that each directory is tried once more when the
/// directories in it are gone.
pub proof fn lemma_remove_takes_children_first(
    entries: Seq<Entry>,
    k: int,
    dir: Seq<u8>,
    parent: Seq<u8>,
)
    requires
        0 <= k < remove_plan(entries).len(),
        remove_plan(entries)[k] == ActionView::RemoveDir(dir),
        is_parent_of(parent, dir),
    ensures
        exists|j: int|
            k < j < remove_plan(entries).len() && #[trigger] remove_plan(entries)[j]
                == ActionView::RemoveDir(parent),
{
    lemma_remove_parts(entries);
    let files = remove_files(entries);
    let dirs = remove_parents(entries);
    if k < files.len() {
        assert(remove_plan(entries)[k] == files[k]);
    }
    let at = k - files.len();
    assert(remove_plan(entries)[k] == dirs[at]);
    lemma_remove_parents(entries, at, dir, parent);
    let j = choose|j: int|
        at < j < dirs.len() && #[trigger] dirs[j] == ActionView::RemoveDir(parent);
    assert(remove_plan(entries)[files.len() + j] == dirs[j]);
}

/// Checks the path of every entry, in order, and returns the paths. Fails on
/// the first entry whose path is not safe, with what [`Entry::check_path`]
/// gives for it.
pub fn check_paths(entries: &[Entry]) -> (checked: Result<Vec<Vec<u8>>, Error>)
    ensures
        checked is Ok <==> all_safe(entries@),
        checked matches Ok(paths) ==> {
            &&& paths@.len() == entries@.len()
            &&& forall|i: int|
                0 <= i < paths@.len() ==> (#[trigger] paths@[i])@ == entries@[i].stored_path()
        },
        checked matches Err(error) ==> is_first_refusal(entries@, error),
{
    let count = entries.len();
    let mut paths: Vec<Vec<u8>> = Vec::with_capacity(count);
    let mut i: usize = 0;
    while i < count
        invariant
            i <= count,
            count == entries@.len(),
            paths@.len() == i,
            all_safe(entries@.subrange(0, i as int)),
            forall|k: int| 0 <= k < i ==> (#[trigger] paths@[k])@ == entries@[k].stored_path(),
        decreases count - i,
    {
        match entries[i].check_path() {
            Ok(path) => {
                paths.push(slice_to_vec(path));
            },
            Err(error) => {
                assert(is_first_refusal(entries@, error));
                assert(!all_safe(entries@));
                return Err(error);
            },
        }
        proof {
            assert forall|k: int| 0 <= k < i + 1 implies is_safe(
                (#[trigger] entries@.subrange(0, i + 1)[k]).stored_path(),
            ) by {
                if k < i {
                    assert(entries@.subrange(0, i as int)[k] == entries@[k]);
                }
            }
        }
        i += 1;
    }
    assert(entries@.subrange(0, count as int) =~= entries@);
    Ok(paths)
}

/// A plan of filesystem effects, to be applied once.
pub struct Transaction {
    actions: Vec<Action>,
}

impl View for Transaction {
    type V = Seq<ActionView>;

    closed spec fn view(&self) -> Seq<ActionView> {
        Seq::new(self.actions@.len(), |i: int| self.actions@[i]@)
    }
}

impl Transaction {
    /// Plans the installation of `entries`: for each entry in turn, create
    /// the directories above its path, the outermost first, and then create
    /// or replace its file. Every path is checked before anything is
    /// planned: where one is not safe there is no plan, and the failure is
    /// what [`check_paths`] gives.
    pub fn install(entries: &[Entry]) -> (planned: Result<Transaction, Error>)
        ensures
            planned is Ok <==> all_safe(entries@),
            planned matches Ok(transaction) ==> transaction@ == install_plan(entries@),
            planned matches Err(error) ==> is_first_refusal(entries@, error),
    {
        let paths = check_paths(entries)?;
        let count = entries.len();
        let mut actions: Vec<Action> = Vec::new();
        let mut i: usize = 0;
        while i < count
            invariant
                i <= count,
                count == entries@.len(),
                paths@.len() == count,
                forall|k: int|
                    0 <= k < count ==> (#[trigger] paths@[k])@ == entries@[k].stored_path(),
                Seq::new(actions@.len(), |k: int| actions@[k]@) == install_plan(
                    entries@.subrange(0, i as int),
                ),
            decreases count - i,
        {
            let path = paths[i].as_slice();
            let len = path.len();
            let ghost planned = Seq::new(actions@.len(), |k: int| actions@[k]@);
            let mut end: usize = 0;
            while end < len
                invariant
                    end <= len,
                    len == path@.len(),
                    Seq::new(actions@.len(), |k: int| actions@[k]@) == planned + create_dirs(
                        path@,
                        end as int,
                    ),
                decreases len - end,
            {
                let ghost before = Seq::new(actions@.len(), |k: int| actions@[k]@);
                if path[end] == SEPARATOR {
                    actions.push(Action::CreateDir(slice_to_vec(slice_subrange(path, 0, end))));
                    assert(Seq::new(actions@.len(), |k: int| actions@[k]@) =~= before.push(
                        ActionView::CreateDir(path@.subrange(0, end as int)),
                    ));
                }
                end += 1;
                assert(Seq::new(actions@.len(), |k: int| actions@[k]@) =~= planned + create_dirs(
                    path@,
                    end as int,
                ));
            }
            let ghost before = Seq::new(actions@.len(), |k: int| actions@[k]@);
            actions.push(Action::WriteFile(slice_to_vec(path), entries[i]));
            proof {
                let done = entries@.subrange(0, i + 1);
                assert(done.drop_last() =~= entries@.subrange(0, i as int));
                assert(done.last() == entries@[i as int]);
                assert(path@ == paths@[i as int]@);
                assert(Seq::new(actions@.len(), |k: int| actions@[k]@) =~= before.push(
                    ActionView::WriteFile(path@, entries@[i as int]),
                ));
                assert(before.push(ActionView::WriteFile(path@, entries@[i as int])) =~= planned
                    + install_steps(entries@[i as int]));
            }
            i += 1;
        }
        assert(entries@.subrange(0, count as int) =~= entries@);
        Ok(Transaction { actions })
    }

    /// Plans the removal of `entries`: remove the file of each entry, in
    /// their order, and then, for each entry in turn, the directories above
    /// its path, the innermost first. Every path is checked before anything
    /// is planned, as for [`Self::install`].
    pub fn remove(entries: &[Entry]) -> (planned: Result<Transaction, Error>)
        ensures
            planned is Ok <==> all_safe(entries@),
            planned matches Ok(transaction) ==> transaction@ == remove_plan(entries@),
            planned matches Err(error) ==> is_first_refusal(entries@, error),
    {
        let paths = check_paths(entries)?;
        let count = entries.len();
        let mut actions: Vec<Action> = Vec::new();
        let mut i: usize = 0;
        while i < count
            invariant
                i <= count,
                count == entries@.len(),
                paths@.len() == count,
                forall|k: int|
                    0 <= k < count ==> (#[trigger] paths@[k])@ == entries@[k].stored_path(),
                Seq::new(actions@.len(), |k: int| actions@[k]@) == remove_files(
                    entries@.subrange(0, i as int),
                ),
            decreases count - i,
        {
            let ghost before = Seq::new(actions@.len(), |k: int| actions@[k]@);
            actions.push(Action::RemoveFile(slice_to_vec(paths[i].as_slice())));
            proof {
                let done = entries@.subrange(0, i + 1);
                assert(done.drop_last() =~= entries@.subrange(0, i as int));
                assert(done.last() == entries@[i as int]);
                assert(Seq::new(actions@.len(), |k: int| actions@[k]@) =~= before.push(
                    ActionView::RemoveFile(entries@[i as int].stored_path()),
                ));
            }
            i += 1;
        }
        assert(entries@.subrange(0, count as int) =~= entries@);
        let ghost files = remove_files(entries@);
        let mut i: usize = 0;
        while i < count
            invariant
                i <= count,
                count == entries@.len(),
                paths@.len() == count,
                forall|k: int|
                    0 <= k < count ==> (#[trigger] paths@[k])@ == entries@[k].stored_path(),
                Seq::new(actions@.len(), |k: int| actions@[k]@) == files + remove_parents(
                    entries@.subrange(0, i as int),
                ),
            decreases count - i,
        {
            let path = paths[i].as_slice();
            let len = path.len();
            let ghost planned = Seq::new(actions@.len(), |k: int| actions@[k]@);
            let mut from: usize = len;
            while from > 0
                invariant
                    from <= len,
                    len == path@.len(),
                    Seq::new(actions@.len(), |k: int| actions@[k]@) == planned + remove_dirs(
                        path@,
                        from as int,
                    ),
                decreases from,
            {
                let ghost before = Seq::new(actions@.len(), |k: int| actions@[k]@);
                from -= 1;
                if path[from] == SEPARATOR {
                    actions.push(Action::RemoveDir(slice_to_vec(slice_subrange(path, 0, from))));
                    assert(Seq::new(actions@.len(), |k: int| actions@[k]@) =~= before.push(
                        ActionView::RemoveDir(path@.subrange(0, from as int)),
                    ));
                }
                assert(Seq::new(actions@.len(), |k: int| actions@[k]@) =~= planned + remove_dirs(
                    path@,
                    from as int,
                ));
            }
            proof {
                let done = entries@.subrange(0, i + 1);
                assert(done.drop_last() =~= entries@.subrange(0, i as int));
                assert(done.last() == entries@[i as int]);
                assert(Seq::new(actions@.len(), |k: int| actions@[k]@) =~= files + remove_parents(
                    done,
                ));
            }
            i += 1;
        }
        assert(entries@.subrange(0, count as int) =~= entries@);
        Ok(Transaction { actions })
    }

    /// The effects, in the order in which they are to be applied.
    pub fn actions(&self) -> (actions: &Vec<Action>)
        ensures
            actions@.len() == self@.len(),
            forall|i: int| 0 <= i < actions@.len() ==> (#[trigger] actions@[i])@ == self@[i],
    {
        &self.actions
    }

    /// Ends the planning and hands out the effects, in the order in which
    /// they are to be applied.
    pub fn commit(self) -> (actions: Vec<Action>)
        ensures
            actions@.len() == self@.len(),
            forall|i: int| 0 <= i < actions@.len() ==> (#[trigger] actions@[i])@ == self@[i],
    {
        self.actions
    }
}

} // verus!
