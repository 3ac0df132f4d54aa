//! The commands about branches.

use vstd::prelude::*;

use crate::helpers::{is_ref_name_legal, legal_ref_name, timestamped};
use crate::moments::Timestamp;
use crate::ref_log::{log_line, LogAppend, LogView};
use crate::repo::commits::descends;
use crate::repo::model::{current_commit_id, head_branch, head_valid, local_branch, RepoView};
use crate::repo::worktree::ref_log_appends;
use crate::repo::{RepoError, Repository};
use crate::stores::backends::{ObjectStore, RefStore};
use crate::stores::{
    branch_label, parse_target, ref_text, target_text, BranchLocation, BranchSpec, BranchView,
    LocationView, RefSpec, RefTarget, RefView, TargetView,
};
use crate::text::{concat_texts, is_listed, split_on, texts};

verus! {

broadcast use vstd::string::group_string_axioms;

/// How the name of a branch is printed.
#[derive(Clone, Copy, Debug, PartialEq, Eq, Structural)]
pub enum BranchStyle {
    /// It is the current branch.
    Current,
    /// It is a branch of a remote.
    Remote,
    /// It is another local branch.
    Plain,
}

/// A line in a list of branches.
#[derive(Debug)]
pub struct BranchLine {
    /// What comes before the name.
    pub mark: String,
    /// The name.
    pub name: String,
    /// How the name is printed.
    pub style: BranchStyle,
}

/// What a line is.
pub struct LineView {
    /// What comes before the name.
    pub mark: Seq<char>,
    /// The name.
    pub name: Seq<char>,
    /// How the name is printed.
    pub style: BranchStyle,
}

impl View for BranchLine {
    type V = LineView;

    open spec fn view(&self) -> LineView {
        LineView { mark: self.mark@, name: self.name@, style: self.style }
    }
}

/// The line for a branch.
pub open spec fn line_for(b: BranchView, current: Option<BranchView>) -> LineView {
    let is_current = current == Some(b);
    LineView {
        mark: if is_current {
            "* "@
        } else {
            "  "@
        },
        name: branch_label(b),
        style: if is_current {
            BranchStyle::Current
        } else if b.location is Remote {
            BranchStyle::Remote
        } else {
            BranchStyle::Plain
        },
    }
}

/// The lines for branches, or for the local ones among them.
pub open spec fn lines_for(
    branches: Seq<BranchSpec>,
    current: Option<BranchView>,
    list_all: bool,
) -> Seq<LineView>
    decreases branches.len(),
{
    if branches.len() == 0 {
        Seq::empty()
    } else {
        let before = lines_for(branches.drop_last(), current, list_all);
        let b = branches.last()@;
        if list_all || b.location is Local {
            before.push(line_for(b, current))
        } else {
            before
        }
    }
}

/// What lines are.
pub open spec fn line_views(s: Seq<BranchLine>) -> Seq<LineView> {
    s.map_values(|l: BranchLine| l@)
}

/// The lines for branches, or for the local ones among them.
pub fn list_branches(branches: &[BranchSpec], current: Option<&BranchSpec>, list_all: bool) -> (r:
    Vec<BranchLine>)
    ensures
        line_views(r@) == lines_for(
            branches@,
            match current {
                Some(b) => Some(b@),
                None => None,
            },
            list_all,
        ),
{
    let ghost now = match current {
        Some(b) => Some(b@),
        None => None,
    };
    let mut out: Vec<BranchLine> = Vec::new();
    let mut i: usize = 0;
    assert(branches@.take(0) =~= Seq::empty());
    assert(line_views(out@) =~= Seq::empty());
    while i < branches.len()
        invariant
            i <= branches@.len(),
            now == match current {
                Some(b) => Some(b@),
                None => None,
            },
            line_views(out@) == lines_for(branches@.take(i as int), now, list_all),
        decreases branches@.len() - i,
    {
        let ghost before = line_views(out@);
        assert(branches@.take(i + 1).drop_last() =~= branches@.take(i as int));
        assert(branches@.take(i + 1).last() == branches@[i as int]);
        let is_local = match &branches[i].location {
            BranchLocation::Local => true,
            BranchLocation::Remote(_) => false,
        };
        if list_all || is_local {
            let is_current = match current {
                Some(b) => b.same_branch(&branches[i]),
                None => false,
            };
            let line = BranchLine {
                mark: if is_current {
                    "* ".to_string()
                } else {
                    "  ".to_string()
                },
                name: branches[i].distinguished_name(),
                style: if is_current {
                    BranchStyle::Current
                } else if !is_local {
                    BranchStyle::Remote
                } else {
                    BranchStyle::Plain
                },
            };
            assert(line@ == line_for(branches@[i as int]@, now));
            out.push(line);
            assert(line_views(out@) =~= before.push(line@));
        }
        i = i + 1;
    }
    assert(branches@.take(i as int) =~= branches@);
    out
}

/// The names that no branch can have.
pub open spec fn reserved_names() -> Seq<Seq<char>> {
    seq![
        "HEAD"@,
        "FETCH_HEAD"@,
        "ORIG_HEAD"@,
        "MERGE_HEAD"@,
        "REBASE_HEAD"@,
        "REVERT_HEAD"@,
        "CHERRY_PICK_HEAD"@,
        "BISECT_HEAD"@,
        "AUTO_MERGE"@,
    ]
}

/// Whether no branch can have a name.
pub fn is_reserved(name: &str) -> (r: bool)
    ensures
        r == reserved_names().contains(name@),
{
    let mut names: Vec<String> = Vec::new();
    names.push("HEAD".to_string());
    names.push("FETCH_HEAD".to_string());
    names.push("ORIG_HEAD".to_string());
    names.push("MERGE_HEAD".to_string());
    names.push("REBASE_HEAD".to_string());
    names.push("REVERT_HEAD".to_string());
    names.push("CHERRY_PICK_HEAD".to_string());
    names.push("BISECT_HEAD".to_string());
    names.push("AUTO_MERGE".to_string());
    assert(texts(names@) =~= reserved_names());
    is_listed(names.as_slice(), name)
}

/// Why a branch cannot be made.
#[derive(Debug)]
pub enum NewBranchError {
    /// The name is not one that a reference can have.
    IllegalName,
    /// The name is one that no branch can have.
    Reserved,
    /// There is such a branch already.
    Exists,
    /// The repository could not be read or written.
    Repo(RepoError),
}

/// A line of a ref log about a change of a reference at a moment.
pub open spec fn change_line(
    old_id: Option<Seq<char>>,
    new_id: Seq<char>,
    committer: Seq<char>,
    message: Seq<char>,
    moment: Timestamp,
) -> Seq<char> {
    log_line(
        LogView {
            old_object_id: old_id,
            new_object_id: new_id,
            committer: timestamped(committer, moment.spec_secs(), moment.spec_offset()),
            message,
        },
    ).push('\n')
}

/// Whether what is added to ref logs are the lines for a change: to that of a reference, and to
/// that of `HEAD` before it where it is asked for.
pub open spec fn logs_change(
    appends: Seq<LogAppend>,
    line: Seq<char>,
    reference: RefView,
    also_head: bool,
) -> bool {
    &&& appends.len() == if also_head {
        2int
    } else {
        1
    }
    &&& also_head ==> texts(appends[0].path@) == seq!["HEAD"@]
    &&& texts(appends.last().path@) == split_on(ref_text(reference), '/')
    &&& forall|i: int| 0 <= i < appends.len() ==> (#[trigger] appends[i]).line@ == line
}

impl<L: ObjectStore, P: ObjectStore, R: RefStore> Repository<L, P, R> {
    /// Makes a branch that leads to the current commit, if there is one, and makes it the
    /// current branch if asked to; gives what to add to the ref logs.
    pub fn new_branch(
        &mut self,
        branch_name: &str,
        checkout: bool,
        committer: &str,
        moment: &Timestamp,
    ) -> (r: Result<Vec<LogAppend>, NewBranchError>)
        ensures
            ({
                let repo = old(self)@;
                let branch = local_branch(branch_name@);
                match r {
                    Err(NewBranchError::IllegalName) => !legal_ref_name(branch_name@)
                        && *final(self) == *old(self),
                    Err(NewBranchError::Reserved) => legal_ref_name(branch_name@)
                        && reserved_names().contains(branch_name@) && *final(self) == *old(self),
                    Err(NewBranchError::Exists) => legal_ref_name(branch_name@)
                        && !reserved_names().contains(branch_name@) && repo.refs.contains_key(
                        branch,
                    ) && *final(self) == *old(self),
                    Err(NewBranchError::Repo(RepoError::Name(_))) => {
                        &&& legal_ref_name(branch_name@)
                        &&& !reserved_names().contains(branch_name@)
                        &&& !repo.refs.contains_key(branch)
                        &&& *final(self) == *old(self)
                        &&& !head_valid(repo) || (current_commit_id(repo) matches Some(id)
                            && parse_target(id) is None)
                    },
                    Err(NewBranchError::Repo(RepoError::Store(_))) => {
                        &&& legal_ref_name(branch_name@)
                        &&& !reserved_names().contains(branch_name@)
                        &&& {
                            ||| !old(self).reliable() && *final(self) == *old(self)
                            ||| !old(self).ref_store.accepts_writes() && !repo.refs.contains_key(
                                branch,
                            ) && head_valid(repo) && (current_commit_id(repo) matches Some(id)
                                && parse_target(id) is Some)
                        }
                    },
                    Err(NewBranchError::Repo(_)) => false,
                    Ok(appends) => {
                        &&& legal_ref_name(branch_name@)
                        &&& !reserved_names().contains(branch_name@)
                        &&& !repo.refs.contains_key(branch)
                        &&& head_valid(repo)
                        &&& final(self)@.objects == repo.objects
                        &&& final(self)@.head == if checkout {
                            Some("ref: refs/heads/"@ + branch_name@ + "\n"@)
                        } else {
                            repo.head
                        }
                        &&& match current_commit_id(repo) {
                            Some(id) => {
                                &&& parse_target(id) is Some
                                &&& final(self)@.refs == repo.refs.insert(
                                    branch,
                                    parse_target(id)->0,
                                )
                                &&& logs_change(
                                    appends@,
                                    change_line(
                                        None,
                                        id,
                                        committer@,
                                        "branch: Created from HEAD"@,
                                        *moment,
                                    ),
                                    branch,
                                    true,
                                )
                            },
                            None => final(self)@.refs == repo.refs && appends@.len() == 0,
                        }
                    },
                }
            }),
    {
        if !is_ref_name_legal(branch_name) {
            return Err(NewBranchError::IllegalName);
        }
        if is_reserved(branch_name) {
            return Err(NewBranchError::Reserved);
        }
        match self.is_branch_name(branch_name) {
            Err(e) => {
                return Err(NewBranchError::Repo(RepoError::Store(e)));
            },
            Ok(true) => {
                return Err(NewBranchError::Exists);
            },
            Ok(false) => {},
        }
        let mut appends: Vec<LogAppend> = Vec::new();
        match self.current_commit() {
            Err(e) => {
                return Err(NewBranchError::Repo(e));
            },
            Ok(None) => {},
            Ok(Some(commit)) => {
                match self.update_local_branch(branch_name, commit.as_str()) {
                    Err(e) => {
                        return Err(NewBranchError::Repo(e));
                    },
                    Ok(_) => {},
                }
                appends = ref_log_appends(
                    None,
                    commit.as_str(),
                    committer,
                    "branch: Created from HEAD",
                    &BranchSpec::local(branch_name).into_ref_spec(),
                    true,
                    moment,
                );
            },
        }
        if checkout {
            self.update_head(branch_name);
        }
        Ok(appends)
    }

    /// Makes `HEAD` follow a checkout of a commit: a branch of the name that was asked for
    /// becomes the current one, and is made where only remotes have it; otherwise `HEAD` holds
    /// the commit.  Gives whether that is so, and what to add to the ref logs.
    pub fn finish_checkout(
        &mut self,
        target_name: &str,
        target_id: &str,
        committer: &str,
        moment: &Timestamp,
    ) -> (r: Result<(bool, Vec<LogAppend>), RepoError>)
        ensures
            ({
                let repo = old(self)@;
                let name = target_name@;
                match r {
                    Ok((detached, appends)) => {
                        let from = match head_branch(repo) {
                            Ok(Some(b)) => b.name,
                            _ => match current_commit_id(repo) {
                                Some(id) => id,
                                None => "00000000000000000000"@,
                            },
                        };
                        &&& final(self)@.objects == repo.objects
                        &&& logs_change(
                            appends@,
                            change_line(
                                current_commit_id(repo),
                                target_id@,
                                committer@,
                                "checkout: moving from "@ + from + " to "@ + target_id@,
                                *moment,
                            ),
                            RefView::Head,
                            false,
                        )
                        &&& if repo.refs.contains_key(local_branch(name)) {
                            &&& !detached
                            &&& final(self)@.refs == repo.refs
                            &&& final(self)@.head == Some("ref: refs/heads/"@ + name + "\n"@)
                        } else if some_remote_has(repo, name) {
                            &&& !detached
                            &&& parse_target(target_id@) is Some
                            &&& final(self)@.refs == repo.refs.insert(
                                local_branch(name),
                                parse_target(target_id@)->0,
                            )
                            &&& final(self)@.head == Some("ref: refs/heads/"@ + name + "\n"@)
                        } else {
                            &&& detached
                            &&& final(self)@.refs == repo.refs
                            &&& final(self)@.head == Some(target_id@ + "\n"@)
                        }
                    },
                    Err(RepoError::Store(_)) => {
                        ||| !old(self).reliable() && *final(self) == *old(self)
                        ||| {
                            &&& !old(self).ref_store.accepts_writes()
                            &&& head_branch(repo) is Ok
                            &&& head_valid(repo)
                            &&& !repo.refs.contains_key(local_branch(name))
                            &&& some_remote_has(repo, name)
                            &&& parse_target(target_id@) is Some
                        }
                    },
                    Err(RepoError::MissingHead) => head_branch(repo) == Err::<
                        Option<BranchView>,
                        bool,
                    >(false) && *final(self) == *old(self),
                    Err(RepoError::Name(_)) => *final(self) == *old(self) && {
                        ||| head_branch(repo) == Err::<Option<BranchView>, bool>(true)
                        ||| head_branch(repo) is Ok && !head_valid(repo)
                        ||| {
                            &&& head_branch(repo) is Ok
                            &&& head_valid(repo)
                            &&& !repo.refs.contains_key(local_branch(name))
                            &&& some_remote_has(repo, name)
                            &&& parse_target(target_id@) is None
                        }
                    },
                    Err(_) => false,
                }
            }),
    {
        let prev_branch = match self.current_branch() {
            Err(e) => {
                return Err(e);
            },
            Ok(b) => b,
        };
        let prev_commit = match self.current_commit() {
            Err(e) => {
                return Err(e);
            },
            Ok(c) => c,
        };
        let ghost before = self@;
        let mut detached = false;
        match self.is_branch_name(target_name) {
            Err(e) => {
                return Err(RepoError::Store(e));
            },
            Ok(true) => {
                self.update_head(target_name);
            },
            Ok(false) => match self.is_remote_branch_name(target_name) {
                Err(e) => {
                    return Err(RepoError::Store(e));
                },
                Ok(true) => {
                    match self.update_local_branch(target_name, target_id) {
                        Err(e) => {
                            return Err(e);
                        },
                        Ok(_) => {},
                    }
                    self.update_head(target_name);
                },
                Ok(false) => {
                    self.update_head_detached(target_id);
                    detached = true;
                },
            },
        }
        let mut message = "checkout: moving from ".to_string();
        match (&prev_branch, &prev_commit) {
            (Some(b), _) => {
                message.append(b.name.as_str());
            },
            (None, Some(c)) => {
                message.append(c.as_str());
            },
            (None, None) => {
                message.append("00000000000000000000");
            },
        }
        message.append(" to ");
        message.append(target_id);
        let old_id: Option<&str> = match &prev_commit {
            Some(c) => Some(c.as_str()),
            None => None,
        };
        let appends = ref_log_appends(
            old_id,
            target_id,
            committer,
            message.as_str(),
            &RefSpec::Head,
            false,
            moment,
        );
        Ok((detached, appends))
    }

    /// Deletes a local branch that is not the current one; unless forced to, only one whose
    /// commits the current commit descends from.  Gives what to print.
    pub fn delete_branch(&mut self, branch: &str, force_delete: bool) -> (r: Result<
        String,
        DeleteBranchError,
    >)
        ensures
            final(self).loose_object_store == old(self).loose_object_store,
            final(self).packs == old(self).packs,
            final(self).head == old(self).head,
            ({
                let repo = old(self)@;
                let spec = local_branch(branch@);
                match r {
                    Err(DeleteBranchError::NotFound) => !repo.refs.contains_key(spec)
                        && *final(self) == *old(self),
                    Err(DeleteBranchError::Current) => repo.refs.contains_key(spec) && head_branch(
                        repo,
                    ) == Ok::<Option<BranchView>, bool>(
                        Some(BranchView { location: LocationView::Local, name: branch@ }),
                    ) && *final(self) == *old(self),
                    Err(DeleteBranchError::NotMerged) => {
                        &&& repo.refs.contains_key(spec)
                        &&& !force_delete
                        &&& *final(self) == *old(self)
                        &&& old(self).reliable() ==> unmerged(repo, spec)
                    },
                    Err(DeleteBranchError::Repo(RepoError::Store(_))) => {
                        ||| !old(self).reliable() && *final(self) == *old(self)
                        ||| {
                            &&& !old(self).ref_store.accepts_writes()
                            &&& repo.refs.contains_key(spec)
                            &&& head_branch(repo) != Ok::<Option<BranchView>, bool>(
                                Some(BranchView { location: LocationView::Local, name: branch@ }),
                            )
                            &&& head_branch(repo) is Ok
                            &&& force_delete || head_valid(repo) && !unmerged(repo, spec)
                        }
                    },
                    Err(DeleteBranchError::Repo(e)) => {
                        &&& repo.refs.contains_key(spec)
                        &&& *final(self) == *old(self)
                        &&& match e {
                            RepoError::MissingHead => head_branch(repo) == Err::<
                                Option<BranchView>,
                                bool,
                            >(false),
                            RepoError::Name(_) => head_branch(repo) == Err::<
                                Option<BranchView>,
                                bool,
                            >(true) || (!force_delete && head_branch(repo) is Ok && !head_valid(
                                repo,
                            )),
                            _ => false,
                        }
                    },
                    Ok(message) => {
                        &&& repo.refs.contains_key(spec)
                        &&& head_branch(repo) != Ok::<Option<BranchView>, bool>(
                            Some(BranchView { location: LocationView::Local, name: branch@ }),
                        )
                        &&& head_branch(repo) is Ok
                        &&& force_delete || head_valid(repo) && !unmerged(repo, spec)
                        &&& final(self)@.refs == repo.refs.remove(spec)
                        &&& final(self)@.objects == repo.objects
                        &&& final(self)@.head == repo.head
                        &&& message@ == "Deleted branch "@ + branch@ + " (was "@ + target_text(
                            repo.refs[spec],
                        ) + ")"@
                    },
                }
            }),
    {
        match self.is_branch_name(branch) {
            Err(e) => {
                return Err(DeleteBranchError::Repo(RepoError::Store(e)));
            },
            Ok(false) => {
                return Err(DeleteBranchError::NotFound);
            },
            Ok(true) => {},
        }
        let branch_spec = BranchSpec::local(branch);
        match self.current_branch() {
            Err(e) => {
                return Err(DeleteBranchError::Repo(e));
            },
            Ok(Some(b)) => {
                if b.same_branch(&branch_spec) {
                    return Err(DeleteBranchError::Current);
                }
            },
            Ok(None) => {},
        }
        let ref_spec = branch_spec.into_ref_spec();
        let target = match self.resolve_ref(&ref_spec) {
            Err(e) => {
                return Err(DeleteBranchError::Repo(RepoError::Store(e)));
            },
            Ok(target) => target,
        };
        if !force_delete {
            let commit = match self.current_commit() {
                Err(e) => {
                    return Err(DeleteBranchError::Repo(e));
                },
                Ok(commit) => commit,
            };
            if let (Some(commit), Some(RefTarget::Object(tip))) = (&commit, &target) {
                match self.commit_is_ancestor(commit.as_str(), tip.as_str()) {
                    Err(e) => {
                        return Err(DeleteBranchError::Repo(e));
                    },
                    Ok(true) => {},
                    Ok(false) => {
                        return Err(DeleteBranchError::NotMerged);
                    },
                }
            }
        }
        let mut message = concat_texts("Deleted branch ", branch);
        message.append(" (was ");
        let was = match &target {
            Some(t) => t.to_string(),
            None => "nothing".to_string(),
        };
        message.append(was.as_str());
        message.append(")");
        match self.delete_ref(&ref_spec) {
            Err(e) => Err(DeleteBranchError::Repo(RepoError::Store(e))),
            Ok(_) => Ok(message),
        }
    }
}

/// Whether some remote has a branch of a name.
pub open spec fn some_remote_has(repo: RepoView, name: Seq<char>) -> bool {
    exists|x: BranchView|
        x.location is Remote && x.name == name && #[trigger] repo.refs.contains_key(
            RefView::Branch(x),
        )
}

/// Whether there is a current commit, and it does not descend from the one that a branch leads
/// to.
pub open spec fn unmerged(repo: RepoView, branch: RefView) -> bool {
    match (current_commit_id(repo), repo.refs[branch]) {
        (Some(commit), TargetView::Object(tip)) => !descends(repo.objects, commit, tip),
        _ => false,
    }
}

/// Why a branch cannot be deleted.
#[derive(Debug)]
pub enum DeleteBranchError {
    /// There is no such branch.
    NotFound,
    /// It is the current branch.
    Current,
    /// The current commit does not descend from it.
    NotMerged,
    /// The repository could not be read or written.
    Repo(RepoError),
}

/// What the command about branches does.
#[derive(Clone, Copy, Debug, PartialEq, Eq, Structural)]
pub enum BranchAction {
    /// It lists branches.
    List,
    /// It deletes a branch.
    Delete,
    /// It makes a branch.
    New,
}

/// What the command about branches does: it lists them if asked to or where none is named, and
/// otherwise deletes or makes the one that is named.
pub fn branch_action(list: bool, has_name: bool, delete: bool, force_delete: bool) -> (r:
    BranchAction)
    ensures
        r == if list || !has_name {
            BranchAction::List
        } else if delete || force_delete {
            BranchAction::Delete
        } else {
            BranchAction::New
        },
{
    if list {
        BranchAction::List
    } else if has_name {
        if delete || force_delete {
            BranchAction::Delete
        } else {
            BranchAction::New
        }
    } else {
        BranchAction::List
    }
}

} // verus!
