//! The command that fetches from a remote.

use vstd::prelude::*;
use vstd::slice::slice_subrange;

use crate::cli::branches::{change_line, logs_change};
use crate::cli::log::short_id;
use crate::moments::Timestamp;
use crate::ref_log::LogAppend;
use crate::repo::commits::descends_purely;
use crate::repo::model::{lookup, RepoView};
use crate::repo::worktree::ref_log_appends;
use crate::repo::{RepoError, Repository};
use crate::stores::backends::{ObjectStore, RefStore};
use crate::stores::{
    ref_text, target_text, BranchSpec, BranchView, RefSpec, RefView, TargetedRef, TargetedView,
};
use crate::text::{chars_of, concat_texts, lemma_filter_contains, opt_text, string_of, texts};

verus! {

broadcast use vstd::string::group_string_axioms;

/// A reference of a server, and the one that follows it here.
#[derive(Debug)]
pub struct FetchRefMap {
    /// The reference of the server and what it leads to.
    pub source: TargetedRef,
    /// The reference that follows it.
    pub dest: RefSpec,
    /// Whether it follows even where history was rewritten.
    pub force: bool,
}

/// What a reference of a server and the one that follows it are.
pub struct MapView {
    /// The reference of the server and what it leads to.
    pub source: TargetedView,
    /// The reference that follows it.
    pub dest: RefView,
    /// Whether it follows even where history was rewritten.
    pub force: bool,
}

impl View for FetchRefMap {
    type V = MapView;

    open spec fn view(&self) -> MapView {
        MapView { source: self.source@, dest: self.dest@, force: self.force }
    }
}

impl Clone for FetchRefMap {
    fn clone(&self) -> (r: Self)
        ensures
            r@ == self@,
    {
        FetchRefMap {
            source: self.source.clone(),
            dest: self.dest.clone(),
            force: self.force,
        }
    }
}

/// What references of a server and those that follow them are.
pub open spec fn map_views(s: Seq<FetchRefMap>) -> Seq<MapView> {
    s.map_values(|m: FetchRefMap| m@)
}

/// Whether a reference does not lead to what the one of the server leads to.
pub open spec fn is_behind(repo: RepoView, m: MapView) -> bool {
    !(repo.refs.contains_key(m.dest) && repo.refs[m.dest] == m.source.target)
}

/// Those references that do not lead to what the ones of the server lead to.
pub open spec fn behind(repo: RepoView, maps: Seq<FetchRefMap>) -> Seq<MapView>
    decreases maps.len(),
{
    if maps.len() == 0 {
        Seq::empty()
    } else {
        let before = behind(repo, maps.drop_last());
        if is_behind(repo, maps.last()@) {
            before.push(maps.last()@)
        } else {
            before
        }
    }
}

proof fn lemma_behind_filter(repo: RepoView, maps: Seq<FetchRefMap>)
    ensures
        behind(repo, maps) == map_views(maps).filter(|m: MapView| is_behind(repo, m)),
    decreases maps.len(),
{
    reveal(Seq::filter);
    if maps.len() > 0 {
        lemma_behind_filter(repo, maps.drop_last());
        assert(map_views(maps.drop_last()) =~= map_views(maps).drop_last());
    }
}

/// The references that are to be updated are those that do not lead to what the ones of the
/// server lead to, all of them, in the order in which they come.
pub proof fn theorem_behind(repo: RepoView, maps: Seq<FetchRefMap>)
    ensures
        forall|m: MapView| #[trigger]
            behind(repo, maps).contains(m) <==> map_views(maps).contains(m) && !(
            repo.refs.contains_key(m.dest) && repo.refs[m.dest] == m.source.target),
        behind(repo, maps) == map_views(maps).filter(|m: MapView| is_behind(repo, m)),
{
    lemma_behind_filter(repo, maps);
    assert forall|m: MapView| #[trigger]
        behind(repo, maps).contains(m) <==> map_views(maps).contains(m) && !(
        repo.refs.contains_key(m.dest) && repo.refs[m.dest] == m.source.target) by {
        lemma_filter_contains(map_views(maps), |m: MapView| is_behind(repo, m), m);
    }
}

/// What to do about a reference.
#[derive(Clone, Copy, Debug, PartialEq, Eq, Structural)]
pub enum UpdateDecision {
    /// Nothing: the object that it should lead to is not here.
    NotFetched,
    /// Make it.
    New,
    /// Move it forward.
    FastForward,
    /// Move it although history was rewritten.
    Forced,
    /// Leave it where it is, as history was rewritten.
    Skip,
}

/// What to do about a reference.
pub open spec fn decision(repo: RepoView, m: MapView) -> UpdateDecision {
    let new = target_text(m.source.target);
    if lookup(repo.objects, new) is None {
        UpdateDecision::NotFetched
    } else if !repo.refs.contains_key(m.dest) {
        UpdateDecision::New
    } else if descends_purely(repo.objects, new, target_text(repo.refs[m.dest])) {
        UpdateDecision::FastForward
    } else if m.force {
        UpdateDecision::Forced
    } else {
        UpdateDecision::Skip
    }
}

/// What was done about a reference.
#[derive(Debug)]
pub struct UpdateOutcome {
    /// Whether the reference was changed.
    pub updated: bool,
    /// What to print.
    pub message: Option<String>,
    /// What to add to the ref logs.
    pub log: Vec<LogAppend>,
}

/// What a ref log says of an update.
pub open spec fn update_log_message(d: UpdateDecision) -> Seq<char> {
    match d {
        UpdateDecision::FastForward => "fetch (fast forward)"@,
        UpdateDecision::Forced => "fetch (forced)"@,
        _ => "fetch (new branch)"@,
    }
}

/// What is printed about an update.
pub open spec fn update_text(
    d: UpdateDecision,
    dest: RefView,
    existing: Option<Seq<char>>,
    new: Seq<char>,
) -> Option<Seq<char>> {
    let old = match existing {
        Some(e) => short_id(e),
        None => short_id("(none)"@),
    };
    match d {
        UpdateDecision::NotFetched => None,
        UpdateDecision::Skip => Some(
            "Skipping update "@ + old + " => "@ + short_id(new) + " for "@ + ref_text(dest)
                + " (not fast-forwardable)"@,
        ),
        _ => Some("Updated "@ + ref_text(dest) + ": "@ + old + " => "@ + short_id(new)),
    }
}

/// The start of an ID.
pub fn abbrev_commit_id(id: &str) -> (r: String)
    ensures
        r@ == short_id(id@),
{
    let cs = chars_of(id);
    if cs.len() > 7 {
        let start = slice_subrange(&cs, 0, 8);
        assert(start@ =~= cs@.take(8));
        string_of(start)
    } else {
        id.to_string()
    }
}

impl<L: ObjectStore, P: ObjectStore, R: RefStore> Repository<L, P, R> {
    /// Those references that do not lead to what the ones of the server lead to.
    pub fn updates_needed(&self, maps: &[FetchRefMap]) -> (r: Vec<FetchRefMap>)
        ensures
            self.reliable() ==> map_views(r@) == behind(self@, maps@),
            self.reliable() ==> forall|m: MapView| #[trigger]
                map_views(r@).contains(m) <==> map_views(maps@).contains(m) && is_behind(self@, m),
    {
        let mut out: Vec<FetchRefMap> = Vec::new();
        let mut i: usize = 0;
        assert(maps@.take(0) =~= Seq::empty());
        assert(map_views(out@) =~= Seq::empty());
        while i < maps.len()
            invariant
                i <= maps@.len(),
                self.reliable() ==> map_views(out@) == behind(self@, maps@.take(i as int)),
            decreases maps@.len() - i,
        {
            let ghost before = map_views(out@);
            assert(maps@.take(i + 1).drop_last() =~= maps@.take(i as int));
            assert(maps@.take(i + 1).last() == maps@[i as int]);
            let current = match self.resolve_ref(&maps[i].dest) {
                Ok(Some(t)) => t.same_target(&maps[i].source.target),
                _ => false,
            };
            if !current {
                let copy = maps[i].clone();
                out.push(copy);
                assert(map_views(out@) =~= before.push(copy@));
            }
            i = i + 1;
        }
        assert(maps@.take(i as int) =~= maps@);
        proof {
            theorem_behind(self@, maps@);
        }
        out
    }

    /// The objects that references should lead to and that are not here, each once.
    pub fn objects_needed(&self, updates: &[FetchRefMap]) -> (r: Vec<String>)
        ensures
            texts(r@).no_duplicates(),
            self.reliable() ==> forall|id: Seq<char>| #[trigger]
                texts(r@).contains(id) <==> lookup(self@.objects, id) is None && exists|i: int|
                    0 <= i < updates@.len() && target_text(
                        (#[trigger] updates@[i])@.source.target,
                    ) == id,
    {
        let mut out: Vec<String> = Vec::new();
        let mut i: usize = 0;
        while i < updates.len()
            invariant
                i <= updates@.len(),
                texts(out@).no_duplicates(),
                self.reliable() ==> forall|id: Seq<char>| #[trigger]
                    texts(out@).contains(id) <==> lookup(self@.objects, id) is None && exists|
                        j: int,
                    |
                        0 <= j < i && target_text((#[trigger] updates@[j])@.source.target) == id,
            decreases updates@.len() - i,
        {
            let ghost before = texts(out@);
            let target = updates[i].source.target.to_string();
            let ghost name = target@;
            let here = match self.has_object(target.as_str()) {
                Ok(b) => b,
                Err(_) => false,
            };
            if !here {
                crate::repo::add_once(&mut out, target);
            }
            proof {
                if self.reliable() {
                    assert(name == target_text(updates@[i as int]@.source.target));
                    assert forall|id: Seq<char>| #[trigger]
                        texts(out@).contains(id) <==> lookup(self@.objects, id) is None && exists|
                            j: int,
                        |
                            0 <= j < i + 1 && target_text(
                                (#[trigger] updates@[j])@.source.target,
                            ) == id by {
                        assert(before.contains(id) <==> lookup(self@.objects, id) is None
                            && exists|j: int|
                            0 <= j < i && target_text((#[trigger] updates@[j])@.source.target)
                                == id);
                    }
                }
            }
            i = i + 1;
        }
        out
    }

    /// What to do about a reference.
    pub fn decide_update(&self, update: &FetchRefMap) -> (r: Result<UpdateDecision, RepoError>)
        ensures
            match r {
                Ok(d) => self.reliable() ==> d == decision(self@, update@),
                Err(_) => !self.reliable() && (lookup(
                    self@.objects,
                    target_text(update@.source.target),
                ) is None ==> !self.objects_reliable()),
            },
            r matches Ok(d) ==> {
                &&& d is NotFetched <==> lookup(
                    self@.objects,
                    target_text(update@.source.target),
                ) is None
                &&& !(d is NotFetched) ==> (d is New <==> !self@.refs.contains_key(update@.dest))
            },
    {
        let new = update.source.target.to_string();
        match self.has_object(new.as_str()) {
            Err(e) => {
                return Err(RepoError::Store(e));
            },
            Ok(false) => {
                return Ok(UpdateDecision::NotFetched);
            },
            Ok(true) => {},
        }
        let existing = match self.resolve_ref(&update.dest) {
            Err(e) => {
                return Err(RepoError::Store(e));
            },
            Ok(None) => {
                return Ok(UpdateDecision::New);
            },
            Ok(Some(t)) => t.to_string(),
        };
        match self.commit_is_pure_ancestor(new.as_str(), existing.as_str()) {
            Err(e) => Err(e),
            Ok(true) => Ok(UpdateDecision::FastForward),
            Ok(false) => if update.force {
                Ok(UpdateDecision::Forced)
            } else {
                Ok(UpdateDecision::Skip)
            },
        }
    }

    /// Updates a reference to what the one of the server leads to, unless it has to be left.
    pub fn apply_update(&mut self, update: &FetchRefMap, committer: &str, moment: &Timestamp) -> (r:
        Result<UpdateOutcome, RepoError>)
        ensures
            final(self).loose_object_store == old(self).loose_object_store,
            final(self).packs == old(self).packs,
            final(self).head == old(self).head,
            r is Err ==> !old(self).reliable() || !old(self).ref_store.accepts_writes(),
            r is Err && lookup(old(self)@.objects, target_text(update@.source.target)) is None
                ==> !old(self).objects_reliable(),
            old(self).ref_store.accepts_writes() ==> final(self).ref_store.accepts_writes(),
            r matches Ok(outcome) ==> exists|d: UpdateDecision|
                #[trigger] was_decided(old(self)@, update@, old(self).reliable(), d) && {
                    let new = target_text(update@.source.target);
                    let existing = if old(self)@.refs.contains_key(update@.dest) {
                        Some(target_text(old(self)@.refs[update@.dest]))
                    } else {
                        None
                    };
                    &&& opt_text(outcome.message) == update_text(d, update@.dest, existing, new)
                    &&& outcome.updated == !(d is NotFetched || d is Skip)
                    &&& final(self)@.refs == if outcome.updated {
                        old(self)@.refs.insert(update@.dest, update@.source.target)
                    } else {
                        old(self)@.refs
                    }
                    &&& if outcome.updated {
                        logs_change(
                            outcome.log@,
                            change_line(existing, new, committer@, update_log_message(d), *moment),
                            update@.dest,
                            false,
                        )
                    } else {
                        outcome.log@.len() == 0
                    }
                },
    {
        let d = match self.decide_update(update) {
            Err(e) => {
                return Err(e);
            },
            Ok(d) => d,
        };
        assert(was_decided(self@, update@, self.reliable(), d));
        let new = update.source.target.to_string();
        if d == UpdateDecision::NotFetched {
            return Ok(UpdateOutcome { updated: false, message: None, log: Vec::new() });
        }
        let existing = match self.resolve_ref(&update.dest) {
            Err(e) => {
                return Err(RepoError::Store(e));
            },
            Ok(Some(t)) => Some(t.to_string()),
            Ok(None) => None,
        };
        let old_short = match &existing {
            Some(e) => abbrev_commit_id(e.as_str()),
            None => abbrev_commit_id("(none)"),
        };
        let new_short = abbrev_commit_id(new.as_str());
        let dest = update.dest.to_string();
        if d == UpdateDecision::Skip {
            let mut message = concat_texts("Skipping update ", old_short.as_str());
            message.append(" => ");
            message.append(new_short.as_str());
            message.append(" for ");
            message.append(dest.as_str());
            message.append(" (not fast-forwardable)");
            return Ok(
                UpdateOutcome { updated: false, message: Some(message), log: Vec::new() },
            );
        }
        match self.update_ref(&update.dest, &update.source.target) {
            Err(e) => {
                return Err(RepoError::Store(e));
            },
            Ok(_) => {},
        }
        let old_id: Option<&str> = match &existing {
            Some(e) => Some(e.as_str()),
            None => None,
        };
        let log_message = if d == UpdateDecision::FastForward {
            "fetch (fast forward)"
        } else if d == UpdateDecision::Forced {
            "fetch (forced)"
        } else {
            "fetch (new branch)"
        };
        let log = ref_log_appends(
            old_id,
            new.as_str(),
            committer,
            log_message,
            &update.dest,
            false,
            moment,
        );
        let mut message = concat_texts("Updated ", dest.as_str());
        message.append(": ");
        message.append(old_short.as_str());
        message.append(" => ");
        message.append(new_short.as_str());
        Ok(UpdateOutcome { updated: true, message: Some(message), log })
    }
}

/// Whether something is what is to be done about a reference, as far as the repository could be
/// read.
pub open spec fn was_decided(repo: RepoView, m: MapView, reliable: bool, d: UpdateDecision) -> bool {
    &&& reliable ==> d == decision(repo, m)
    &&& d is NotFetched <==> lookup(repo.objects, target_text(m.source.target)) is None
    &&& !(d is NotFetched) ==> (d is New <==> !repo.refs.contains_key(m.dest))
}

/// Whether a branch is among references.
pub open spec fn among(branch: BranchView, updated: Seq<RefSpec>) -> bool {
    exists|i: int| 0 <= i < updated.len() && (#[trigger] updated[i])@ == RefView::Branch(branch)
}

/// What to print at the end of a fetch: a warning where the branch that the current one is mapped
/// to is among the references that were updated.
pub fn update_warning(followed: Option<&BranchSpec>, updated: &[RefSpec]) -> (r: Option<String>)
    ensures
        opt_text(r) == if followed matches Some(b) && among(b@, updated@) {
            Some(
                "Your current branch has been updated on its remote server.\nPull to bring these changes in locally."@,
            )
        } else {
            None
        },
{
    let branch = match followed {
        None => {
            return None;
        },
        Some(b) => b.clone(),
    };
    let reference = branch.into_ref_spec();
    let mut i: usize = 0;
    while i < updated.len()
        invariant
            i <= updated@.len(),
            reference@ == RefView::Branch(branch@),
            followed matches Some(b) && b@ == branch@,
            forall|j: int| 0 <= j < i ==> (#[trigger] updated@[j])@ != reference@,
        decreases updated@.len() - i,
    {
        if updated[i].same_ref(&reference) {
            assert(among(branch@, updated@));
            return Some(
                "Your current branch has been updated on its remote server.\nPull to bring these changes in locally.".to_string(),
            );
        }
        i = i + 1;
    }
    None
}

} // verus!
