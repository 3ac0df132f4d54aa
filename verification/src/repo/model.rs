//! What a repository holds, and what is found in it.

use vstd::prelude::*;

use crate::objects::delta::{delta_applies, delta_result};
use crate::objects::errors::ObjectError;
use crate::objects::kvlm::{field_values, FieldsView};
use crate::objects::raw::DataView;
use crate::objects::{raw_readable, read_contents, KindView, StoredView};
use crate::repo::partial_id;
use crate::stores::backends::{ObjectMap, RefMap};
use crate::stores::{
    parse_branch, parse_target, target_text, BranchView, LocationView, RefView, TagView, TargetView,
};
use crate::text::{starts_with, trim};

verus! {

/// What a repository holds.
pub struct RepoView {
    /// The stores of objects, in the order in which they are searched.
    pub objects: Seq<ObjectMap>,
    /// The references.
    pub refs: RefMap,
    /// The contents of the file `HEAD`, if there is one.
    pub head: Option<Seq<char>>,
}

/// Why the objects of a repository do not lead to the one that is asked for.
#[derive(Clone, Copy, Debug, PartialEq, Eq, Structural)]
pub enum Fault {
    /// No object was found.
    NotFound,
    /// The object that changes are to be applied to is not in the repository.
    MissingBase,
    /// Changes cannot be applied to their base object.
    BadDelta,
    /// Objects lead from one to the next without an end.
    Endless,
    /// The fields of a commit or tag do not end.
    Unreadable,
    /// The contents of an object are not valid.
    Object(ObjectError),
    /// A tag names no target.
    NoTarget,
    /// A commit names no tree.
    NoTree,
    /// A directory is not one.
    NotATree,
}

/// How many objects are followed from one to the next.
pub const STEP_LIMIT: u64 = 0xffff_ffff_ffff_ffff;

/// The object with an ID, from the first store that holds it.
pub open spec fn lookup(objects: Seq<ObjectMap>, id: Seq<char>) -> Option<DataView>
    decreases objects.len(),
{
    if objects.len() == 0 {
        None
    } else if objects[0].contains_key(id) {
        Some(objects[0][id])
    } else {
        lookup(objects.skip(1), id)
    }
}

/// The object with an ID: where it is stored as changes to another object, those changes applied
/// to that object.
pub open spec fn whole_object(objects: Seq<ObjectMap>, id: Seq<char>, steps: nat) -> Result<
    Option<DataView>,
    Fault,
>
    decreases steps,
{
    match lookup(objects, id) {
        None => Ok(None),
        Some(d) => match d.kind {
            KindView::Delta(base) => if steps == 0 {
                Err(Fault::Endless)
            } else {
                match whole_object(objects, base, (steps - 1) as nat) {
                    Ok(Some(b)) => if delta_applies(b.data, d.data) {
                        Ok(
                            Some(
                                DataView {
                                    kind: b.kind,
                                    size: d.size,
                                    data: delta_result(b.data, d.data),
                                },
                            ),
                        )
                    } else {
                        Err(Fault::BadDelta)
                    },
                    Ok(None) => Err(Fault::MissingBase),
                    Err(e) => Err(e),
                }
            },
            _ => Ok(Some(d)),
        },
    }
}

/// The object with an ID.
pub open spec fn raw_object(objects: Seq<ObjectMap>, id: Seq<char>) -> Result<
    Option<DataView>,
    Fault,
> {
    whole_object(objects, id, STEP_LIMIT as nat)
}

/// What an object is read as.
pub open spec fn stored_view(d: DataView) -> Result<StoredView, Fault> {
    if !raw_readable(d.kind, d.data) {
        Err(Fault::Unreadable)
    } else {
        match read_contents(d.kind, d.data) {
            Ok(v) => Ok(v),
            Err(e) => Err(Fault::Object(e)),
        }
    }
}

/// What the object with an ID is read as.
pub open spec fn object_at(objects: Seq<ObjectMap>, id: Seq<char>) -> Result<
    Option<StoredView>,
    Fault,
> {
    match raw_object(objects, id) {
        Ok(Some(d)) => match stored_view(d) {
            Ok(v) => Ok(Some(v)),
            Err(e) => Err(e),
        },
        Ok(None) => Ok(None),
        Err(e) => Err(e),
    }
}

/// The first value of a field, if it has one.
pub open spec fn first_of(fields: FieldsView, name: Seq<char>) -> Option<Seq<char>> {
    if field_values(fields, name).len() > 0 {
        Some(field_values(fields, name)[0])
    } else {
        None
    }
}

/// The object of a kind that an object leads to: the object itself where it is of that kind.
/// Otherwise, where links are to be followed, a tag leads to its target, and a commit to its tree
/// where a tree is asked for.
pub open spec fn follow(
    objects: Seq<ObjectMap>,
    id: Seq<char>,
    kind: KindView,
    follow_tags: bool,
    steps: nat,
) -> Result<Seq<char>, Fault>
    decreases steps,
{
    match raw_object(objects, id) {
        Err(e) => Err(e),
        Ok(None) => Err(Fault::NotFound),
        Ok(Some(d)) => if d.kind == kind {
            Ok(id)
        } else if !follow_tags {
            Err(Fault::NotFound)
        } else {
            match stored_view(d) {
                Err(e) => Err(e),
                Ok(v) => match next_object(v, kind) {
                    Err(e) => Err(e),
                    Ok(next) => if steps == 0 {
                        Err(Fault::Endless)
                    } else {
                        follow(objects, next, kind, follow_tags, (steps - 1) as nat)
                    },
                },
            }
        },
    }
}

/// The object that another one leads to when an object of a kind is looked for.
pub open spec fn next_object(v: StoredView, kind: KindView) -> Result<Seq<char>, Fault> {
    match v {
        StoredView::Tag(fields, _) => match first_of(fields, "object"@) {
            Some(id) => Ok(id),
            None => Err(Fault::NoTarget),
        },
        StoredView::Commit(fields, _) => if kind is Tree {
            match first_of(fields, "tree"@) {
                Some(id) => Ok(id),
                None => Err(Fault::NoTree),
            }
        } else {
            Err(Fault::NotFound)
        },
        _ => Err(Fault::NotFound),
    }
}

/// The target that a tag names.
pub open spec fn tag_target(d: DataView) -> Result<Seq<char>, Fault> {
    match stored_view(d) {
        Err(e) => Err(e),
        Ok(StoredView::Tag(fields, _)) => match first_of(fields, "object"@) {
            Some(id) => Ok(id),
            None => Err(Fault::NoTarget),
        },
        Ok(_) => Err(Fault::NoTarget),
    }
}

/// The first object that is not a tag: the object itself, or else the first that the target of
/// the tag leads to.  An object that is not in the repository is no tag.
pub open spec fn peel(objects: Seq<ObjectMap>, id: Seq<char>, steps: nat) -> Result<
    Seq<char>,
    Fault,
>
    decreases steps,
{
    match raw_object(objects, id) {
        Err(e) => Err(e),
        Ok(None) => Ok(id),
        Ok(Some(d)) => if !(d.kind is Tag) {
            Ok(id)
        } else {
            match tag_target(d) {
                Err(e) => Err(e),
                Ok(next) => if steps == 0 {
                    Err(Fault::Endless)
                } else {
                    peel(objects, next, (steps - 1) as nat)
                },
            }
        },
    }
}

/// The object that one leads to: where a kind is given the object of that kind, otherwise the
/// first that is not a tag where tags are to be followed, and else the object itself.
pub open spec fn resolved(
    objects: Seq<ObjectMap>,
    id: Seq<char>,
    kind: Option<KindView>,
    follow_tags: bool,
) -> Result<Seq<char>, Fault> {
    match kind {
        Some(kind) => follow(objects, id, kind, follow_tags, STEP_LIMIT as nat),
        None => if follow_tags {
            peel(objects, id, STEP_LIMIT as nat)
        } else {
            Ok(id)
        },
    }
}

/// Whether an object is the one that a name stands for once tags are followed.
pub open spec fn stands_for(repo: RepoView, name: Seq<char>, found: Seq<char>) -> bool {
    exists|id: Seq<char>| #[trigger]
        is_sole_candidate(repo, name, id) && resolved(repo.objects, id, None, true) == Ok::<
            Seq<char>,
            Fault,
        >(found)
}

/// Following tags ends at an object that is not a tag, and that leads nowhere else.
pub proof fn theorem_peeled_is_no_tag(
    objects: Seq<ObjectMap>,
    id: Seq<char>,
    steps: nat,
    found: Seq<char>,
)
    requires
        peel(objects, id, steps) == Ok::<Seq<char>, Fault>(found),
    ensures
        raw_object(objects, found) matches Ok(Some(d)) ==> !(d.kind is Tag),
        raw_object(objects, found) is Ok,
        resolved(objects, found, None, true) == Ok::<Seq<char>, Fault>(found),
    decreases steps,
{
    if let Ok(Some(d)) = raw_object(objects, id) {
        if d.kind is Tag && steps > 0 {
            theorem_peeled_is_no_tag(objects, tag_target(d)->Ok_0, (steps - 1) as nat, found);
        }
    }
}

/// A tag leads to what its target leads to.
pub proof fn theorem_tag_leads_on(
    objects: Seq<ObjectMap>,
    id: Seq<char>,
    tag: DataView,
    next: Seq<char>,
    steps: nat,
)
    requires
        raw_object(objects, id) == Ok::<Option<DataView>, Fault>(Some(tag)),
        tag.kind is Tag,
        tag_target(tag) == Ok::<Seq<char>, Fault>(next),
        steps > 0,
    ensures
        peel(objects, id, steps) == peel(objects, next, (steps - 1) as nat),
{
}

/// The ID of the current commit: the one that `HEAD` holds, or that the branch leads to which
/// `HEAD` names.
pub open spec fn current_commit_id(repo: RepoView) -> Option<Seq<char>> {
    match repo.head {
        None => None,
        Some(text) => match parse_target(trim(text)) {
            Some(TargetView::SymbolicRef(r)) => if repo.refs.contains_key(r) {
                Some(target_text(repo.refs[r]))
            } else {
                None
            },
            Some(TargetView::Object(id)) => Some(id),
            None => None,
        },
    }
}

/// Whether `HEAD` is missing or can be read.
pub open spec fn head_valid(repo: RepoView) -> bool {
    repo.head matches Some(text) ==> parse_target(trim(text)) is Some
}

/// The branch that `HEAD` names, if it names one.  The error is whether `HEAD` names something
/// that is not a branch, rather than being missing.
pub open spec fn head_branch(repo: RepoView) -> Result<Option<BranchView>, bool> {
    match repo.head {
        None => Err(false),
        Some(text) => if starts_with(text, "ref: "@) {
            match parse_branch(trim(text.skip(5))) {
                Some(b) => Ok(Some(b)),
                None => Err(true),
            }
        } else {
            Ok(None)
        },
    }
}

/// A local branch, as a reference.
pub open spec fn local_branch(name: Seq<char>) -> RefView {
    RefView::Branch(BranchView { location: LocationView::Local, name })
}

/// A tag, as a reference.
pub open spec fn unpeeled_tag(name: Seq<char>) -> RefView {
    RefView::Tag(TagView { name, peeled: false })
}

/// Whether a reference exists and leads directly to an object.
pub open spec fn leads_to(refs: RefMap, r: RefView, id: Seq<char>) -> bool {
    refs.contains_key(r) && refs[r] == TargetView::Object(id)
}

/// Whether one of the stores holds an object.
pub open spec fn is_stored(objects: Seq<ObjectMap>, id: Seq<char>) -> bool {
    exists|i: int| 0 <= i < objects.len() && (#[trigger] objects[i]).contains_key(id)
}

/// Whether the branch of a remote leads directly to an object, for some remote.
pub open spec fn remote_leads_to(refs: RefMap, name: Seq<char>, id: Seq<char>) -> bool {
    exists|b: BranchView|
        b.location is Remote && b.name == name && #[trigger] leads_to(refs, RefView::Branch(b), id)
}

/// Whether a name can stand for an object: `HEAD` for the current commit; the start of an ID for
/// the objects that have it; a name for the tag and for the local branch of that name, or where
/// there is no such local branch for the branches of remotes.
pub open spec fn is_candidate(repo: RepoView, name: Seq<char>, id: Seq<char>) -> bool {
    let n = trim(name);
    if n.len() == 0 {
        false
    } else if n == "HEAD"@ {
        current_commit_id(repo) == Some(id)
    } else {
        ||| partial_id(n) && starts_with(id, n) && is_stored(repo.objects, id)
        ||| leads_to(repo.refs, unpeeled_tag(n), id)
        ||| leads_to(repo.refs, local_branch(n), id)
        ||| !branch_leads(repo.refs, n) && remote_leads_to(repo.refs, n, id)
    }
}

/// Whether a local branch leads directly to an object.
pub open spec fn branch_leads(refs: RefMap, name: Seq<char>) -> bool {
    refs.contains_key(local_branch(name)) && refs[local_branch(name)] is Object
}

/// Whether a list holds the objects that a name can stand for, each once.
pub open spec fn lists_candidates(ids: Seq<Seq<char>>, repo: RepoView, name: Seq<char>) -> bool {
    ids.no_duplicates() && forall|id: Seq<char>| #[trigger]
        ids.contains(id) <==> is_candidate(repo, name, id)
}

/// Whether an object is the only one that a name can stand for.
pub open spec fn is_sole_candidate(repo: RepoView, name: Seq<char>, id: Seq<char>) -> bool {
    is_candidate(repo, name, id) && forall|other: Seq<char>| #[trigger]
        is_candidate(repo, name, other) ==> other == id
}

} // verus!
