//! What a repository holds, and how it is searched.

use vstd::prelude::*;
use vstd::slice::slice_subrange;

use crate::objects::errors::FindObjectError;
use crate::objects::raw::{object_name, DataView, RawObject, RawObjectData};
use crate::objects::{KindView, ObjectKind, StoredObject, StoredView};
use crate::repo::model::{
    branch_leads, current_commit_id, follow, head_branch, head_valid, is_candidate,
    is_sole_candidate, is_stored, leads_to, lists_candidates, local_branch, lookup, next_object,
    object_at, peel, raw_object, remote_leads_to, resolved, stored_view, unpeeled_tag, whole_object,
    Fault, RepoView, STEP_LIMIT,
};
use crate::stores::backends::{branch_views, ObjectMap, ObjectStore, RefMap, RefStore, StoreError};
use crate::stores::errors::InvalidRefNameError;
use crate::stores::{
    BranchLocation, BranchSpec, BranchView, RefTarget, RefView, TagSpec,
};
use crate::text::{
    chars_of, is_listed, opt_text, same_text, starts_with, string_of, text_starts_with, texts,
    trim, trim_chars, trim_text,
};

pub mod checkout;
pub mod checkout_laws;
pub mod commits;
pub mod flatten;
pub mod ignored;
pub mod model;
pub mod object_laws;
pub mod read_back;
pub mod refs;
pub mod stored_trees;
pub mod tree_laws;
pub mod trees;
pub mod walk_laws;
pub mod worktree;

verus! {

broadcast use vstd::string::group_string_axioms;

/// Whether a character is a lower-case hexadecimal digit.
pub open spec fn is_lower_hex(c: char) -> bool {
    '0' <= c <= '9' || 'a' <= c <= 'f'
}

/// Whether a text can be an object ID or the start of one: 4 to 40 lower-case hexadecimal
/// digits.
pub open spec fn partial_id(id: Seq<char>) -> bool {
    &&& 4 <= id.len() <= 40
    &&& forall|i: int| 0 <= i < id.len() ==> is_lower_hex(#[trigger] id[i])
}

/// Whether characters can be an object ID or the start of one.
pub fn chars_are_partial_id(cs: &[char]) -> (r: bool)
    ensures
        r == partial_id(cs@),
{
    if cs.len() < 4 || cs.len() > 40 {
        return false;
    }
    let mut i: usize = 0;
    while i < cs.len()
        invariant
            i <= cs@.len(),
            forall|j: int| 0 <= j < i ==> is_lower_hex(#[trigger] cs@[j]),
        decreases cs@.len() - i,
    {
        let c: char = cs[i];
        if !(('0' <= c && c <= '9') || ('a' <= c && c <= 'f')) {
            assert(!is_lower_hex(cs@[i as int]));
            return false;
        }
        i = i + 1;
    }
    true
}

/// Whether a text can be an object ID or the start of one.
pub fn is_partial_object_id(id: &str) -> (r: bool)
    ensures
        r == partial_id(id@),
{
    let cs = chars_of(id);
    chars_are_partial_id(&cs)
}

/// A repository: its stores of objects and references, and the contents of its file `HEAD`.
pub struct Repository<L: ObjectStore, P: ObjectStore, R: RefStore> {
    /// The store that new objects are written to.
    pub loose_object_store: L,
    /// Further stores of objects, which are searched in order after the first one.
    pub packs: Vec<P>,
    /// The references.
    pub ref_store: R,
    /// The contents of the file `HEAD`, if there is one.
    pub head: Option<String>,
}

/// Why something could not be found in a repository.
#[derive(Debug)]
pub enum RepoError {
    /// A store could not be read or written.
    Store(StoreError),
    /// The objects do not lead to the one that is asked for.
    Fault(Fault),
    /// A name stands for no object, or for more than one.
    Find(FindObjectError),
    /// A text is not the path of a reference.
    Name(InvalidRefNameError),
    /// There is no file `HEAD`.
    MissingHead,
}

/// The error for a fault.
pub open spec fn fault_error(e: RepoError, fault: Fault) -> bool {
    if fault == Fault::NotFound {
        e matches RepoError::Find(f) && f.candidates is None
    } else {
        e == RepoError::Fault(fault)
    }
}

fn error_of(fault: Fault) -> (r: RepoError)
    ensures
        fault_error(r, fault),
{
    match fault {
        Fault::NotFound => RepoError::Find(FindObjectError::none()),
        _ => RepoError::Fault(fault),
    }
}

/// The store that holds an object.
pub enum ObjectSource {
    /// The store that new objects are written to.
    LooseObjectStore,
    /// A further store.
    Pack(usize),
}

/// The objects of a sequence of stores.
pub open spec fn store_objects<P: ObjectStore>(packs: Seq<P>) -> Seq<ObjectMap> {
    packs.map_values(|p: P| p.objects())
}

impl<L: ObjectStore, P: ObjectStore, R: RefStore> View for Repository<L, P, R> {
    type V = RepoView;

    open spec fn view(&self) -> RepoView {
        RepoView {
            objects: seq![self.loose_object_store.objects()] + store_objects(self.packs@),
            refs: self.ref_store.refs(),
            head: crate::text::opt_text(self.head),
        }
    }
}

proof fn lemma_lookup(objects: Seq<ObjectMap>, id: Seq<char>, i: int)
    requires
        0 <= i <= objects.len(),
        forall|j: int| 0 <= j < i ==> !(#[trigger] objects[j]).contains_key(id),
        i < objects.len() ==> objects[i].contains_key(id),
    ensures
        lookup(objects, id) == if i < objects.len() {
            Some(objects[i][id])
        } else {
            None
        },
    decreases i,
{
    if i > 0 {
        let rest = objects.skip(1);
        assert(!objects[0].contains_key(id));
        assert forall|j: int| 0 <= j < i - 1 implies !(#[trigger] rest[j]).contains_key(id) by {
            assert(!objects[j + 1].contains_key(id));
        }
        lemma_lookup(rest, id, i - 1);
    }
}

proof fn lemma_whole_object_kind(objects: Seq<ObjectMap>, id: Seq<char>, steps: nat)
    ensures
        whole_object(objects, id, steps) matches Ok(Some(d)) ==> !(d.kind is Delta),
    decreases steps,
{
    if let Some(d) = lookup(objects, id) {
        if let KindView::Delta(base) = d.kind {
            if steps > 0 {
                lemma_whole_object_kind(objects, base, (steps - 1) as nat);
            }
        }
    }
}

impl<L: ObjectStore, P: ObjectStore, R: RefStore> Repository<L, P, R> {
    /// Whether no read of an object fails.
    pub open spec fn objects_reliable(&self) -> bool {
        &&& self.loose_object_store.reliable()
        &&& forall|i: int| 0 <= i < self.packs@.len() ==> (#[trigger] self.packs@[i]).reliable()
    }

    /// Whether no read of the stores fails.
    pub open spec fn reliable(&self) -> bool {
        self.objects_reliable() && self.ref_store.reliable()
    }

    /// The first store that holds an object.
    fn find_store_for_object(&self, object_id: &str) -> (r: Result<
        Option<ObjectSource>,
        StoreError,
    >)
        ensures
            match r {
                Ok(Some(ObjectSource::LooseObjectStore)) => lookup(self@.objects, object_id@)
                    == Some(self.loose_object_store.objects()[object_id@])
                    && self.loose_object_store.objects().contains_key(object_id@),
                Ok(Some(ObjectSource::Pack(i))) => i < self.packs@.len() && lookup(
                    self@.objects,
                    object_id@,
                ) == Some(self.packs@[i as int].objects()[object_id@])
                    && self.packs@[i as int].objects().contains_key(object_id@),
                Ok(None) => lookup(self@.objects, object_id@) is None,
                Err(_) => !self.objects_reliable(),
            },
    {
        let ghost objects = self@.objects;
        assert(objects[0] == self.loose_object_store.objects());
        match self.loose_object_store.has_object(object_id) {
            Err(e) => {
                return Err(e);
            },
            Ok(true) => {
                return Ok(Some(ObjectSource::LooseObjectStore));
            },
            Ok(false) => {},
        }
        let mut i: usize = 0;
        while i < self.packs.len()
            invariant
                i <= self.packs@.len(),
                objects == self@.objects,
                forall|j: int| 0 <= j < i + 1 ==> !(#[trigger] objects[j]).contains_key(object_id@),
            decreases self.packs@.len() - i,
        {
            assert(objects[i + 1] == self.packs@[i as int].objects());
            match self.packs[i].has_object(object_id) {
                Err(e) => {
                    return Err(e);
                },
                Ok(true) => {
                    proof {
                        lemma_lookup(objects, object_id@, i + 1);
                    }
                    return Ok(Some(ObjectSource::Pack(i)));
                },
                Ok(false) => {},
            }
            i = i + 1;
        }
        proof {
            lemma_lookup(objects, object_id@, objects.len() as int);
        }
        Ok(None)
    }

    /// Whether the repository holds an object.
    pub fn has_object(&self, object_id: &str) -> (r: Result<bool, StoreError>)
        ensures
            match r {
                Ok(b) => b == (lookup(self@.objects, object_id@) is Some),
                Err(_) => !self.objects_reliable(),
            },
    {
        match self.find_store_for_object(object_id) {
            Ok(Some(_)) => Ok(true),
            Ok(None) => Ok(false),
            Err(e) => Err(e),
        }
    }

    /// Reads an object as it is stored, from the first store that holds it.
    fn read_raw_object_data(&self, object_id: &str) -> (r: Result<
        Option<RawObjectData>,
        StoreError,
    >)
        ensures
            match r {
                Ok(Some(d)) => lookup(self@.objects, object_id@) == Some(d@),
                Ok(None) => lookup(self@.objects, object_id@) is None,
                Err(_) => !self.reliable(),
            },
    {
        match self.find_store_for_object(object_id) {
            Err(e) => Err(e),
            Ok(None) => Ok(None),
            Ok(Some(ObjectSource::LooseObjectStore)) => {
                self.loose_object_store.read_raw_object_data(object_id)
            },
            Ok(Some(ObjectSource::Pack(i))) => self.packs[i].read_raw_object_data(object_id),
        }
    }

    fn read_whole_object(&self, object_id: &str, steps: u64) -> (r: Result<
        Option<RawObject>,
        RepoError,
    >)
        ensures
            match r {
                Ok(Some(o)) => whole_object(self@.objects, object_id@, steps as nat) == Ok::<
                    Option<DataView>,
                    Fault,
                >(Some(o.content@)) && o.object_id@ == object_name(
                    o.content@.kind,
                    o.content@.size,
                    o.content@.data,
                ),
                Ok(None) => whole_object(self@.objects, object_id@, steps as nat) == Ok::<
                    Option<DataView>,
                    Fault,
                >(None),
                Err(RepoError::Store(_)) => !self.reliable(),
                Err(e) => whole_object(self@.objects, object_id@, steps as nat) matches Err(f)
                    && fault_error(e, f),
            },
        decreases steps,
    {
        let data = match self.read_raw_object_data(object_id) {
            Err(e) => {
                return Err(RepoError::Store(e));
            },
            Ok(None) => {
                return Ok(None);
            },
            Ok(Some(d)) => d,
        };
        let base = match &data.metadata.kind {
            ObjectKind::Delta(base) => Some(base.clone()),
            _ => None,
        };
        let combined = match base {
            None => data,
            Some(base) => {
                if steps == 0 {
                    return Err(error_of(Fault::Endless));
                }
                match self.read_whole_object(base.as_str(), steps - 1) {
                    Err(e) => {
                        return Err(e);
                    },
                    Ok(None) => {
                        return Err(error_of(Fault::MissingBase));
                    },
                    Ok(Some(base_object)) => {
                        if !crate::objects::delta::delta_can_apply(
                            base_object.content.data.as_slice(),
                            data.data.as_slice(),
                        ) {
                            return Err(error_of(Fault::BadDelta));
                        }
                        data.combine(&base_object)
                    },
                }
            },
        };
        proof {
            lemma_whole_object_kind(self@.objects, object_id@, steps as nat);
        }
        match RawObject::try_from(combined) {
            Ok(o) => Ok(Some(o)),
            Err(e) => Err(error_of(Fault::Object(e))),
        }
    }

    /// Reads an object, with the changes applied that it may be stored as.
    pub fn read_raw_object(&self, object_id: &str) -> (r: Result<Option<RawObject>, RepoError>)
        ensures
            match r {
                Ok(Some(o)) => raw_object(self@.objects, object_id@) == Ok::<
                    Option<DataView>,
                    Fault,
                >(Some(o.content@)) && o.object_id@ == object_name(
                    o.content@.kind,
                    o.content@.size,
                    o.content@.data,
                ),
                Ok(None) => raw_object(self@.objects, object_id@) == Ok::<
                    Option<DataView>,
                    Fault,
                >(None),
                Err(RepoError::Store(_)) => !self.reliable(),
                Err(e) => raw_object(self@.objects, object_id@) matches Err(f) && fault_error(e, f),
            },
    {
        self.read_whole_object(object_id, STEP_LIMIT)
    }

    /// Reads an object and its contents.
    pub fn read_object(&self, object_id: &str) -> (r: Result<Option<StoredObject>, RepoError>)
        ensures
            match r {
                Ok(Some(o)) => object_at(self@.objects, object_id@) == Ok::<
                    Option<StoredView>,
                    Fault,
                >(Some(o@)),
                Ok(None) => object_at(self@.objects, object_id@) == Ok::<Option<StoredView>, Fault>(
                    None,
                ),
                Err(RepoError::Store(_)) => !self.reliable(),
                Err(e) => object_at(self@.objects, object_id@) matches Err(f) && fault_error(e, f),
            },
    {
        match self.read_raw_object(object_id) {
            Err(e) => Err(e),
            Ok(None) => Ok(None),
            Ok(Some(raw)) => match read_stored(&raw) {
                Ok(o) => Ok(Some(o)),
                Err(f) => Err(error_of(f)),
            },
        }
    }

    /// The ID of the current commit, if there is one.
    pub fn current_commit(&self) -> (r: Result<Option<String>, RepoError>)
        ensures
            match r {
                Ok(id) => head_valid(self@) && opt_text(id) == current_commit_id(self@),
                Err(RepoError::Store(_)) => !self.reliable(),
                Err(RepoError::Name(_)) => !head_valid(self@),
                Err(_) => false,
            },
    {
        let text = match &self.head {
            None => {
                return Ok(None);
            },
            Some(text) => trim_text(text.as_str()),
        };
        match RefTarget::from_str(text.as_str()) {
            Err(e) => Err(RepoError::Name(e)),
            Ok(RefTarget::Object(id)) => Ok(Some(id)),
            Ok(RefTarget::SymbolicRef(r)) => match self.ref_store.resolve_target(&r) {
                Err(e) => Err(RepoError::Store(e)),
                Ok(None) => Ok(None),
                Ok(Some(t)) => Ok(Some(t.to_string())),
            },
        }
    }

    /// The current branch, if there is one.
    pub fn current_branch(&self) -> (r: Result<Option<BranchSpec>, RepoError>)
        ensures
            match r {
                Ok(b) => head_branch(self@) == Ok::<Option<BranchView>, bool>(
                    match b {
                        Some(b) => Some(b@),
                        None => None,
                    },
                ),
                Err(RepoError::MissingHead) => head_branch(self@) == Err::<
                    Option<BranchView>,
                    bool,
                >(false),
                Err(RepoError::Name(_)) => head_branch(self@) == Err::<Option<BranchView>, bool>(
                    true,
                ),
                Err(_) => false,
            },
    {
        let text = match &self.head {
            None => {
                return Err(RepoError::MissingHead);
            },
            Some(text) => chars_of(text.as_str()),
        };
        proof {
            reveal_strlit("ref: ");
        }
        if !text_starts_with(&text, "ref: ") {
            return Ok(None);
        }
        let rest = slice_subrange(&text, 5, text.len());
        assert(rest@ =~= text@.skip(5));
        let name = string_of(trim_chars(rest));
        match BranchSpec::from_str(name.as_str()) {
            Ok(b) => Ok(Some(b)),
            Err(e) => Err(RepoError::Name(e)),
        }
    }

    /// The IDs of the objects whose IDs start with a text.
    fn stored_with_prefix(&self, name: &str) -> (r: Result<Vec<String>, StoreError>)
        ensures
            match r {
                Ok(ids) => texts(ids@).no_duplicates() && forall|id: Seq<char>| #[trigger]
                    texts(ids@).contains(id) <==> starts_with(id, name@) && is_stored(
                        self@.objects,
                        id,
                    ),
                Err(_) => !self.reliable(),
            },
    {
        let ghost objects = self@.objects;
        let mut ids: Vec<String> = Vec::new();
        match self.loose_object_store.search_objects(name) {
            Err(e) => {
                return Err(e);
            },
            Ok(found) => {
                add_all_once(&mut ids, found);
            },
        }
        assert(objects[0] == self.loose_object_store.objects());
        let mut i: usize = 0;
        proof {
            assert forall|id: Seq<char>| #[trigger]
                texts(ids@).contains(id) <==> starts_with(id, name@) && is_stored(
                    objects.take(1),
                    id,
                ) by {
                lemma_is_stored_next(objects, 0, id);
                assert(!is_stored(objects.take(0), id));
            }
        }
        while i < self.packs.len()
            invariant
                i <= self.packs@.len(),
                objects == self@.objects,
                texts(ids@).no_duplicates(),
                forall|id: Seq<char>| #[trigger]
                    texts(ids@).contains(id) <==> starts_with(id, name@) && is_stored(
                        objects.take(i + 1),
                        id,
                    ),
            decreases self.packs@.len() - i,
        {
            let ghost before = ids@;
            assert(objects[i + 1] == self.packs@[i as int].objects());
            match self.packs[i].search_objects(name) {
                Err(e) => {
                    return Err(e);
                },
                Ok(found) => {
                    add_all_once(&mut ids, found);
                    proof {
                        assert forall|id: Seq<char>| #[trigger]
                            texts(ids@).contains(id) <==> starts_with(id, name@) && is_stored(
                                objects.take(i + 2),
                                id,
                            ) by {
                            lemma_is_stored_next(objects, i + 1, id);
                        }
                    }
                },
            }
            i = i + 1;
        }
        assert(objects.take(i + 1) =~= objects);
        Ok(ids)
    }

    /// The objects that a name can stand for, each once.
    fn resolve_object(&self, name: &str) -> (r: Result<Vec<String>, RepoError>)
        ensures
            match r {
                Ok(ids) => lists_candidates(texts(ids@), self@, name@),
                Err(RepoError::Store(_)) => !self.reliable(),
                Err(RepoError::Name(_)) => trim(name@) == "HEAD"@ && !head_valid(self@),
                Err(_) => false,
            },
            r is Ok && trim(name@) == "HEAD"@ ==> head_valid(self@),
    {
        let name = trim_text(name);
        let n = name.as_str();
        let mut ids: Vec<String> = Vec::new();
        proof {
            reveal_strlit("");
            reveal_strlit("HEAD");
        }
        if same_text(n, "") {
            return Ok(ids);
        }
        assert(n@.len() > 0) by {
            if n@.len() == 0 {
                assert(n@ =~= ""@);
            }
        }
        if same_text(n, "HEAD") {
            return match self.current_commit() {
                Err(e) => Err(e),
                Ok(None) => Ok(ids),
                Ok(Some(id)) => {
                    add_once(&mut ids, id);
                    Ok(ids)
                },
            };
        }
        if is_partial_object_id(n) {
            match self.stored_with_prefix(n) {
                Err(e) => {
                    return Err(RepoError::Store(e));
                },
                Ok(found) => {
                    add_all_once(&mut ids, found);
                },
            }
        }
        let ghost by_id = |id: Seq<char>|
            partial_id(n@) && starts_with(id, n@) && is_stored(self@.objects, id);
        assert(forall|id: Seq<char>| #[trigger] texts(ids@).contains(id) <==> by_id(id));
        match self.ref_store.resolve_target(&TagSpec::new(n, false).into_ref_spec()) {
            Err(e) => {
                return Err(RepoError::Store(e));
            },
            Ok(Some(RefTarget::Object(id))) => {
                add_once(&mut ids, id);
            },
            Ok(_) => {},
        }
        let ghost by_tag = |id: Seq<char>| by_id(id) || leads_to(self@.refs, unpeeled_tag(n@), id);
        assert(forall|id: Seq<char>| #[trigger] texts(ids@).contains(id) <==> by_tag(id));
        match self.ref_store.resolve_target(
            &BranchSpec::new(n, BranchLocation::Local).into_ref_spec(),
        ) {
            Err(e) => {
                return Err(RepoError::Store(e));
            },
            Ok(Some(RefTarget::Object(id))) => {
                add_once(&mut ids, id);
                assert(branch_leads(self@.refs, n@));
                assert(forall|id: Seq<char>| #[trigger]
                    texts(ids@).contains(id) <==> by_tag(id) || leads_to(
                        self@.refs,
                        local_branch(n@),
                        id,
                    ));
                Ok(ids)
            },
            Ok(_) => match self.remote_targets(n) {
                Err(e) => Err(RepoError::Store(e)),
                Ok(found) => {
                    add_all_once(&mut ids, found);
                    assert(!branch_leads(self@.refs, n@));
                    assert(forall|id: Seq<char>| !leads_to(self@.refs, local_branch(n@), id));
                    assert(forall|id: Seq<char>| #[trigger]
                        texts(ids@).contains(id) <==> by_tag(id) || remote_leads_to(
                            self@.refs,
                            n@,
                            id,
                        ));
                    Ok(ids)
                },
            },
        }
    }

    /// The objects that the branches of remotes lead to which have a name.
    fn remote_targets(&self, name: &str) -> (r: Result<Vec<String>, StoreError>)
        ensures
            match r {
                Ok(ids) => forall|id: Seq<char>| #[trigger]
                    texts(ids@).contains(id) <==> remote_leads_to(self@.refs, name@, id),
                Err(_) => !self.reliable(),
            },
    {
        let branches = match self.ref_store.search_remotes_for_branch(name) {
            Err(e) => {
                return Err(e);
            },
            Ok(b) => b,
        };
        let mut ids: Vec<String> = Vec::new();
        let mut i: usize = 0;
        while i < branches.len()
            invariant
                i <= branches@.len(),
                texts(ids@).no_duplicates(),
                forall|id: Seq<char>| #[trigger]
                    texts(ids@).contains(id) <==> some_leads_to(
                        self@.refs,
                        branch_views(branches@).take(i as int),
                        id,
                    ),
            decreases branches@.len() - i,
        {
            let ghost before = ids@;
            let ghost views = branch_views(branches@);
            let ghost b = branches@[i as int]@;
            assert(views[i as int] == b);
            match self.ref_store.resolve_target(&branches[i].clone().into_ref_spec()) {
                Err(e) => {
                    return Err(e);
                },
                Ok(Some(RefTarget::Object(id))) => {
                    add_once(&mut ids, id);
                },
                Ok(_) => {},
            }
            proof {
                assert forall|id: Seq<char>| #[trigger]
                    texts(ids@).contains(id) <==> some_leads_to(
                        self@.refs,
                        views.take(i + 1),
                        id,
                    ) by {
                    lemma_some_leads_next(self@.refs, views, i as int, id);
                    assert(texts(before).contains(id) <==> some_leads_to(
                        self@.refs,
                        views.take(i as int),
                        id,
                    ));
                }
            }
            i = i + 1;
        }
        proof {
            let views = branch_views(branches@);
            assert(views.take(i as int) =~= views);
            assert forall|id: Seq<char>| #[trigger]
                texts(ids@).contains(id) <==> remote_leads_to(self@.refs, name@, id) by {
                if some_leads_to(self@.refs, views, id) {
                    let k = choose|k: int|
                        0 <= k < views.len() && leads_to(
                            self@.refs,
                            RefView::Branch(#[trigger] views[k]),
                            id,
                        );
                    assert(views.contains(views[k]));
                }
                if remote_leads_to(self@.refs, name@, id) {
                    let b = choose|b: BranchView|
                        b.location is Remote && b.name == name@ && #[trigger] leads_to(
                            self@.refs,
                            RefView::Branch(b),
                            id,
                        );
                    assert(views.contains(b));
                    let k = choose|k: int| 0 <= k < views.len() && views[k] == b;
                    assert(leads_to(self@.refs, RefView::Branch(views[k]), id));
                }
            }
        }
        Ok(ids)
    }

    /// The ID of the object that a name stands for: the only one that it can stand for; where a
    /// kind is given, the object of that kind which that one leads to; and where tags are to be
    /// followed and no kind is given, the first object from that one on that is not a tag.
    pub fn find_object(&self, name: &str, kind: Option<ObjectKind>, follow_tags: bool) -> (r: Result<
        String,
        RepoError,
    >)
        ensures
            find_result(
                self@,
                name@,
                match kind {
                    Some(k) => Some(k@),
                    None => None,
                },
                follow_tags,
                self.reliable(),
                r,
            ),
    {
        let found = match self.resolve_object(name) {
            Ok(found) => found,
            Err(e) => {
                return Err(e);
            },
        };
        if found.len() == 0 {
            proof {
                assert forall|id: Seq<char>| !is_candidate(self@, name@, id) by {
                    assert(!texts(found@).contains(id));
                }
            }
            return Err(RepoError::Find(FindObjectError::none()));
        }
        if found.len() > 1 {
            let error = FindObjectError::some(found.as_slice());
            assert(texts(error.candidates->0@).len() == texts(found@).len());
            return Err(RepoError::Find(error));
        }
        let id = found[0].clone();
        proof {
            assert(texts(found@)[0] == id@);
            assert(texts(found@).contains(id@));
            assert(is_candidate(self@, name@, id@));
            assert forall|other: Seq<char>| #[trigger] is_candidate(
                self@,
                name@,
                other,
            ) implies other == id@ by {
                assert(texts(found@).contains(other));
            }
            assert(is_sole_candidate(self@, name@, id@));
        }
        match kind {
            None => if follow_tags {
                self.follow_tags_from(id)
            } else {
                Ok(id)
            },
            Some(kind) => self.follow_to_kind(id, &kind, follow_tags),
        }
    }

    /// The first object that is not a tag, from an object on through the targets of tags.
    pub(crate) fn follow_tags_from(&self, object_id: String) -> (r: Result<String, RepoError>)
        ensures
            match r {
                Ok(id) => peel(self@.objects, object_id@, STEP_LIMIT as nat) == Ok::<
                    Seq<char>,
                    Fault,
                >(id@),
                Err(RepoError::Store(_)) => !self.reliable(),
                Err(e) => peel(self@.objects, object_id@, STEP_LIMIT as nat) matches Err(f)
                    && fault_error(e, f),
            },
    {
        let mut current = object_id;
        let mut steps: u64 = STEP_LIMIT;
        loop
            invariant
                peel(self@.objects, object_id@, STEP_LIMIT as nat) == peel(
                    self@.objects,
                    current@,
                    steps as nat,
                ),
            decreases steps,
        {
            let raw = match self.read_raw_object(current.as_str()) {
                Err(e) => {
                    return Err(e);
                },
                Ok(None) => {
                    return Ok(current);
                },
                Ok(Some(raw)) => raw,
            };
            if !raw.metadata().kind.same_kind(&ObjectKind::Tag) {
                return Ok(current);
            }
            let next = match read_stored(&raw) {
                Err(f) => {
                    return Err(error_of(f));
                },
                Ok(StoredObject::Tag(tag)) => match tag.target() {
                    Err(_) => {
                        return Err(error_of(Fault::NoTarget));
                    },
                    Ok(id) => id,
                },
                Ok(_) => {
                    return Err(error_of(Fault::NoTarget));
                },
            };
            if steps == 0 {
                return Err(error_of(Fault::Endless));
            }
            steps = steps - 1;
            current = next;
        }
    }

    /// The object of a kind that an object leads to.
    fn follow_to_kind(&self, object_id: String, kind: &ObjectKind, follow_tags: bool) -> (r: Result<
        String,
        RepoError,
    >)
        ensures
            match r {
                Ok(id) => follow(
                    self@.objects,
                    object_id@,
                    kind@,
                    follow_tags,
                    STEP_LIMIT as nat,
                ) == Ok::<Seq<char>, Fault>(id@),
                Err(RepoError::Store(_)) => !self.reliable(),
                Err(e) => follow(
                    self@.objects,
                    object_id@,
                    kind@,
                    follow_tags,
                    STEP_LIMIT as nat,
                ) matches Err(f) && fault_error(e, f),
            },
    {
        let mut current = object_id;
        let mut steps: u64 = STEP_LIMIT;
        loop
            invariant
                follow(self@.objects, object_id@, kind@, follow_tags, STEP_LIMIT as nat) == follow(
                    self@.objects,
                    current@,
                    kind@,
                    follow_tags,
                    steps as nat,
                ),
            decreases steps,
        {
            let raw = match self.read_raw_object(current.as_str()) {
                Err(e) => {
                    return Err(e);
                },
                Ok(None) => {
                    return Err(error_of(Fault::NotFound));
                },
                Ok(Some(raw)) => raw,
            };
            if raw.metadata().kind.same_kind(kind) {
                return Ok(current);
            }
            if !follow_tags {
                return Err(error_of(Fault::NotFound));
            }
            let stored = match read_stored(&raw) {
                Err(f) => {
                    return Err(error_of(f));
                },
                Ok(o) => o,
            };
            let next = match linked_object(&stored, kind) {
                Err(f) => {
                    return Err(error_of(f));
                },
                Ok(id) => id,
            };
            if steps == 0 {
                return Err(error_of(Fault::Endless));
            }
            steps = steps - 1;
            current = next;
        }
    }
}

/// Whether a result is that of looking for the object that a name stands for.
pub open spec fn find_result(
    repo: RepoView,
    name: Seq<char>,
    kind: Option<KindView>,
    follow_tags: bool,
    reliable: bool,
    r: Result<String, RepoError>,
) -> bool {
    match r {
        Ok(found) => (trim(name) == "HEAD"@ ==> head_valid(repo)) && exists|id: Seq<char>| #[trigger]
            is_sole_candidate(repo, name, id) && resolved(repo.objects, id, kind, follow_tags)
                == Ok::<Seq<char>, Fault>(found@),
        Err(RepoError::Store(_)) => !reliable,
        Err(RepoError::Name(_)) => trim(name) == "HEAD"@ && !head_valid(repo),
        Err(RepoError::MissingHead) => false,
        Err(RepoError::Find(FindObjectError { candidates: Some(ids) })) => ids@.len() > 1
            && lists_candidates(texts(ids@), repo, name),
        Err(e) => {
            ||| fault_error(e, Fault::NotFound) && forall|id: Seq<char>|
                !is_candidate(repo, name, id)
            ||| exists|id: Seq<char>| #[trigger]
                is_sole_candidate(repo, name, id) && (resolved(
                    repo.objects,
                    id,
                    kind,
                    follow_tags,
                ) matches Err(f) && fault_error(e, f))
        },
    }
}

/// Where a name can stand for one object only, looking for it gives what that object leads to, or
/// tells why it leads nowhere.
pub proof fn theorem_sole_candidate_is_found(
    repo: RepoView,
    name: Seq<char>,
    kind: Option<KindView>,
    follow_tags: bool,
    r: Result<String, RepoError>,
    id: Seq<char>,
)
    requires
        find_result(repo, name, kind, follow_tags, true, r),
        is_sole_candidate(repo, name, id),
        head_valid(repo),
    ensures
        match resolved(repo.objects, id, kind, follow_tags) {
            Ok(found) => r matches Ok(x) && x@ == found,
            Err(f) => r matches Err(e) && fault_error(e, f),
        },
{
    assert(is_candidate(repo, name, id));
    if let Err(RepoError::Find(FindObjectError { candidates: Some(ids) })) = r {
        let list = texts(ids@);
        assert(list.len() == ids@.len());
        if ids@.len() > 1 && lists_candidates(list, repo, name) {
            assert(list.contains(list[0]) && list.contains(list[1]));
            assert(is_candidate(repo, name, list[0]));
            assert(is_candidate(repo, name, list[1]));
        }
    }
}

/// Whether one of a list of branches leads directly to an object.
spec fn some_leads_to(refs: RefMap, branches: Seq<BranchView>, id: Seq<char>) -> bool {
    exists|k: int|
        0 <= k < branches.len() && leads_to(refs, RefView::Branch(#[trigger] branches[k]), id)
}

proof fn lemma_some_leads_next(refs: RefMap, branches: Seq<BranchView>, i: int, id: Seq<char>)
    requires
        0 <= i < branches.len(),
    ensures
        some_leads_to(refs, branches.take(i + 1), id) <==> some_leads_to(
            refs,
            branches.take(i),
            id,
        ) || leads_to(refs, RefView::Branch(branches[i]), id),
{
    let a = branches.take(i);
    let b = branches.take(i + 1);
    if some_leads_to(refs, b, id) {
        let k = choose|k: int|
            0 <= k < b.len() && leads_to(refs, RefView::Branch(#[trigger] b[k]), id);
        if k < i {
            assert(a[k] == b[k]);
        }
    }
    if some_leads_to(refs, a, id) {
        let k = choose|k: int|
            0 <= k < a.len() && leads_to(refs, RefView::Branch(#[trigger] a[k]), id);
        assert(b[k] == a[k]);
    }
    assert(b[i] == branches[i]);
}

pub(crate) proof fn lemma_is_stored_next(objects: Seq<ObjectMap>, i: int, id: Seq<char>)
    requires
        0 <= i < objects.len(),
    ensures
        is_stored(objects.take(i + 1), id) <==> is_stored(objects.take(i), id)
            || objects[i].contains_key(id),
{
    let a = objects.take(i);
    let b = objects.take(i + 1);
    if is_stored(b, id) {
        let k = choose|k: int| 0 <= k < b.len() && (#[trigger] b[k]).contains_key(id);
        if k < i {
            assert(a[k].contains_key(id));
        }
    }
    if is_stored(a, id) {
        let k = choose|k: int| 0 <= k < a.len() && (#[trigger] a[k]).contains_key(id);
        assert(b[k].contains_key(id));
    }
    assert(b[i] == objects[i]);
}

/// Adds a text to a list that does not hold it yet.
pub(crate) fn add_once(list: &mut Vec<String>, s: String)
    requires
        texts(old(list)@).no_duplicates(),
    ensures
        texts(final(list)@).no_duplicates(),
        forall|t: Seq<char>| #[trigger]
            texts(final(list)@).contains(t) <==> texts(old(list)@).contains(t) || t == s@,
{
    let ghost before = texts(list@);
    if !is_listed(list.as_slice(), s.as_str()) {
        list.push(s);
        proof {
            let after = texts(list@);
            assert(after =~= before.push(s@));
            assert forall|t: Seq<char>| #[trigger] after.contains(t) <==> before.contains(t) || t
                == s@ by {
                if before.contains(t) {
                    let k = choose|k: int| 0 <= k < before.len() && before[k] == t;
                    assert(after[k] == t);
                }
                assert(after[before.len() as int] == s@);
            }
        }
    }
}

/// Adds those texts to a list that it does not hold yet.
fn add_all_once(list: &mut Vec<String>, items: Vec<String>)
    requires
        texts(old(list)@).no_duplicates(),
    ensures
        texts(final(list)@).no_duplicates(),
        forall|t: Seq<char>| #[trigger]
            texts(final(list)@).contains(t) <==> texts(old(list)@).contains(t) || texts(
                items@,
            ).contains(t),
{
    let ghost before = texts(list@);
    let ghost all = texts(items@);
    let mut i: usize = 0;
    while i < items.len()
        invariant
            i <= items@.len(),
            all == texts(items@),
            texts(list@).no_duplicates(),
            forall|t: Seq<char>| #[trigger]
                texts(list@).contains(t) <==> before.contains(t) || all.take(i as int).contains(t),
        decreases items@.len() - i,
    {
        let ghost sofar = texts(list@);
        add_once(list, items[i].clone());
        proof {
            assert(all.take(i + 1) =~= all.take(i as int).push(all[i as int]));
            assert forall|t: Seq<char>| #[trigger]
                texts(list@).contains(t) <==> before.contains(t) || all.take(i + 1).contains(t) by {
                assert(sofar.contains(t) <==> before.contains(t) || all.take(i as int).contains(t));
                let next = all.take(i + 1);
                if all.take(i as int).contains(t) {
                    let k = choose|k: int| 0 <= k < i && all.take(i as int)[k] == t;
                    assert(next[k] == t);
                }
                assert(next[i as int] == all[i as int]);
            }
        }
        i = i + 1;
    }
    assert(all.take(i as int) =~= all);
}

/// Reads the contents of an object.
pub fn read_stored(raw: &RawObject) -> (r: Result<StoredObject, Fault>)
    ensures
        match r {
            Ok(o) => stored_view(raw.content@) == Ok::<StoredView, Fault>(o@),
            Err(f) => stored_view(raw.content@) == Err::<StoredView, Fault>(f),
        },
{
    if !raw.can_read() {
        return Err(Fault::Unreadable);
    }
    match raw.to_stored_object() {
        Ok(o) => Ok(o),
        Err(e) => Err(Fault::Object(e)),
    }
}

/// The object that another one leads to when an object of a kind is looked for.
pub fn linked_object(stored: &StoredObject, kind: &ObjectKind) -> (r: Result<String, Fault>)
    ensures
        match r {
            Ok(id) => next_object(stored@, kind@) == Ok::<Seq<char>, Fault>(id@),
            Err(f) => next_object(stored@, kind@) == Err::<Seq<char>, Fault>(f),
        },
{
    match stored {
        StoredObject::Tag(tag) => match tag.target() {
            Ok(id) => Ok(id),
            Err(_) => Err(Fault::NoTarget),
        },
        StoredObject::Commit(commit) => match kind {
            ObjectKind::Tree => match commit.tree() {
                Ok(id) => Ok(id),
                Err(_) => Err(Fault::NoTree),
            },
            _ => Err(Fault::NotFound),
        },
        _ => Err(Fault::NotFound),
    }
}

} // verus!
