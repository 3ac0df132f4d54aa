//! The references of a repository.

use vstd::prelude::*;
use vstd::utf8::encode_utf8;

use crate::config::{ini_contents, opt_branch, mapped_branch, tracking_branch};
use crate::encoding::lemma_decode_encode;
use crate::ref_log::full_id;
use crate::repo::model::{
    current_commit_id, head_branch, head_valid, local_branch, RepoView,
};
use crate::repo::{RepoError, Repository};
use crate::sorting::{
    bytes_before, bytes_lt, in_order, key_lt, key_of, sort_items, stable_sort, theorem_stable_sort,
    Keyed, SortKey,
};
use crate::stores::backends::{branch_views, lists_refs, ObjectStore, RefMap, RefStore, StoreError};
use crate::stores::{
    branch_text, parse_ref, parse_target, ref_text, target_text, BranchLocation, BranchSpec,
    BranchView, LocationView, RefSpec, RefTarget, RefView, TargetView,
};
use crate::text::{is_white, starts_with, trim, trim_start};

verus! {

broadcast use vstd::string::group_string_axioms;

/// References by their names, and what they lead to.
pub type RefTargets = indexmap::IndexMap<String, RefTarget>;

/// The names in a map of references in order, each with what it leads to.
pub uninterp spec fn ref_entries(m: indexmap::IndexMap<String, RefTarget>) -> Seq<
    (Seq<char>, TargetView),
>;

/// Whether a list of references holds a name.
pub open spec fn lists_name(list: Seq<(Seq<char>, TargetView)>, name: Seq<char>) -> bool {
    exists|i: int| 0 <= i < list.len() && (#[trigger] list[i]).0 == name
}

/// A list of references with the target of one set, which comes last where it is new.
pub open spec fn with_target(
    list: Seq<(Seq<char>, TargetView)>,
    name: Seq<char>,
    target: TargetView,
) -> Seq<(Seq<char>, TargetView)> {
    if lists_name(list, name) {
        list.update(name_index(list, name), (name, target))
    } else {
        list.push((name, target))
    }
}

/// Where a list of references holds a name.
pub open spec fn name_index(list: Seq<(Seq<char>, TargetView)>, name: Seq<char>) -> int {
    choose|i: int| 0 <= i < list.len() && (#[trigger] list[i]).0 == name
}

/// `indexmap::IndexMap::new` makes a map without keys.
#[verifier::external_body]
fn new_ref_targets() -> (r: RefTargets)
    ensures
        ref_entries(r) == Seq::<(Seq<char>, TargetView)>::empty(),
{
    indexmap::IndexMap::new()
}

/// `indexmap::IndexMap::insert` sets the value of a key: in its place where it is in the map,
/// and otherwise last.
#[verifier::external_body]
fn set_ref_target(m: &mut RefTargets, name: String, target: RefTarget)
    ensures
        ref_entries(*final(m)) == with_target(ref_entries(*old(m)), name@, target@),
{
    m.insert(name, target);
}

/// The names and targets of a list.
pub open spec fn target_list_view(v: Seq<(String, RefTarget)>) -> Seq<(Seq<char>, TargetView)> {
    Seq::new(v.len(), |i: int| (v[i].0@, v[i].1@))
}

/// `indexmap::IndexMap::iter` goes through the keys and values in order.
#[verifier::external_body]
pub(crate) fn list_ref_targets(m: &RefTargets) -> (r: Vec<(String, RefTarget)>)
    ensures
        target_list_view(r@) == ref_entries(*m),
{
    m.iter().map(|(k, v)| (k.clone(), v.clone())).collect()
}

/// Whether a list of references holds what a map of them leads to, each name once; of the
/// references that are wanted.
pub open spec fn lists_targets(
    list: Seq<(Seq<char>, TargetView)>,
    refs: RefMap,
    wanted: spec_fn(RefView) -> bool,
) -> bool {
    &&& forall|i: int, j: int|
        0 <= i < j < list.len() ==> (#[trigger] list[i]).0 != (#[trigger] list[j]).0
    &&& forall|i: int|
        0 <= i < list.len() ==> is_target(refs, wanted, (#[trigger] list[i]).0, list[i].1)
    &&& forall|r: RefView|
        wanted(r) && #[trigger] refs.contains_key(r) ==> lists_name(list, ref_text(r))
}

/// Whether a name is that of a reference that is wanted and leads to a target.
pub open spec fn is_target(
    refs: RefMap,
    wanted: spec_fn(RefView) -> bool,
    name: Seq<char>,
    target: TargetView,
) -> bool {
    exists|r: RefView| #[trigger]
        refs.contains_key(r) && wanted(r) && ref_text(r) == name && refs[r] == target
}

/// All references are wanted.
pub open spec fn any_ref() -> spec_fn(RefView) -> bool {
    |r: RefView| true
}

/// Only tags are wanted.
pub open spec fn only_tags() -> spec_fn(RefView) -> bool {
    |r: RefView| r is Tag
}

/// Whether the names of a list of references are sorted.
pub open spec fn names_sorted(list: Seq<(Seq<char>, TargetView)>) -> bool {
    forall|i: int, j: int|
        0 <= i < j < list.len() ==> bytes_lt(
            encode_utf8((#[trigger] list[i]).0),
            encode_utf8((#[trigger] list[j]).0),
        )
}

struct NamedTarget {
    name: String,
    target: RefTarget,
}

impl Keyed for NamedTarget {
    closed spec fn sort_key(&self) -> SortKey {
        (encode_utf8(self.name@), Seq::empty(), 0)
    }

    fn before(&self, other: &Self) -> (r: bool) {
        proof {
            crate::sorting::lemma_bytes_irreflexive(Seq::<u8>::empty());
        }
        bytes_before(self.name.as_str().as_bytes(), other.name.as_str().as_bytes())
    }
}

proof fn lemma_with_target(
    list: Seq<(Seq<char>, TargetView)>,
    name: Seq<char>,
    target: TargetView,
)
    ensures
        forall|n: Seq<char>| #[trigger]
            lists_name(with_target(list, name, target), n) <==> lists_name(list, n) || n == name,
{
    let after = with_target(list, name, target);
    let at = name_index(list, name);
    assert forall|n: Seq<char>| #[trigger] lists_name(after, n) <==> lists_name(list, n) || n
        == name by {
        if lists_name(after, n) {
            let i = choose|i: int| 0 <= i < after.len() && (#[trigger] after[i]).0 == n;
            if i < list.len() && after[i].0 != name {
                assert(list[i].0 == n);
            }
        }
        if lists_name(list, n) {
            let i = choose|i: int| 0 <= i < list.len() && (#[trigger] list[i]).0 == n;
            assert(after[i].0 == n);
        }
        if n == name {
            if lists_name(list, name) {
                assert(after[at].0 == name);
            } else {
                assert(after[list.len() as int].0 == name);
            }
        }
    }
}

impl<L: ObjectStore, P: ObjectStore, R: RefStore> Repository<L, P, R> {
    /// The references and what they lead to, sorted by their names.
    pub fn ref_list(&self) -> (r: Result<RefTargets, StoreError>)
        ensures
            match r {
                Ok(m) => lists_targets(ref_entries(m), self@.refs, any_ref()) && names_sorted(
                    ref_entries(m),
                ),
                Err(_) => !self.reliable(),
            },
    {
        let list = match self.ref_store.all_ref_targets() {
            Err(e) => {
                return Err(e);
            },
            Ok(list) => list,
        };
        let ghost refs = self@.refs;
        let mut named: Vec<NamedTarget> = Vec::new();
        let mut i: usize = 0;
        while i < list.len()
            invariant
                i <= list@.len(),
                named@.len() == i,
                forall|j: int|
                    0 <= j < i ==> (#[trigger] named@[j]).name@ == ref_text(list@[j]@.spec)
                        && named@[j].target@ == list@[j]@.target,
            decreases list@.len() - i,
        {
            named.push(
                NamedTarget { name: list[i].spec.to_string(), target: list[i].target.clone() },
            );
            i = i + 1;
        }
        let ghost before = named@;
        sort_items(&mut named);
        proof {
            theorem_stable_sort(before);
            assert forall|j: int| 0 <= j < named@.len() implies is_target(
                refs,
                any_ref(),
                (#[trigger] named@[j]).name@,
                named@[j].target@,
            ) by {
                vstd::seq_lib::to_multiset_contains(named@, named@[j]);
                vstd::seq_lib::to_multiset_contains(before, named@[j]);
                assert(named@.contains(named@[j]));
                let k = choose|k: int| 0 <= k < before.len() && before[k] == named@[j];
                assert(refs.contains_key(list@[k]@.spec));
            }
        }
        let mut result = new_ref_targets();
        let mut k: usize = 0;
        while k < named.len()
            invariant
                k <= named@.len(),
                in_order(named@, key_of::<NamedTarget>()),
                forall|j: int|
                    0 <= j < named@.len() ==> is_target(
                        refs,
                        any_ref(),
                        (#[trigger] named@[j]).name@,
                        named@[j].target@,
                    ),
                names_sorted(ref_entries(result)),
                forall|j: int|
                    0 <= j < ref_entries(result).len() ==> is_target(
                        refs,
                        any_ref(),
                        (#[trigger] ref_entries(result)[j]).0,
                        ref_entries(result)[j].1,
                    ),
                forall|n: Seq<char>| #[trigger]
                    lists_name(ref_entries(result), n) <==> exists|j: int|
                        0 <= j < k && (#[trigger] named@[j]).name@ == n,
            decreases named@.len() - k,
        {
            let ghost sofar = ref_entries(result);
            let name = named[k].name.clone();
            proof {
                lemma_with_target(sofar, name@, named@[k as int].target@);
                assert forall|j: int| 0 <= j < sofar.len() && !lists_name(
                    sofar,
                    name@,
                ) implies bytes_lt(encode_utf8((#[trigger] sofar[j]).0), encode_utf8(name@)) by {
                    assert(lists_name(sofar, sofar[j].0));
                    let m = choose|m: int| 0 <= m < k && (#[trigger] named@[m]).name@ == sofar[j].0;
                    let key = key_of::<NamedTarget>();
                    assert(!key_lt(key(named@[k as int]), key(named@[m])));
                    assert(named@[k as int].sort_key() == key(named@[k as int]));
                    assert(named@[m].sort_key() == key(named@[m]));
                    lemma_decode_encode(sofar[j].0);
                    lemma_decode_encode(name@);
                    crate::sorting::lemma_bytes_total(
                        encode_utf8(sofar[j].0),
                        encode_utf8(name@),
                    );
                }
            }
            set_ref_target(&mut result, name, named[k].target.clone());
            proof {
                let after = ref_entries(result);
                let at = name_index(sofar, name@);
                assert forall|n: Seq<char>| #[trigger]
                    lists_name(after, n) <==> exists|j: int|
                        0 <= j < k + 1 && (#[trigger] named@[j]).name@ == n by {
                    assert(lists_name(sofar, n) <==> exists|j: int|
                        0 <= j < k && (#[trigger] named@[j]).name@ == n);
                    if n == name@ {
                        assert(named@[k as int].name@ == n);
                    }
                }
                assert(is_target(refs, any_ref(), name@, named@[k as int].target@));
                assert forall|j: int| 0 <= j < after.len() implies is_target(
                    refs,
                    any_ref(),
                    (#[trigger] after[j]).0,
                    after[j].1,
                ) by {
                    if j < sofar.len() {
                        assert(is_target(refs, any_ref(), sofar[j].0, sofar[j].1));
                    }
                }
                assert forall|i: int, j: int| 0 <= i < j < after.len() implies bytes_lt(
                    encode_utf8((#[trigger] after[i]).0),
                    encode_utf8((#[trigger] after[j]).0),
                ) by {
                    assert(after[i].0 == sofar[i].0);
                    if j < sofar.len() {
                        assert(after[j].0 == sofar[j].0);
                    }
                }
            }
            k = k + 1;
        }
        proof {
            let entries = ref_entries(result);
            assert forall|i: int, j: int| 0 <= i < j < entries.len() implies (
            #[trigger] entries[i]).0 != (#[trigger] entries[j]).0 by {
                crate::sorting::lemma_bytes_irreflexive(encode_utf8(entries[i].0));
            }
            assert forall|r: RefView|
                any_ref()(r) && #[trigger] refs.contains_key(r) implies lists_name(
                entries,
                ref_text(r),
            ) by {
                let m = choose|m: int| 0 <= m < list@.len() && (#[trigger] list@[m])@.spec == r;
                assert(before[m].name@ == ref_text(r));
                vstd::seq_lib::to_multiset_contains(named@, before[m]);
                vstd::seq_lib::to_multiset_contains(before, before[m]);
                assert(before.contains(before[m]));
                let j = choose|j: int| 0 <= j < named@.len() && named@[j] == before[m];
                assert(named@[j].name@ == ref_text(r));
            }
        }
        Ok(result)
    }

    /// The tags and what they lead to.
    pub fn tag_list(&self) -> (r: Result<RefTargets, StoreError>)
        ensures
            match r {
                Ok(m) => lists_targets(ref_entries(m), self@.refs, only_tags()),
                Err(_) => !self.reliable(),
            },
    {
        let list = match self.ref_store.all_ref_targets() {
            Err(e) => {
                return Err(e);
            },
            Ok(list) => list,
        };
        let ghost refs = self@.refs;
        let mut result = new_ref_targets();
        let mut k: usize = 0;
        while k < list.len()
            invariant
                k <= list@.len(),
                lists_refs(list@, refs),
                forall|i: int, j: int|
                    0 <= i < j < ref_entries(result).len() ==> (
                    #[trigger] ref_entries(result)[i]).0 != (
                    #[trigger] ref_entries(result)[j]).0,
                forall|j: int|
                    0 <= j < ref_entries(result).len() ==> is_target(
                        refs,
                        only_tags(),
                        (#[trigger] ref_entries(result)[j]).0,
                        ref_entries(result)[j].1,
                    ),
                forall|j: int|
                    0 <= j < k && (#[trigger] list@[j])@.spec is Tag ==> lists_name(
                        ref_entries(result),
                        ref_text(list@[j]@.spec),
                    ),
            decreases list@.len() - k,
        {
            let ghost sofar = ref_entries(result);
            let is_tag = match &list[k].spec {
                RefSpec::Tag(_) => true,
                _ => false,
            };
            if is_tag {
                let name = list[k].spec.to_string();
                proof {
                    lemma_with_target(sofar, name@, list@[k as int]@.target);
                    assert(refs.contains_key(list@[k as int]@.spec));
                    assert(is_target(refs, only_tags(), name@, list@[k as int]@.target));
                }
                set_ref_target(&mut result, name, list[k].target.clone());
                proof {
                    let after = ref_entries(result);
                    let at = name_index(sofar, name@);
                    assert forall|i: int, j: int| 0 <= i < j < after.len() implies (
                    #[trigger] after[i]).0 != (#[trigger] after[j]).0 by {
                        assert(after[i].0 == sofar[i].0);
                        if j < sofar.len() {
                            assert(after[j].0 == sofar[j].0);
                        } else {
                            assert(!lists_name(sofar, name@));
                        }
                    }
                    assert forall|j: int| 0 <= j < after.len() implies is_target(
                        refs,
                        only_tags(),
                        (#[trigger] after[j]).0,
                        after[j].1,
                    ) by {
                        if j < sofar.len() {
                            assert(is_target(refs, only_tags(), sofar[j].0, sofar[j].1));
                        }
                    }
                }
            }
            k = k + 1;
        }
        proof {
            let entries = ref_entries(result);
            assert forall|r: RefView|
                only_tags()(r) && #[trigger] refs.contains_key(r) implies lists_name(
                entries,
                ref_text(r),
            ) by {
                let m = choose|m: int| 0 <= m < list@.len() && (#[trigger] list@[m])@.spec == r;
                assert(list@[m]@.spec is Tag);
            }
        }
        Ok(result)
    }
}

/// Whether a list holds the branches of a repository, and the one that `HEAD` names even where
/// it does not exist yet; each once, and sorted.
pub open spec fn lists_branches(list: Seq<BranchSpec>, repo: RepoView) -> bool {
    &&& in_order(list, key_of::<BranchSpec>())
    &&& branch_views(list).no_duplicates()
    &&& forall|b: BranchView| #[trigger]
        branch_views(list).contains(b) <==> repo.refs.contains_key(RefView::Branch(b))
            || head_branch(repo) == Ok::<Option<BranchView>, bool>(Some(b))
}

fn branch_listed(list: &[BranchSpec], b: &BranchSpec) -> (r: bool)
    ensures
        r == branch_views(list@).contains(b@),
{
    let mut i: usize = 0;
    while i < list.len()
        invariant
            i <= list@.len(),
            forall|j: int| 0 <= j < i ==> (#[trigger] list@[j])@ != b@,
        decreases list@.len() - i,
    {
        if list[i].same_branch(b) {
            assert(branch_views(list@)[i as int] == b@);
            return true;
        }
        i = i + 1;
    }
    assert(!branch_views(list@).contains(b@)) by {
        if branch_views(list@).contains(b@) {
            let j = choose|j: int| 0 <= j < list@.len() && branch_views(list@)[j] == b@;
            assert(list@[j]@ == b@);
        }
    }
    false
}

proof fn lemma_branch_pushed(list: Seq<BranchSpec>, b: BranchSpec)
    ensures
        forall|x: BranchView| #[trigger]
            branch_views(list.push(b)).contains(x) <==> branch_views(list).contains(x) || x == b@,
        !branch_views(list).contains(b@) && branch_views(list).no_duplicates() ==> branch_views(
            list.push(b),
        ).no_duplicates(),
{
    let before = branch_views(list);
    let after = branch_views(list.push(b));
    assert(after =~= before.push(b@));
    assert forall|x: BranchView| #[trigger] after.contains(x) <==> before.contains(x) || x
        == b@ by {
        if before.contains(x) {
            let k = choose|k: int| 0 <= k < before.len() && before[k] == x;
            assert(after[k] == x);
        }
        assert(after[before.len() as int] == b@);
    }
}

spec fn branch_view() -> spec_fn(BranchSpec) -> BranchView {
    |b: BranchSpec| b@
}

proof fn lemma_branches_sorted(before: Seq<BranchSpec>)
    requires
        branch_views(before).no_duplicates(),
    ensures
        branch_views(stable_sort(before)).no_duplicates(),
        forall|b: BranchView| #[trigger]
            branch_views(stable_sort(before)).contains(b) <==> branch_views(before).contains(b),
{
    let after = stable_sort(before);
    crate::sorting::lemma_sort_map_multiset(before, branch_view(), key_of::<BranchSpec>());
    let a = branch_views(before);
    let b = branch_views(after);
    assert(a =~= before.map_values(branch_view()));
    assert(b =~= after.map_values(branch_view()));
    a.lemma_multiset_has_no_duplicates();
    b.lemma_multiset_has_no_duplicates_conv();
    assert forall|x: BranchView| #[trigger] b.contains(x) <==> a.contains(x) by {
        vstd::seq_lib::to_multiset_contains(a, x);
        vstd::seq_lib::to_multiset_contains(b, x);
    }
}

impl<L: ObjectStore, P: ObjectStore, R: RefStore> Repository<L, P, R> {
    fn stored_branches(&self) -> (r: Result<Vec<BranchSpec>, StoreError>)
        ensures
            match r {
                Ok(list) => branch_views(list@).no_duplicates() && forall|b: BranchView| #[trigger]
                    branch_views(list@).contains(b) <==> self@.refs.contains_key(
                        RefView::Branch(b),
                    ),
                Err(_) => !self.reliable(),
            },
    {
        let list = match self.ref_store.all_ref_targets() {
            Err(e) => {
                return Err(e);
            },
            Ok(list) => list,
        };
        let ghost refs = self@.refs;
        let mut out: Vec<BranchSpec> = Vec::new();
        let mut k: usize = 0;
        while k < list.len()
            invariant
                k <= list@.len(),
                lists_refs(list@, refs),
                branch_views(out@).no_duplicates(),
                forall|b: BranchView| #[trigger]
                    branch_views(out@).contains(b) <==> exists|j: int|
                        0 <= j < k && (#[trigger] list@[j])@.spec == RefView::Branch(b),
            decreases list@.len() - k,
        {
            let ghost before = out@;
            if let RefSpec::Branch(b) = &list[k].spec {
                let copy = b.clone();
                proof {
                    lemma_branch_pushed(before, copy);
                    if branch_views(before).contains(copy@) {
                        let j = choose|j: int|
                            0 <= j < k && (#[trigger] list@[j])@.spec == RefView::Branch(copy@);
                        assert(list@[j]@.spec != list@[k as int]@.spec);
                    }
                }
                out.push(copy);
            }
            proof {
                assert forall|b: BranchView| #[trigger]
                    branch_views(out@).contains(b) <==> exists|j: int|
                        0 <= j < k + 1 && (#[trigger] list@[j])@.spec == RefView::Branch(b) by {
                    assert(branch_views(before).contains(b) <==> exists|j: int|
                        0 <= j < k && (#[trigger] list@[j])@.spec == RefView::Branch(b));
                    if list@[k as int]@.spec == RefView::Branch(b) {
                        assert(branch_views(out@).contains(b));
                    }
                }
            }
            k = k + 1;
        }
        proof {
            assert forall|b: BranchView| #[trigger]
                branch_views(out@).contains(b) <==> refs.contains_key(RefView::Branch(b)) by {
                if branch_views(out@).contains(b) {
                    let j = choose|j: int|
                        0 <= j < k && (#[trigger] list@[j])@.spec == RefView::Branch(b);
                    assert(refs.contains_key(list@[j]@.spec));
                }
                if refs.contains_key(RefView::Branch(b)) {
                    let j = choose|j: int|
                        0 <= j < list@.len() && (#[trigger] list@[j])@.spec == RefView::Branch(b);
                }
            }
        }
        Ok(out)
    }

    /// The branches, and the current one even where it does not exist yet, sorted.
    pub fn branches(&self) -> (r: Result<Vec<BranchSpec>, RepoError>)
        ensures
            match r {
                Ok(list) => head_branch(self@) is Ok && lists_branches(list@, self@),
                Err(RepoError::Store(_)) => !self.reliable(),
                Err(RepoError::MissingHead) => head_branch(self@) == Err::<
                    Option<BranchView>,
                    bool,
                >(false),
                Err(RepoError::Name(_)) => head_branch(self@) == Err::<Option<BranchView>, bool>(
                    true,
                ),
                Err(_) => false,
            },
    {
        let mut list = match self.stored_branches() {
            Err(e) => {
                return Err(RepoError::Store(e));
            },
            Ok(list) => list,
        };
        match self.current_branch() {
            Err(e) => {
                return Err(e);
            },
            Ok(None) => {},
            Ok(Some(b)) => {
                proof {
                    lemma_branch_pushed(list@, b);
                }
                if !branch_listed(list.as_slice(), &b) {
                    list.push(b);
                }
            },
        }
        let ghost before = list@;
        sort_items(&mut list);
        proof {
            theorem_stable_sort(before);
            lemma_branches_sorted(before);
        }
        Ok(list)
    }

    /// Whether there is a local branch of a name.
    pub fn is_branch_name(&self, query_name: &str) -> (r: Result<bool, StoreError>)
        ensures
            match r {
                Ok(b) => b == self@.refs.contains_key(local_branch(query_name@)),
                Err(_) => !self.reliable(),
            },
    {
        self.ref_store.is_existing_ref(
            &BranchSpec::new(query_name, BranchLocation::Local).into_ref_spec(),
        )
    }

    /// Whether some remote has a branch of a name.
    pub fn is_remote_branch_name(&self, query_name: &str) -> (r: Result<bool, StoreError>)
        ensures
            match r {
                Ok(b) => b == (exists|x: BranchView|
                    x.location is Remote && x.name == query_name@
                        && #[trigger] self@.refs.contains_key(RefView::Branch(x))),
                Err(_) => !self.reliable(),
            },
    {
        match self.ref_store.search_remotes_for_branch(query_name) {
            Err(e) => Err(e),
            Ok(list) => {
                proof {
                    let views = branch_views(list@);
                    if list@.len() > 0 {
                        assert(views.contains(views[0]));
                        assert(self@.refs.contains_key(RefView::Branch(views[0])));
                    } else {
                        assert forall|x: BranchView|
                            !(x.location is Remote && x.name == query_name@
                                && #[trigger] self@.refs.contains_key(RefView::Branch(x))) by {
                            assert(!views.contains(x));
                        }
                    }
                }
                Ok(list.len() > 0)
            },
        }
    }

    /// What a reference leads to; nothing where it does not exist.
    pub fn resolve_ref(&self, ref_spec: &RefSpec) -> (r: Result<Option<RefTarget>, StoreError>)
        ensures
            match r {
                Ok(Some(t)) => self@.refs.contains_key(ref_spec@) && t@ == self@.refs[ref_spec@],
                Ok(None) => !self@.refs.contains_key(ref_spec@),
                Err(_) => !self.reliable(),
            },
    {
        self.ref_store.resolve_target(ref_spec)
    }

    /// The branch of a remote that the settings of the repository map the current branch to;
    /// nothing where there is no current branch, or it is not mapped.
    pub fn current_remote_tracking_branch(&self, config: &ini::Ini) -> (r: Result<
        Option<BranchSpec>,
        RepoError,
    >)
        ensures
            match r {
                Ok(b) => match head_branch(self@) {
                    Ok(Some(current)) => opt_branch(b) == mapped_branch(
                        ini_contents(*config),
                        current.name,
                    ),
                    Ok(None) => b is None,
                    Err(_) => false,
                },
                Err(RepoError::MissingHead) => head_branch(self@) == Err::<
                    Option<BranchView>,
                    bool,
                >(false),
                Err(RepoError::Name(_)) => head_branch(self@) == Err::<Option<BranchView>, bool>(
                    true,
                ),
                Err(_) => false,
            },
    {
        match self.current_branch() {
            Err(e) => Err(e),
            Ok(None) => Ok(None),
            Ok(Some(b)) => Ok(tracking_branch(config, b.name.as_str())),
        }
    }

    /// Makes a reference, given by its path, lead to a target.
    pub fn create_ref(&mut self, name: &str, target_id: &str) -> (r: Result<(), RepoError>)
        ensures
            match r {
                Ok(_) => parse_ref(name@) is Some && parse_target(target_id@) is Some
                    && final(self)@.refs == old(self)@.refs.insert(
                    parse_ref(name@)->0,
                    parse_target(target_id@)->0,
                ),
                Err(RepoError::Name(_)) => (parse_ref(name@) is None || parse_target(
                    target_id@,
                ) is None) && *final(self) == *old(self),
                Err(RepoError::Store(_)) => parse_ref(name@) is Some && parse_target(
                    target_id@,
                ) is Some && !old(self).ref_store.accepts_writes(),
                Err(_) => false,
            },
            final(self).loose_object_store == old(self).loose_object_store,
            final(self).packs == old(self).packs,
            final(self).head == old(self).head,
            old(self).ref_store.accepts_writes() ==> final(self).ref_store.accepts_writes(),
    {
        let spec = match RefSpec::from_str(name) {
            Err(e) => {
                return Err(RepoError::Name(e));
            },
            Ok(spec) => spec,
        };
        let target = match RefTarget::from_str(target_id) {
            Err(e) => {
                return Err(RepoError::Name(e));
            },
            Ok(target) => target,
        };
        match self.ref_store.create_update_ref(&spec, &target) {
            Ok(_) => Ok(()),
            Err(e) => Err(RepoError::Store(e)),
        }
    }

    /// Makes a local branch lead to a commit, whether or not it exists yet.
    pub fn update_local_branch(&mut self, branch_name: &str, commit_id: &str) -> (r: Result<
        (),
        RepoError,
    >)
        ensures
            match r {
                Ok(_) => parse_target(commit_id@) is Some && final(self)@.refs
                    == old(self)@.refs.insert(
                    local_branch(branch_name@),
                    parse_target(commit_id@)->0,
                ),
                Err(RepoError::Name(_)) => parse_target(commit_id@) is None && *final(self)
                    == *old(self),
                Err(RepoError::Store(_)) => parse_target(commit_id@) is Some
                    && !old(self).ref_store.accepts_writes(),
                Err(_) => false,
            },
            final(self).loose_object_store == old(self).loose_object_store,
            final(self).packs == old(self).packs,
            final(self).head == old(self).head,
            old(self).ref_store.accepts_writes() ==> final(self).ref_store.accepts_writes(),
    {
        let target = match RefTarget::from_str(commit_id) {
            Err(e) => {
                return Err(RepoError::Name(e));
            },
            Ok(target) => target,
        };
        let spec = BranchSpec::new(branch_name, BranchLocation::Local).into_ref_spec();
        match self.ref_store.create_update_ref(&spec, &target) {
            Ok(_) => Ok(()),
            Err(e) => Err(RepoError::Store(e)),
        }
    }

    /// Makes a reference lead to a target, whether or not it exists yet.
    pub fn update_ref(&mut self, refspec: &RefSpec, target: &RefTarget) -> (r: Result<
        (),
        StoreError,
    >)
        ensures
            r is Ok ==> final(self)@.refs == old(self)@.refs.insert(refspec@, target@),
            r is Err ==> !old(self).ref_store.accepts_writes(),
            final(self).loose_object_store == old(self).loose_object_store,
            final(self).packs == old(self).packs,
            final(self).head == old(self).head,
            old(self).ref_store.accepts_writes() ==> final(self).ref_store.accepts_writes(),
    {
        self.ref_store.create_update_ref(refspec, target)
    }

    /// Deletes a reference, if it exists.
    pub fn delete_ref(&mut self, refspec: &RefSpec) -> (r: Result<(), StoreError>)
        ensures
            r is Ok ==> final(self)@.refs == old(self)@.refs.remove(refspec@),
            r is Err ==> !old(self).ref_store.accepts_writes(),
            final(self).loose_object_store == old(self).loose_object_store,
            final(self).packs == old(self).packs,
            final(self).head == old(self).head,
            old(self).ref_store.accepts_writes() ==> final(self).ref_store.accepts_writes(),
    {
        self.ref_store.delete_ref(refspec)
    }

    /// Makes `HEAD` name a branch.
    pub fn update_head(&mut self, branch_name: &str)
        ensures
            final(self)@ == (RepoView {
                head: Some("ref: refs/heads/"@ + branch_name@ + "\n"@),
                ..old(self)@
            }),
            final(self).loose_object_store == old(self).loose_object_store,
            final(self).packs == old(self).packs,
            final(self).ref_store == old(self).ref_store,
    {
        let target = crate::text::concat_texts("ref: refs/heads/", branch_name);
        self.update_head_detached(target.as_str());
    }

    /// Makes `HEAD` hold a commit.
    pub fn update_head_detached(&mut self, commit_id: &str)
        ensures
            final(self)@ == (RepoView { head: Some(commit_id@ + "\n"@), ..old(self)@ }),
            final(self).loose_object_store == old(self).loose_object_store,
            final(self).packs == old(self).packs,
            final(self).ref_store == old(self).ref_store,
    {
        self.head = Some(crate::text::concat_texts(commit_id, "\n"));
    }
}

proof fn lemma_trim_line(s: Seq<char>)
    requires
        s.len() > 0,
        !is_white(s[0]),
        !is_white(s.last()),
    ensures
        trim(s + "\n"@) == s,
        trim_start(s + "\n"@) == s + "\n"@,
{
    reveal_strlit("\n");
    let line = s + "\n"@;
    assert(line[0] == s[0]);
    assert(line.last() == '\n');
    assert(line.drop_last() =~= s);
    reveal_with_fuel(crate::text::trim_end, 2);
}

/// Where `HEAD` was made to name a branch, that branch is the current one, and the commit that
/// it leads to is the current one.
pub proof fn theorem_head_names_branch(repo: RepoView, name: Seq<char>)
    requires
        name.len() > 0,
        !is_white(name.last()),
        repo.head == Some("ref: refs/heads/"@ + name + "\n"@),
    ensures
        head_branch(repo) == Ok::<Option<BranchView>, bool>(
            Some(BranchView { location: LocationView::Local, name }),
        ),
        head_valid(repo),
        current_commit_id(repo) == if repo.refs.contains_key(local_branch(name)) {
            Some(target_text(repo.refs[local_branch(name)]))
        } else {
            None
        },
{
    reveal_strlit("ref: refs/heads/");
    reveal_strlit("ref: ");
    reveal_strlit("refs/heads");
    reveal_strlit("/");
    reveal_strlit("\n");
    let b = BranchView { location: LocationView::Local, name };
    let r = RefView::Branch(b);
    let text = repo.head->0;
    let line = "ref: refs/heads/"@ + name;
    assert(line =~= "ref: "@ + branch_text(b));
    assert(text =~= line + "\n"@);
    lemma_trim_line(line);
    assert(text.skip(5) =~= branch_text(b) + "\n"@);
    assert(branch_text(b)[0] == 'r');
    assert(branch_text(b).last() == name.last());
    lemma_trim_line(branch_text(b));
    crate::stores::theorem_branch_round_trip(b);
    assert(text.take(5) =~= "ref: "@);
    crate::stores::theorem_target_round_trip(TargetView::SymbolicRef(r));
    assert(line =~= target_text(TargetView::SymbolicRef(r)));
}

/// Where `HEAD` was made to hold a commit, that commit is the current one, and there is no
/// current branch.
pub proof fn theorem_head_holds_commit(repo: RepoView, id: Seq<char>)
    requires
        full_id(id),
        repo.head == Some(id + "\n"@),
    ensures
        head_branch(repo) == Ok::<Option<BranchView>, bool>(None),
        head_valid(repo),
        current_commit_id(repo) == Some(id),
{
    reveal_strlit("ref: ");
    reveal_strlit("\n");
    assert(crate::repo::is_lower_hex(id[0]));
    assert(crate::repo::is_lower_hex(id[39]));
    lemma_trim_line(id);
    let text = repo.head->0;
    assert(text[0] == id[0]);
    assert("ref: "@[0] == 'r');
    if starts_with(text, "ref: "@) {
        assert(text.take(5)[0] == text[0]);
    }
    if starts_with(id, "ref: "@) {
        assert(id.take(5)[0] == id[0]);
    }
}

} // verus!
