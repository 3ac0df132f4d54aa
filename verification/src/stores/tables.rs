//! Stores that hold their objects and references in memory.

use vstd::prelude::*;

use crate::objects::raw::{DataView, RawObject, RawObjectData};
use crate::stores::backends::{
    branch_views, lists_refs, with_object, ObjectMap, ObjectStore, RefMap, RefStore, StoreError,
};
use crate::stores::{BranchLocation, BranchSpec, BranchView, RefSpec, RefTarget, RefView, TargetedRef};
use crate::text::{chars_of, same_text, starts_with, text_starts_with, texts};

verus! {

broadcast use vstd::string::group_string_axioms;

/// Objects in memory.
pub struct ObjectTable {
    /// The objects, in the order in which they were added.
    pub items: Vec<RawObject>,
}

/// The objects of a list by their IDs; of two with the same ID the first one counts.
pub open spec fn object_map(s: Seq<RawObject>) -> ObjectMap
    decreases s.len(),
{
    if s.len() == 0 {
        Map::empty()
    } else {
        with_object(object_map(s.drop_last()), s.last().object_id@, s.last().content@)
    }
}

proof fn lemma_object_map_finite(s: Seq<RawObject>)
    ensures
        object_map(s).dom().finite(),
    decreases s.len(),
{
    if s.len() > 0 {
        lemma_object_map_finite(s.drop_last());
    }
}

/// Whether a list holds an object with the given ID.
spec fn holds_id(s: Seq<RawObject>, id: Seq<char>) -> bool {
    exists|i: int| 0 <= i < s.len() && (#[trigger] s[i]).object_id@ == id
}

proof fn lemma_object_map(s: Seq<RawObject>, id: Seq<char>)
    ensures
        object_map(s).contains_key(id) <==> holds_id(s, id),
    decreases s.len(),
{
    if s.len() > 0 {
        let before = s.drop_last();
        lemma_object_map(before, id);
        if holds_id(before, id) {
            let i = choose|i: int| 0 <= i < before.len() && (#[trigger] before[i]).object_id@ == id;
            assert(s[i].object_id@ == id);
        }
        if s.last().object_id@ == id {
            assert(s[s.len() - 1].object_id@ == id);
        }
        if holds_id(s, id) {
            let i = choose|i: int| 0 <= i < s.len() && (#[trigger] s[i]).object_id@ == id;
            if i < before.len() {
                assert(before[i].object_id@ == id);
            }
        }
    }
}

proof fn lemma_object_map_first(s: Seq<RawObject>, id: Seq<char>, i: int)
    requires
        0 <= i < s.len(),
        s[i].object_id@ == id,
        forall|j: int| 0 <= j < i ==> (#[trigger] s[j]).object_id@ != id,
    ensures
        object_map(s).contains_key(id),
        object_map(s)[id] == s[i].content@,
    decreases s.len(),
{
    let before = s.drop_last();
    if i < before.len() {
        assert forall|j: int| 0 <= j < i implies (#[trigger] before[j]).object_id@ != id by {
            assert(s[j].object_id@ != id);
        }
        lemma_object_map_first(before, id, i);
    } else {
        lemma_object_map(before, id);
        if holds_id(before, id) {
            let j = choose|j: int| 0 <= j < before.len() && (#[trigger] before[j]).object_id@ == id;
            assert(s[j].object_id@ == id);
        }
    }
}

impl ObjectTable {
    /// A store without objects.
    pub fn new() -> (r: Self)
        ensures
            r.objects() == Map::<Seq<char>, DataView>::empty(),
    {
        ObjectTable { items: Vec::new() }
    }

    fn position(&self, id: &str) -> (r: Option<usize>)
        ensures
            match r {
                Some(i) => i < self.items@.len() && self.items@[i as int].object_id@ == id@
                    && forall|j: int|
                    0 <= j < i ==> (#[trigger] self.items@[j]).object_id@ != id@,
                None => forall|j: int|
                    0 <= j < self.items@.len() ==> (#[trigger] self.items@[j]).object_id@ != id@,
            },
    {
        let mut i: usize = 0;
        while i < self.items.len()
            invariant
                i <= self.items@.len(),
                forall|j: int| 0 <= j < i ==> (#[trigger] self.items@[j]).object_id@ != id@,
            decreases self.items@.len() - i,
        {
            if same_text(self.items[i].object_id.as_str(), id) {
                return Some(i);
            }
            i = i + 1;
        }
        None
    }
}

impl ObjectStore for ObjectTable {
    open spec fn objects(&self) -> ObjectMap {
        object_map(self.items@)
    }

    open spec fn reliable(&self) -> bool {
        true
    }

    open spec fn accepts_writes(&self) -> bool {
        true
    }

    proof fn objects_finite(&self) {
        lemma_object_map_finite(self.items@);
    }

    fn create(&mut self) -> (r: Result<(), StoreError>)
        ensures
            r is Ok,
    {
        Ok(())
    }

    fn _is_writeable(&self) -> (r: bool)
        ensures
            r,
    {
        true
    }

    fn search_objects(&self, partial_object_id: &str) -> (r: Result<Vec<String>, StoreError>) {
        let mut ids: Vec<String> = Vec::new();
        let mut i: usize = 0;
        while i < self.items.len()
            invariant
                i <= self.items@.len(),
                forall|k: int|
                    0 <= k < ids@.len() ==> starts_with(
                        (#[trigger] ids@[k])@,
                        partial_object_id@,
                    ) && exists|j: int|
                        0 <= j < i && (#[trigger] self.items@[j]).object_id@ == ids@[k]@,
                forall|j: int|
                    0 <= j < i && starts_with(
                        (#[trigger] self.items@[j]).object_id@,
                        partial_object_id@,
                    ) ==> texts(ids@).contains(self.items@[j].object_id@),
            decreases self.items@.len() - i,
        {
            let ghost before = ids@;
            let id = chars_of(self.items[i].object_id.as_str());
            if text_starts_with(&id, partial_object_id) {
                ids.push(self.items[i].object_id.clone());
                proof {
                    assert forall|t: Seq<char>| texts(before).contains(t) implies #[trigger] texts(
                        ids@,
                    ).contains(t) by {
                        let k = choose|k: int| 0 <= k < before.len() && texts(before)[k] == t;
                        assert(texts(ids@)[k] == t);
                    }
                    assert(texts(ids@)[before.len() as int] == self.items@[i as int].object_id@);
                }
                assert(self.items@[i as int].object_id@ == ids@[before.len() as int]@);
            }
            i = i + 1;
        }
        proof {
            assert forall|id: Seq<char>| #[trigger]
                texts(ids@).contains(id) <==> self.objects().contains_key(id) && starts_with(
                    id,
                    partial_object_id@,
                ) by {
                lemma_object_map(self.items@, id);
                if texts(ids@).contains(id) {
                    let k = choose|k: int| 0 <= k < ids@.len() && texts(ids@)[k] == id;
                    assert(ids@[k]@ == id);
                }
            }
        }
        Ok(ids)
    }

    fn has_object(&self, object_id: &str) -> (r: Result<bool, StoreError>) {
        proof {
            lemma_object_map(self.items@, object_id@);
        }
        match self.position(object_id) {
            Some(_) => Ok(true),
            None => Ok(false),
        }
    }

    fn read_raw_object_data(&self, object_id: &str) -> (r: Result<
        Option<RawObjectData>,
        StoreError,
    >) {
        proof {
            lemma_object_map(self.items@, object_id@);
        }
        match self.position(object_id) {
            Some(i) => {
                proof {
                    lemma_object_map_first(self.items@, object_id@, i as int);
                }
                Ok(Some(self.items[i].content.clone()))
            },
            None => Ok(None),
        }
    }

    fn write_raw_object(&mut self, obj: &RawObject) -> (r: Result<String, StoreError>)
        ensures
            r is Ok,
    {
        proof {
            lemma_object_map(self.items@, obj.object_id@);
        }
        match self.position(obj.object_id.as_str()) {
            Some(_) => {},
            None => {
                let ghost before = self.items@;
                self.items.push(
                    RawObject { content: obj.content.clone(), object_id: obj.object_id.clone() },
                );
                assert(self.items@.drop_last() =~= before);
            },
        }
        Ok(obj.object_id.clone())
    }
}

/// References in memory.
pub struct RefTable {
    /// The references.
    pub items: Vec<TargetedRef>,
}

/// The targets of a list of references; of two with the same reference the last one counts.
pub open spec fn ref_map(s: Seq<TargetedRef>) -> RefMap
    decreases s.len(),
{
    if s.len() == 0 {
        Map::empty()
    } else {
        ref_map(s.drop_last()).insert(s.last()@.spec, s.last()@.target)
    }
}

proof fn lemma_ref_map(s: Seq<TargetedRef>, r: RefView)
    ensures
        forall|i: int|
            0 <= i < s.len() && (#[trigger] s[i])@.spec == r && (forall|j: int|
                i < j < s.len() ==> (#[trigger] s[j])@.spec != r) ==> ref_map(s).contains_key(r)
                && ref_map(s)[r] == s[i]@.target,
        (forall|i: int| 0 <= i < s.len() ==> (#[trigger] s[i])@.spec != r) ==> !ref_map(
            s,
        ).contains_key(r),
    decreases s.len(),
{
    if s.len() > 0 {
        let before = s.drop_last();
        lemma_ref_map(before, r);
        assert forall|i: int|
            0 <= i < s.len() && (#[trigger] s[i])@.spec == r && (forall|j: int|
                i < j < s.len() ==> (#[trigger] s[j])@.spec != r) implies ref_map(s).contains_key(r)
            && ref_map(s)[r] == s[i]@.target by {
            if i < before.len() {
                assert(before[i]@.spec == r);
                assert(s[s.len() - 1]@.spec != r);
                assert forall|j: int| i < j < before.len() implies (#[trigger] before[j])@.spec
                    != r by {
                    assert(s[j]@.spec != r);
                }
            }
        }
        if forall|i: int| 0 <= i < s.len() ==> (#[trigger] s[i])@.spec != r {
            assert(s[s.len() - 1]@.spec != r);
            assert forall|i: int| 0 <= i < before.len() implies (#[trigger] before[i])@.spec
                != r by {
                assert(s[i]@.spec != r);
            }
        }
    }
}

/// The references of a list but one.
fn without_ref(items: &[TargetedRef], r: &RefSpec) -> (out: Vec<TargetedRef>)
    ensures
        ref_map(out@) == ref_map(items@).remove(r@),
{
    let mut out: Vec<TargetedRef> = Vec::new();
    let mut i: usize = 0;
    assert(items@.take(0) =~= Seq::empty());
    assert(ref_map(out@) =~= ref_map(items@.take(0)).remove(r@));
    while i < items.len()
        invariant
            i <= items@.len(),
            ref_map(out@) == ref_map(items@.take(i as int)).remove(r@),
        decreases items@.len() - i,
    {
        let ghost before = out@;
        assert(items@.take(i + 1).drop_last() =~= items@.take(i as int));
        if !items[i].spec.same_ref(r) {
            out.push(items[i].clone());
            assert(out@.drop_last() =~= before);
        }
        assert(ref_map(out@) =~= ref_map(items@.take(i + 1)).remove(r@));
        i = i + 1;
    }
    assert(items@.take(i as int) =~= items@);
    out
}

impl RefTable {
    /// A store without references.
    pub fn new() -> (r: Self)
        ensures
            r.refs() == Map::<RefView, crate::stores::TargetView>::empty(),
    {
        RefTable { items: Vec::new() }
    }

    fn position(items: &[TargetedRef], spec: &RefSpec) -> (r: Option<usize>)
        ensures
            match r {
                Some(i) => i < items@.len() && items@[i as int]@.spec == spec@ && forall|j: int|
                    i < j < items@.len() ==> (#[trigger] items@[j])@.spec != spec@,
                None => forall|j: int|
                    0 <= j < items@.len() ==> (#[trigger] items@[j])@.spec != spec@,
            },
    {
        let mut i: usize = items.len();
        while i > 0
            invariant
                i <= items@.len(),
                forall|j: int| i <= j < items@.len() ==> (#[trigger] items@[j])@.spec != spec@,
            decreases i,
        {
            i = i - 1;
            if items[i].spec.same_ref(spec) {
                return Some(i);
            }
        }
        None
    }
}

impl RefStore for RefTable {
    open spec fn refs(&self) -> RefMap {
        ref_map(self.items@)
    }

    open spec fn reliable(&self) -> bool {
        true
    }

    open spec fn accepts_writes(&self) -> bool {
        true
    }

    fn create(&mut self) -> (r: Result<(), StoreError>)
        ensures
            r is Ok,
    {
        Ok(())
    }

    fn is_existing_ref(&self, r: &RefSpec) -> (res: Result<bool, StoreError>) {
        proof {
            lemma_ref_map(self.items@, r@);
        }
        match RefTable::position(self.items.as_slice(), r) {
            Some(_) => Ok(true),
            None => Ok(false),
        }
    }

    fn all_ref_targets(&self) -> (r: Result<Vec<TargetedRef>, StoreError>) {
        let mut out: Vec<TargetedRef> = Vec::new();
        let mut i: usize = 0;
        assert(self.items@.take(0) =~= Seq::empty());
        while i < self.items.len()
            invariant
                i <= self.items@.len(),
                lists_refs(out@, ref_map(self.items@.take(i as int))),
            decreases self.items@.len() - i,
        {
            let ghost before = out@;
            let ghost refs = ref_map(self.items@.take(i as int));
            let ghost later = ref_map(self.items@.take(i + 1));
            let ghost item = self.items@[i as int]@;
            assert(self.items@.take(i + 1).drop_last() =~= self.items@.take(i as int));
            assert(later == refs.insert(item.spec, item.target));
            match RefTable::position(out.as_slice(), &self.items[i].spec) {
                Some(k) => {
                    out.set(k, self.items[i].clone());
                    proof {
                        assert forall|r: RefView| #[trigger] later.contains_key(r) implies exists|
                            n: int,
                        |
                            0 <= n < out@.len() && (#[trigger] out@[n])@.spec == r by {
                            if r == item.spec {
                                assert(out@[k as int]@.spec == r);
                            } else {
                                assert(refs.contains_key(r));
                                let n = choose|n: int|
                                    0 <= n < before.len() && (#[trigger] before[n])@.spec == r;
                                assert(out@[n]@.spec == r);
                            }
                        }
                    }
                },
                None => {
                    out.push(self.items[i].clone());
                    proof {
                        assert forall|r: RefView| #[trigger] later.contains_key(r) implies exists|
                            n: int,
                        |
                            0 <= n < out@.len() && (#[trigger] out@[n])@.spec == r by {
                            if r == item.spec {
                                assert(out@[before.len() as int]@.spec == r);
                            } else {
                                assert(refs.contains_key(r));
                                let n = choose|n: int|
                                    0 <= n < before.len() && (#[trigger] before[n])@.spec == r;
                                assert(out@[n]@.spec == r);
                            }
                        }
                    }
                },
            }
            i = i + 1;
        }
        assert(self.items@.take(i as int) =~= self.items@);
        Ok(out)
    }

    fn resolve_target(&self, r: &RefSpec) -> (res: Result<Option<RefTarget>, StoreError>) {
        proof {
            lemma_ref_map(self.items@, r@);
        }
        match RefTable::position(self.items.as_slice(), r) {
            Some(i) => Ok(Some(self.items[i].target.clone())),
            None => Ok(None),
        }
    }

    fn search_remotes_for_branch(&self, name: &str) -> (r: Result<Vec<BranchSpec>, StoreError>) {
        let mut out: Vec<BranchSpec> = Vec::new();
        let mut i: usize = 0;
        while i < self.items.len()
            invariant
                i <= self.items@.len(),
                forall|k: int|
                    0 <= k < out@.len() ==> (#[trigger] out@[k])@.location is Remote
                        && out@[k]@.name == name@ && exists|j: int|
                        0 <= j < i && (#[trigger] self.items@[j])@.spec == RefView::Branch(
                            out@[k]@,
                        ),
                forall|j: int|
                    0 <= j < i ==> ((#[trigger] self.items@[j])@.spec matches RefView::Branch(b)
                        ==> (b.location is Remote && b.name == name@ ==> branch_views(
                        out@,
                    ).contains(b))),
            decreases self.items@.len() - i,
        {
            let ghost before = out@;
            if let RefSpec::Branch(b) = &self.items[i].spec {
                if let BranchLocation::Remote(_) = &b.location {
                    if same_text(b.name.as_str(), name) {
                        out.push(b.clone());
                        proof {
                            assert forall|t: BranchView| branch_views(before).contains(
                                t,
                            ) implies #[trigger] branch_views(out@).contains(t) by {
                                let k = choose|k: int|
                                    0 <= k < before.len() && branch_views(before)[k] == t;
                                assert(branch_views(out@)[k] == t);
                            }
                            assert(branch_views(out@)[before.len() as int] == b@);
                            assert(self.items@[i as int]@.spec == RefView::Branch(
                                out@[before.len() as int]@,
                            ));
                        }
                    }
                }
            }
            i = i + 1;
        }
        proof {
            assert forall|b: BranchView| #[trigger]
                branch_views(out@).contains(b) <==> self.refs().contains_key(RefView::Branch(b))
                    && b.location is Remote && b.name == name@ by {
                lemma_listed(self.items@, RefView::Branch(b));
                if branch_views(out@).contains(b) {
                    let k = choose|k: int| 0 <= k < out@.len() && branch_views(out@)[k] == b;
                    assert(out@[k]@ == b);
                }
            }
        }
        Ok(out)
    }

    fn create_update_ref(&mut self, r: &RefSpec, target: &RefTarget) -> (res: Result<
        (),
        StoreError,
    >)
        ensures
            res is Ok,
    {
        let ghost before = ref_map(self.items@);
        let mut items = without_ref(self.items.as_slice(), r);
        let ghost rest = items@;
        items.push(TargetedRef { target: target.clone(), spec: r.clone() });
        assert(items@.drop_last() =~= rest);
        assert(ref_map(items@) =~= before.insert(r@, target@));
        self.items = items;
        Ok(())
    }

    fn delete_ref(&mut self, r: &RefSpec) -> (res: Result<(), StoreError>)
        ensures
            res is Ok,
    {
        self.items = without_ref(self.items.as_slice(), r);
        Ok(())
    }
}

proof fn lemma_listed(s: Seq<TargetedRef>, r: RefView)
    ensures
        ref_map(s).contains_key(r) <==> exists|i: int| 0 <= i < s.len() && (#[trigger] s[i])@.spec == r,
    decreases s.len(),
{
    if s.len() > 0 {
        let before = s.drop_last();
        lemma_listed(before, r);
        if ref_map(s).contains_key(r) {
            if s.last()@.spec == r {
                assert(s[s.len() - 1]@.spec == r);
            } else {
                let i = choose|i: int| 0 <= i < before.len() && (#[trigger] before[i])@.spec == r;
                assert(s[i]@.spec == r);
            }
        }
        assert forall|i: int| 0 <= i < s.len() && (#[trigger] s[i])@.spec == r implies ref_map(
            s,
        ).contains_key(r) by {
            if i < before.len() {
                assert(before[i]@.spec == r);
            }
        }
    }
}

} // verus!
