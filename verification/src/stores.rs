//! Branches, tags and other references, and how they are written.

use vstd::prelude::*;
use vstd::slice::slice_subrange;
use vstd::utf8::encode_utf8;

use crate::sorting::{bytes_before, Keyed, SortKey};
use crate::stores::errors::InvalidRefNameError;
use crate::text::{
    chars_of, contains_text, ends_with, find_char, first_index, lemma_first_index_is, occurs_at,
    same_text, starts_with, string_of, text_contains, text_ends_with, text_starts_with,
};

pub mod backends;
pub mod errors;
pub mod laws;
pub mod loose;
pub mod packed_refs;
pub mod pack_laws;
pub mod packs;
pub mod tables;

verus! {

broadcast use vstd::string::group_string_axioms;

/// Specifies if a branch is local, or if it is remote, which remote it belongs to.
#[derive(Debug, PartialEq, Eq, Hash, PartialOrd, Ord)]
pub enum BranchLocation {
    /// A local branch
    Local,
    /// A remote branch on a named remote.
    Remote(String),
}

/// Where a branch is.
pub enum LocationView {
    /// In the repository.
    Local,
    /// On a remote.
    Remote(Seq<char>),
}

impl View for BranchLocation {
    type V = LocationView;

    open spec fn view(&self) -> LocationView {
        match self {
            BranchLocation::Local => LocationView::Local,
            BranchLocation::Remote(r) => LocationView::Remote(r@),
        }
    }
}

/// The path that the branches of a location are kept under.
pub open spec fn location_text(l: LocationView) -> Seq<char> {
    match l {
        LocationView::Local => "refs/heads"@,
        LocationView::Remote(r) => "refs/remotes/"@ + r,
    }
}

/// The name of the remote in what follows `refs/remotes/`.
pub open spec fn remote_name(rest: Seq<char>) -> Seq<char> {
    rest.take(first_index(rest, '/', 0))
}

/// The location that the path of a branch names: local below `refs/heads/`, and below
/// `refs/remotes/` the remote whose name stands there, if one does.
pub open spec fn parse_location(s: Seq<char>) -> Option<LocationView> {
    if starts_with(s, "refs/heads/"@) {
        Some(LocationView::Local)
    } else if starts_with(s, "refs/remotes/"@) {
        let remote = remote_name(s.skip(13));
        if remote.len() == 0 {
            None
        } else {
            Some(LocationView::Remote(remote))
        }
    } else {
        None
    }
}

impl Clone for BranchLocation {
    fn clone(&self) -> (r: Self)
        ensures
            r@ == self@,
    {
        match self {
            BranchLocation::Local => BranchLocation::Local,
            BranchLocation::Remote(r) => BranchLocation::Remote(r.clone()),
        }
    }
}

impl BranchLocation {
    /// The path that the branches of this location are kept under.
    pub fn to_string(&self) -> (r: String)
        ensures
            r@ == location_text(self@),
    {
        match self {
            BranchLocation::Local => "refs/heads".to_string(),
            BranchLocation::Remote(r) => {
                let mut out = "refs/remotes/".to_string();
                out.append(r.as_str());
                out
            },
        }
    }

    /// The location that the path of a branch names.
    pub fn from_str(s: &str) -> (r: Result<Self, InvalidRefNameError>)
        ensures
            match r {
                Ok(l) => parse_location(s@) == Some(l@),
                Err(e) => parse_location(s@) is None && e.name@ == s@,
            },
    {
        let cs = chars_of(s);
        if text_starts_with(&cs, "refs/heads/") {
            Ok(BranchLocation::Local)
        } else if text_starts_with(&cs, "refs/remotes/") {
            proof {
                reveal_strlit("refs/remotes/");
            }
            let rest = slice_subrange(&cs, 13, cs.len());
            assert(rest@ =~= s@.skip(13));
            let end: usize = find_char(rest, '/', 0);
            if end == 0 {
                return Err(InvalidRefNameError::new(s));
            }
            let remote = slice_subrange(rest, 0, end);
            assert(remote@ =~= remote_name(s@.skip(13)));
            Ok(BranchLocation::Remote(string_of(remote)))
        } else {
            Err(InvalidRefNameError::new(s))
        }
    }

    /// Whether two locations are the same.
    pub fn same_location(&self, other: &BranchLocation) -> (r: bool)
        ensures
            r == (self@ == other@),
    {
        match (self, other) {
            (BranchLocation::Local, BranchLocation::Local) => true,
            (BranchLocation::Remote(a), BranchLocation::Remote(b)) => same_text(
                a.as_str(),
                b.as_str(),
            ),
            _ => false,
        }
    }
}

/// The definition of a branch.
#[derive(Debug, PartialEq, Eq, Hash, PartialOrd, Ord)]
pub struct BranchSpec {
    /// Whether the branch is local or remote (and if remote, which remote it is on).
    pub location: BranchLocation,
    /// The branch name.
    pub name: String,
}

/// Where a branch is, and its name.
pub struct BranchView {
    /// Where it is.
    pub location: LocationView,
    /// Its name.
    pub name: Seq<char>,
}

impl View for BranchSpec {
    type V = BranchView;

    open spec fn view(&self) -> BranchView {
        BranchView { location: self.location@, name: self.name@ }
    }
}

/// The path of a branch.
pub open spec fn branch_text(b: BranchView) -> Seq<char> {
    location_text(b.location) + "/"@ + b.name
}

/// The name of a branch, with that of its remote in front if it has one.
pub open spec fn branch_label(b: BranchView) -> Seq<char> {
    match b.location {
        LocationView::Local => b.name,
        LocationView::Remote(r) => r + "/"@ + b.name,
    }
}

/// The branch that a path names: its location, and what follows that and a `/` if anything
/// does.
pub open spec fn parse_branch(s: Seq<char>) -> Option<BranchView> {
    match parse_location(s) {
        None => None,
        Some(location) => {
            let start = match location {
                LocationView::Local => 11,
                LocationView::Remote(r) => 14 + r.len(),
            };
            if s.len() <= start {
                None
            } else {
                Some(BranchView { location, name: s.skip(start as int) })
            }
        },
    }
}

impl Clone for BranchSpec {
    fn clone(&self) -> (r: Self)
        ensures
            r@ == self@,
    {
        BranchSpec { location: self.location.clone(), name: self.name.clone() }
    }
}

/// What a location is ordered by: local comes first, remotes follow by name.
pub open spec fn location_key(l: LocationView) -> Seq<u8> {
    match l {
        LocationView::Local => Seq::empty(),
        LocationView::Remote(r) => seq![1u8] + encode_utf8(r),
    }
}

impl Keyed for BranchSpec {
    open spec fn sort_key(&self) -> SortKey {
        (location_key(self.location@), encode_utf8(self.name@), 0)
    }

    fn before(&self, other: &Self) -> (r: bool) {
        let a = self.location.key_bytes();
        let b = other.location.key_bytes();
        proof {
            crate::sorting::lemma_bytes_order(a@, b@, a@);
        }
        if bytes_before(a.as_slice(), b.as_slice()) {
            return true;
        }
        if bytes_before(b.as_slice(), a.as_slice()) {
            return false;
        }
        bytes_before(self.name.as_str().as_bytes(), other.name.as_str().as_bytes())
    }
}

impl BranchLocation {
    fn key_bytes(&self) -> (r: Vec<u8>)
        ensures
            r@ == location_key(self@),
    {
        let mut out: Vec<u8> = Vec::new();
        match self {
            BranchLocation::Local => {},
            BranchLocation::Remote(r) => {
                out.push(1);
                crate::index::push_bytes(&mut out, r.as_str().as_bytes());
            },
        }
        assert(out@ =~= location_key(self@));
        out
    }
}

impl BranchSpec {
    /// The branch with the given name and location.
    pub fn new(name: &str, location: BranchLocation) -> (r: Self)
        ensures
            r@ == (BranchView { location: location@, name: name@ }),
    {
        BranchSpec { name: name.to_string(), location }
    }

    /// The local branch with the given name.
    pub fn local(name: &str) -> (r: Self)
        ensures
            r@ == (BranchView { location: LocationView::Local, name: name@ }),
    {
        BranchSpec::new(name, BranchLocation::Local)
    }

    /// The branch as a reference.
    pub fn into_ref_spec(self) -> (r: RefSpec)
        ensures
            r@ == RefView::Branch(self@),
    {
        RefSpec::Branch(self)
    }

    /// The path of the branch.
    pub fn to_string(&self) -> (r: String)
        ensures
            r@ == branch_text(self@),
    {
        let mut out = self.location.to_string();
        out.append("/");
        out.append(self.name.as_str());
        out
    }

    /// The branch that a path names.
    pub fn from_str(s: &str) -> (r: Result<Self, InvalidRefNameError>)
        ensures
            match r {
                Ok(b) => parse_branch(s@) == Some(b@),
                Err(e) => parse_branch(s@) is None && e.name@ == s@,
            },
    {
        let location = match BranchLocation::from_str(s) {
            Ok(l) => l,
            Err(e) => {
                return Err(e);
            },
        };
        let cs = chars_of(s);
        let start: usize = match &location {
            BranchLocation::Local => 11,
            BranchLocation::Remote(r) => {
                let rs = chars_of(r.as_str());
                if rs.len() >= cs.len() || 14 >= cs.len() - rs.len() {
                    return Err(InvalidRefNameError::new(s));
                }
                14 + rs.len()
            },
        };
        if cs.len() <= start {
            return Err(InvalidRefNameError::new(s));
        }
        let rest = slice_subrange(&cs, start, cs.len());
        assert(rest@ =~= s@.skip(start as int));
        let name = string_of(rest);
        Ok(BranchSpec { name, location })
    }

    /// The name of the branch, with that of its remote in front if it has one.
    pub fn distinguished_name(&self) -> (r: String)
        ensures
            r@ == branch_label(self@),
    {
        match &self.location {
            BranchLocation::Local => self.name.clone(),
            BranchLocation::Remote(remote) => {
                let mut out = remote.clone();
                out.append("/");
                out.append(self.name.as_str());
                out
            },
        }
    }

    /// Whether two branches are the same.
    pub fn same_branch(&self, other: &BranchSpec) -> (r: bool)
        ensures
            r == (self@ == other@),
    {
        self.location.same_location(&other.location) && same_text(
            self.name.as_str(),
            other.name.as_str(),
        )
    }
}

/// The definition of a tag.
#[derive(Debug, Eq, Hash, PartialEq)]
pub struct TagSpec {
    /// The name of the tag.
    pub name: String,
    /// Whether the tag stands for the object that it leads to in the end.
    pub peeled: bool,
}

/// The name of a tag, and whether it is peeled.
pub struct TagView {
    /// The name.
    pub name: Seq<char>,
    /// Whether it is peeled.
    pub peeled: bool,
}

impl View for TagSpec {
    type V = TagView;

    open spec fn view(&self) -> TagView {
        TagView { name: self.name@, peeled: self.peeled }
    }
}

/// The path of a tag; that of a peeled one ends with `^{}`.
pub open spec fn tag_text(t: TagView) -> Seq<char> {
    "refs/tags/"@ + t.name + if t.peeled {
        "^{}"@
    } else {
        Seq::empty()
    }
}

/// The tag that a path names.
pub open spec fn parse_tag(s: Seq<char>) -> Option<TagView> {
    let rest = s.skip(10);
    if starts_with(s, "refs/tags/"@) && s.len() > 10 && rest[0] != '/' && !contains_text(s, "//"@) {
        if ends_with(rest, "^{}"@) {
            Some(TagView { name: rest.take(rest.len() - 3), peeled: true })
        } else {
            Some(TagView { name: rest, peeled: false })
        }
    } else {
        None
    }
}

impl Clone for TagSpec {
    fn clone(&self) -> (r: Self)
        ensures
            r@ == self@,
    {
        TagSpec { name: self.name.clone(), peeled: self.peeled }
    }
}

impl TagSpec {
    /// The tag with the given name.
    pub fn new(name: &str, peeled: bool) -> (r: Self)
        ensures
            r@ == (TagView { name: name@, peeled }),
    {
        TagSpec { name: name.to_string(), peeled }
    }

    /// The tag as a reference.
    pub fn into_ref_spec(self) -> (r: RefSpec)
        ensures
            r@ == RefView::Tag(self@),
    {
        RefSpec::Tag(self)
    }

    /// The path of the tag.
    pub fn to_string(&self) -> (r: String)
        ensures
            r@ == tag_text(self@),
    {
        let mut out = "refs/tags/".to_string();
        out.append(self.name.as_str());
        if self.peeled {
            out.append("^{}");
        }
        assert(out@ =~= tag_text(self@));
        out
    }

    /// The tag that a path names.
    pub fn from_str(s: &str) -> (r: Result<Self, InvalidRefNameError>)
        ensures
            match r {
                Ok(t) => parse_tag(s@) == Some(t@),
                Err(e) => parse_tag(s@) is None && e.name@ == s@,
            },
    {
        let cs = chars_of(s);
        proof {
            reveal_strlit("refs/tags/");
            reveal_strlit("^{}");
        }
        if !text_starts_with(&cs, "refs/tags/") || cs.len() <= 10 || cs[10] == '/'
            || text_contains(&cs, "//") {
            assert(s@.len() > 10 ==> s@.skip(10)[0] == s@[10]);
            return Err(InvalidRefNameError::new(s));
        }
        assert(s@.skip(10)[0] == s@[10]);
        let rest = slice_subrange(&cs, 10, cs.len());
        assert(rest@ =~= s@.skip(10));
        if text_ends_with(rest, "^{}") {
            let bare = slice_subrange(rest, 0, rest.len() - 3);
            assert(bare@ =~= rest@.take(rest@.len() - 3));
            Ok(TagSpec { name: string_of(bare), peeled: true })
        } else {
            Ok(TagSpec { name: string_of(rest), peeled: false })
        }
    }
}

/// A reference: a branch, a tag, or `HEAD`.
#[derive(Debug, Eq, Hash, PartialEq)]
pub enum RefSpec {
    /// A branch ref, either a local branch or a remote branch.
    Branch(BranchSpec),
    /// A tag ref.
    Tag(TagSpec),
    /// A symbolic reference to HEAD
    Head,
}

/// What a reference is.
pub enum RefView {
    /// A branch.
    Branch(BranchView),
    /// A tag.
    Tag(TagView),
    /// The current commit.
    Head,
}

impl View for RefSpec {
    type V = RefView;

    open spec fn view(&self) -> RefView {
        match self {
            RefSpec::Branch(b) => RefView::Branch(b@),
            RefSpec::Tag(t) => RefView::Tag(t@),
            RefSpec::Head => RefView::Head,
        }
    }
}

/// The path of a reference.
pub open spec fn ref_text(r: RefView) -> Seq<char> {
    match r {
        RefView::Branch(b) => branch_text(b),
        RefView::Tag(t) => tag_text(t),
        RefView::Head => "HEAD"@,
    }
}

/// The reference that a path names.
pub open spec fn parse_ref(s: Seq<char>) -> Option<RefView> {
    if s == "HEAD"@ {
        Some(RefView::Head)
    } else if starts_with(s, "refs/tags/"@) {
        match parse_tag(s) {
            Some(t) => Some(RefView::Tag(t)),
            None => None,
        }
    } else if starts_with(s, "refs/heads/"@) || starts_with(s, "refs/remotes/"@) {
        match parse_branch(s) {
            Some(b) => Some(RefView::Branch(b)),
            None => None,
        }
    } else {
        None
    }
}

impl Clone for RefSpec {
    fn clone(&self) -> (r: Self)
        ensures
            r@ == self@,
    {
        match self {
            RefSpec::Branch(b) => RefSpec::Branch(b.clone()),
            RefSpec::Tag(t) => RefSpec::Tag(t.clone()),
            RefSpec::Head => RefSpec::Head,
        }
    }
}

impl RefSpec {
    /// The path of the reference.
    pub fn to_string(&self) -> (r: String)
        ensures
            r@ == ref_text(self@),
    {
        match self {
            RefSpec::Branch(b) => b.to_string(),
            RefSpec::Tag(t) => t.to_string(),
            RefSpec::Head => "HEAD".to_string(),
        }
    }

    /// The reference that a path names.
    pub fn from_str(s: &str) -> (r: Result<Self, InvalidRefNameError>)
        ensures
            match r {
                Ok(x) => parse_ref(s@) == Some(x@),
                Err(e) => parse_ref(s@) is None && e.name@ == s@,
            },
    {
        let cs = chars_of(s);
        if same_text(s, "HEAD") {
            Ok(RefSpec::Head)
        } else if text_starts_with(&cs, "refs/tags/") {
            match TagSpec::from_str(s) {
                Ok(t) => Ok(RefSpec::Tag(t)),
                Err(e) => Err(e),
            }
        } else if text_starts_with(&cs, "refs/heads/") || text_starts_with(&cs, "refs/remotes/") {
            match BranchSpec::from_str(s) {
                Ok(b) => Ok(RefSpec::Branch(b)),
                Err(e) => Err(e),
            }
        } else {
            Err(InvalidRefNameError::new(s))
        }
    }

    /// Whether two references are the same.
    pub fn same_ref(&self, other: &RefSpec) -> (r: bool)
        ensures
            r == (self@ == other@),
    {
        match (self, other) {
            (RefSpec::Branch(a), RefSpec::Branch(b)) => a.same_branch(b),
            (RefSpec::Tag(a), RefSpec::Tag(b)) => same_text(a.name.as_str(), b.name.as_str())
                && a.peeled == b.peeled,
            (RefSpec::Head, RefSpec::Head) => true,
            _ => false,
        }
    }

    /// The peeled tag for a tag; nothing for another reference.
    pub fn peel_tag(&self) -> (r: Option<RefSpec>)
        ensures
            match self@ {
                RefView::Tag(t) => r matches Some(p) && p@ == RefView::Tag(
                    TagView { name: t.name, peeled: true },
                ),
                _ => r is None,
            },
    {
        match self {
            RefSpec::Tag(t) => Some(RefSpec::Tag(TagSpec::new(t.name.as_str(), true))),
            _ => None,
        }
    }
}

/// The target of a reference.  This can be either an object ID, or a symbolic reference to
/// another reference.
#[derive(Debug, Eq, Hash, PartialEq)]
pub enum RefTarget {
    /// The reference target is a specific object ID.
    Object(String),
    /// The reference target is another reference.
    SymbolicRef(RefSpec),
}

/// What a reference leads to.
pub enum TargetView {
    /// An object.
    Object(Seq<char>),
    /// Another reference.
    SymbolicRef(RefView),
}

impl View for RefTarget {
    type V = TargetView;

    open spec fn view(&self) -> TargetView {
        match self {
            RefTarget::Object(id) => TargetView::Object(id@),
            RefTarget::SymbolicRef(r) => TargetView::SymbolicRef(r@),
        }
    }
}

/// A target as it is written.
pub open spec fn target_text(t: TargetView) -> Seq<char> {
    match t {
        TargetView::Object(id) => id,
        TargetView::SymbolicRef(r) => "ref: "@ + ref_text(r),
    }
}

/// The target that a text stands for: what follows `ref: ` must name a reference, anything else
/// is an object ID.
pub open spec fn parse_target(s: Seq<char>) -> Option<TargetView> {
    if starts_with(s, "ref: "@) {
        match parse_ref(s.skip(5)) {
            Some(r) => Some(TargetView::SymbolicRef(r)),
            None => None,
        }
    } else {
        Some(TargetView::Object(s))
    }
}

impl Clone for RefTarget {
    fn clone(&self) -> (r: Self)
        ensures
            r@ == self@,
    {
        match self {
            RefTarget::Object(id) => RefTarget::Object(id.clone()),
            RefTarget::SymbolicRef(r) => RefTarget::SymbolicRef(r.clone()),
        }
    }
}

impl RefTarget {
    /// The target as it is written.
    pub fn to_string(&self) -> (r: String)
        ensures
            r@ == target_text(self@),
    {
        match self {
            RefTarget::Object(id) => id.clone(),
            RefTarget::SymbolicRef(spec) => {
                let mut out = "ref: ".to_string();
                out.append(spec.to_string().as_str());
                out
            },
        }
    }

    /// The target that a text stands for.
    pub fn from_str(s: &str) -> (r: Result<Self, InvalidRefNameError>)
        ensures
            match r {
                Ok(t) => parse_target(s@) == Some(t@),
                Err(e) => parse_target(s@) is None && e.name@ == s@.skip(5),
            },
    {
        let cs = chars_of(s);
        if text_starts_with(&cs, "ref: ") {
            proof {
                reveal_strlit("ref: ");
            }
            let rest = slice_subrange(&cs, 5, cs.len());
            assert(rest@ =~= s@.skip(5));
            let name = string_of(rest);
            match RefSpec::from_str(name.as_str()) {
                Ok(spec) => Ok(RefTarget::SymbolicRef(spec)),
                Err(e) => Err(e),
            }
        } else {
            Ok(RefTarget::Object(s.to_string()))
        }
    }

    /// Whether two targets are the same.
    pub fn same_target(&self, other: &RefTarget) -> (r: bool)
        ensures
            r == (self@ == other@),
    {
        match (self, other) {
            (RefTarget::Object(a), RefTarget::Object(b)) => same_text(a.as_str(), b.as_str()),
            (RefTarget::SymbolicRef(a), RefTarget::SymbolicRef(b)) => a.same_ref(b),
            _ => false,
        }
    }
}

/// Contains a [`RefSpec`] and its current target.
#[derive(Debug, Eq, Hash, PartialEq)]
pub struct TargetedRef {
    /// The target of the [`RefSpec`].
    pub target: RefTarget,
    /// A [`RefSpec`] of any kind.
    pub spec: RefSpec,
}

/// A reference, and what it leads to.
pub struct TargetedView {
    /// What it leads to.
    pub target: TargetView,
    /// The reference.
    pub spec: RefView,
}

impl View for TargetedRef {
    type V = TargetedView;

    open spec fn view(&self) -> TargetedView {
        TargetedView { target: self.target@, spec: self.spec@ }
    }
}

impl Clone for TargetedRef {
    fn clone(&self) -> (r: Self)
        ensures
            r@ == self@,
    {
        TargetedRef { target: self.target.clone(), spec: self.spec.clone() }
    }
}

impl TargetedRef {
    /// The target, a space, and the path of the reference.
    pub fn to_string(&self) -> (r: String)
        ensures
            r@ == target_text(self.target@) + " "@ + ref_text(self.spec@),
    {
        let mut out = self.target.to_string();
        out.append(" ");
        out.append(self.spec.to_string().as_str());
        out
    }

    /// Whether two references with their targets are the same.
    pub fn same(&self, other: &TargetedRef) -> (r: bool)
        ensures
            r == (self@ == other@),
    {
        self.target.same_target(&other.target) && self.spec.same_ref(&other.spec)
    }
}

/// Whether a location can be told from the path of a branch: the name of a remote is not empty
/// and holds no `/`.
pub open spec fn writable_location(l: LocationView) -> bool {
    match l {
        LocationView::Local => true,
        LocationView::Remote(r) => r.len() > 0 && !r.contains('/'),
    }
}

/// Whether a reference can be told from its path: the name of a branch is not empty, that of a
/// tag not either, and a tag's name neither starts with a `/` nor holds two in a row nor ends
/// like that of a peeled tag.
pub open spec fn writable_ref(r: RefView) -> bool {
    match r {
        RefView::Branch(b) => writable_location(b.location) && b.name.len() > 0,
        RefView::Tag(t) => t.name.len() > 0 && t.name[0] != '/' && !contains_text(t.name, "//"@)
            && (!t.peeled ==> !ends_with(t.name, "^{}"@)),
        RefView::Head => true,
    }
}

proof fn lemma_prefix_literals()
    ensures
        "refs/heads"@ == seq!['r', 'e', 'f', 's', '/', 'h', 'e', 'a', 'd', 's'],
        "refs/heads/"@ == seq!['r', 'e', 'f', 's', '/', 'h', 'e', 'a', 'd', 's', '/'],
        "refs/remotes/"@ == seq![
            'r',
            'e',
            'f',
            's',
            '/',
            'r',
            'e',
            'm',
            'o',
            't',
            'e',
            's',
            '/',
        ],
        "refs/tags/"@ == seq!['r', 'e', 'f', 's', '/', 't', 'a', 'g', 's', '/'],
        "/"@ == seq!['/'],
        "//"@ == seq!['/', '/'],
        "^{}"@ == seq!['^', '{', '}'],
        "HEAD"@ == seq!['H', 'E', 'A', 'D'],
        "ref: "@ == seq!['r', 'e', 'f', ':', ' '],
{
    reveal_strlit("refs/heads");
    reveal_strlit("refs/heads/");
    reveal_strlit("refs/remotes/");
    reveal_strlit("refs/tags/");
    reveal_strlit("/");
    reveal_strlit("//");
    reveal_strlit("^{}");
    reveal_strlit("HEAD");
    reveal_strlit("ref: ");
    assert("refs/heads"@ =~= seq!['r', 'e', 'f', 's', '/', 'h', 'e', 'a', 'd', 's']);
    assert("refs/heads/"@ =~= seq!['r', 'e', 'f', 's', '/', 'h', 'e', 'a', 'd', 's', '/']);
    assert("refs/remotes/"@ =~= seq![
        'r',
        'e',
        'f',
        's',
        '/',
        'r',
        'e',
        'm',
        'o',
        't',
        'e',
        's',
        '/',
    ]);
    assert("refs/tags/"@ =~= seq!['r', 'e', 'f', 's', '/', 't', 'a', 'g', 's', '/']);
    assert("/"@ =~= seq!['/']);
    assert("//"@ =~= seq!['/', '/']);
    assert("^{}"@ =~= seq!['^', '{', '}']);
    assert("HEAD"@ =~= seq!['H', 'E', 'A', 'D']);
    assert("ref: "@ =~= seq!['r', 'e', 'f', ':', ' ']);
}

/// Reading the path of a branch gives the branch back.
pub proof fn theorem_branch_round_trip(b: BranchView)
    requires
        writable_location(b.location),
        b.name.len() > 0,
    ensures
        parse_branch(branch_text(b)) == Some(b),
{
    lemma_prefix_literals();
    let s = branch_text(b);
    match b.location {
        LocationView::Local => {
            assert(s.take(11) =~= "refs/heads/"@);
            assert(s.skip(11) =~= b.name);
        },
        LocationView::Remote(r) => {
            let prefix = "refs/remotes/"@;
            assert(s =~= prefix + r + seq!['/'] + b.name);
            assert(s.take(13) =~= prefix);
            assert(s.take(11)[5] != "refs/heads/"@[5]);
            let rest = s.skip(13);
            assert(rest =~= r + seq!['/'] + b.name);
            assert forall|j: int| 0 <= j < r.len() implies rest[j] != '/' by {
                assert(rest[j] == r[j]);
                if rest[j] == '/' {
                    assert(r.contains('/'));
                }
            }
            lemma_first_index_is(rest, '/', 0, r.len() as int);
            assert(remote_name(rest) =~= r);
            assert(s.skip(14 + r.len() as int) =~= b.name);
        },
    }
}

proof fn lemma_no_double_slash(name: Seq<char>, s: Seq<char>)
    requires
        name.len() > 0,
        name[0] != '/',
        !contains_text(name, "//"@),
        s == "refs/tags/"@ + name || s == "refs/tags/"@ + name + "^{}"@,
    ensures
        !contains_text(s, "//"@),
{
    lemma_prefix_literals();
    let prefix = "refs/tags/"@;
    if contains_text(s, "//"@) {
        let i = choose|i: int| occurs_at(s, "//"@, i);
        let p = s.subrange(i, i + 2);
        assert(p[0] == s[i] && p[1] == s[i + 1]);
        assert(s[i] == '/' && s[i + 1] == '/');
        if i < 10 {
            if i + 1 < 10 {
                assert(s[i] == prefix[i] && s[i + 1] == prefix[i + 1]);
            } else {
                assert(s[10] == name[0]);
            }
        } else if i + 1 < 10 + name.len() {
            assert(name.subrange(i - 10, i - 8) =~= "//"@);
            assert(occurs_at(name, "//"@, i - 10));
        } else {
            assert(s[i + 1] == "^{}"@[i + 1 - 10 - name.len()]);
        }
    }
}

/// Reading the path of a reference gives the reference back.
pub proof fn theorem_ref_round_trip(r: RefView)
    requires
        writable_ref(r),
    ensures
        parse_ref(ref_text(r)) == Some(r),
{
    lemma_prefix_literals();
    let s = ref_text(r);
    match r {
        RefView::Head => {},
        RefView::Branch(b) => {
            theorem_branch_round_trip(b);
            assert(s[0] == 'r');
            assert("HEAD"@[0] == 'H');
            match b.location {
                LocationView::Local => {
                    assert(s.take(11) =~= "refs/heads/"@);
                    assert(s.take(10)[5] == 'h');
                },
                LocationView::Remote(_) => {
                    assert(s.take(13) =~= "refs/remotes/"@);
                    assert(s.take(10)[5] == 'r');
                },
            }
            assert("refs/tags/"@[5] == 't');
        },
        RefView::Tag(t) => {
            assert(s.take(10) =~= "refs/tags/"@);
            assert(s[0] == 'r');
            assert("HEAD"@[0] == 'H');
            let rest = s.skip(10);
            if t.peeled {
                lemma_no_double_slash(t.name, s);
                assert(rest =~= t.name + "^{}"@);
                assert(rest.skip(rest.len() - 3) =~= "^{}"@);
                assert(rest.take(rest.len() - 3) =~= t.name);
            } else {
                assert(s =~= "refs/tags/"@ + t.name);
                lemma_no_double_slash(t.name, s);
                assert(rest =~= t.name);
            }
            assert(rest[0] == t.name[0]);
        },
    }
}

/// Reading a target as it is written gives the target back, where an object ID does not look
/// like a symbolic reference.
pub proof fn theorem_target_round_trip(t: TargetView)
    requires
        match t {
            TargetView::Object(id) => !starts_with(id, "ref: "@),
            TargetView::SymbolicRef(r) => writable_ref(r),
        },
    ensures
        parse_target(target_text(t)) == Some(t),
{
    lemma_prefix_literals();
    match t {
        TargetView::Object(_) => {},
        TargetView::SymbolicRef(r) => {
            let s = target_text(t);
            assert(s.take(5) =~= "ref: "@);
            assert(s.skip(5) =~= ref_text(r));
            theorem_ref_round_trip(r);
        },
    }
}

} // verus!
