//! Trees: the directories of a commit.

use std::cmp::Ordering;
use vstd::prelude::*;
use vstd::slice::slice_subrange;
use vstd::utf8::{decode_utf8, encode_utf8, valid_utf8};

use crate::encoding::{lemma_decode_encode, lemma_encode_ascii};
use crate::helpers::fs::file_of_path;
use crate::index::laws::is_full_id;
use crate::index::{entry_mode, push_bytes, IndexEntry};
use crate::interop::{
    hex_bytes, hex_decode, hex_encode, hex_text, is_hex_text, theorem_hex_round_trip_text,
    utf8_string,
};
use crate::numerals::{
    digit_value, lemma_numeral, numeral, padded_numeral_of, parse_number, parsed_number,
    theorem_parse_padded_numeral, zero_padded,
};
use crate::objects::errors::{ObjectError, TreeError};
use crate::objects::{GitObject, KindView, ObjectKind};
use crate::sorting::{
    bytes_before, in_order, key_lt, key_of, lemma_sort_map, sort_items, sorted_by, stable_sort,
    theorem_sort_in_order, Keyed, SortKey,
};
use crate::text::{chars_of, find_byte, first_index, lemma_first_index_is, string_of};

verus! {

broadcast use vstd::string::group_string_axioms;

/// The mode of a directory.
pub const DIRECTORY_MODE: u32 = 0o40000;

/// An entry of a tree: a file, or a directory given by its own tree.
#[derive(Debug)]
pub struct TreeNode {
    /// The item's file mode
    pub mode: u32,
    /// The file name or directory name.
    pub name: String,
    /// The object ID of the item as stored in the repository.
    pub object_id: String,
}

/// What an entry of a tree holds.
pub struct NodeView {
    /// The mode.
    pub mode: int,
    /// The name.
    pub name: Seq<char>,
    /// The object ID.
    pub object_id: Seq<char>,
}

impl View for TreeNode {
    type V = NodeView;

    open spec fn view(&self) -> NodeView {
        NodeView { mode: self.mode as int, name: self.name@, object_id: self.object_id@ }
    }
}

/// What an entry holds, as a function.
pub open spec fn node_view() -> spec_fn(TreeNode) -> NodeView {
    |n: TreeNode| n@
}

/// What each entry of a sequence holds.
pub open spec fn node_views(s: Seq<TreeNode>) -> Seq<NodeView> {
    s.map_values(node_view())
}

/// The name that an entry is ordered by: that of a directory ends with a `/`.
pub open spec fn ordering_name(n: NodeView) -> Seq<char> {
    if n.mode == DIRECTORY_MODE {
        n.name.push('/')
    } else {
        n.name
    }
}

/// What entries are ordered by.
pub open spec fn node_key() -> spec_fn(NodeView) -> SortKey {
    |n: NodeView| (encode_utf8(ordering_name(n)), Seq::<u8>::empty(), 0int)
}

/// The mode of an entry as it is stored: octal digits, at least five.
pub open spec fn mode_bytes(mode: int) -> Seq<u8> {
    encode_utf8(zero_padded(numeral(mode as nat, 8), 5))
}

/// A stored entry.
pub open spec fn node_bytes(n: NodeView) -> Seq<u8> {
    mode_bytes(n.mode) + seq![0x20u8] + encode_utf8(n.name) + seq![0u8] + hex_bytes(n.object_id)
}

/// A stored tree: its entries one after the other, without those whose ID is not hexadecimal.
pub open spec fn tree_bytes(s: Seq<NodeView>) -> Seq<u8>
    decreases s.len(),
{
    if s.len() == 0 {
        Seq::empty()
    } else {
        tree_bytes(s.drop_last()) + if is_hex_text(s.last().object_id) {
            node_bytes(s.last())
        } else {
            Seq::empty()
        }
    }
}

/// What the stored entry at the start of the data holds and how long it is, or why it is not
/// valid.
pub open spec fn parse_node(d: Seq<u8>) -> Result<(NodeView, int), TreeError> {
    let space = first_index(d, 0x20u8, 0);
    let nul = first_index(d, 0u8, space + 1);
    let mode = d.take(space);
    let path = d.subrange(space + 1, nul);
    if space >= d.len() {
        Err(TreeError::NoModeEnd)
    } else if space != 5 && space != 6 {
        Err(TreeError::ModeLength)
    } else if !valid_utf8(mode) {
        Err(TreeError::ModeNotUtf8)
    } else if parsed_number(decode_utf8(mode), 8) is None || parsed_number(decode_utf8(mode), 8)->0
        > u32::MAX {
        Err(TreeError::ModeNotOctal)
    } else if nul >= d.len() {
        Err(TreeError::NoPathEnd)
    } else if nul + 21 > d.len() {
        Err(TreeError::TooShort)
    } else if !valid_utf8(path) {
        Err(TreeError::PathNotUtf8)
    } else {
        Ok(
            (
                NodeView {
                    mode: parsed_number(decode_utf8(mode), 8)->0 as int,
                    name: decode_utf8(path),
                    object_id: hex_text(d.subrange(nul + 1, nul + 21)),
                },
                nul + 21,
            ),
        )
    }
}

/// What the stored entries that follow each other hold, or why one is not valid.
pub open spec fn parse_nodes(d: Seq<u8>) -> Result<Seq<NodeView>, TreeError>
    decreases d.len(),
{
    if d.len() == 0 {
        Ok(Seq::empty())
    } else {
        match parse_node(d) {
            Err(e) => Err(e),
            Ok((node, length)) => if 0 < length <= d.len() {
                match parse_nodes(d.skip(length)) {
                    Err(e) => Err(e),
                    Ok(rest) => Ok(seq![node] + rest),
                }
            } else {
                Err(TreeError::TooShort)
            },
        }
    }
}

impl Keyed for TreeNode {
    open spec fn sort_key(&self) -> SortKey {
        (encode_utf8(ordering_name(self@)), Seq::empty(), 0)
    }

    fn before(&self, other: &Self) -> (r: bool) {
        let a = self.ordering_text();
        let b = other.ordering_text();
        proof {
            crate::sorting::lemma_bytes_irreflexive(Seq::<u8>::empty());
        }
        bytes_before(a.as_str().as_bytes(), b.as_str().as_bytes())
    }
}

impl PartialEq for TreeNode {
    fn eq(&self, other: &Self) -> (r: bool) {
        let a = self.ordering_text();
        let b = other.ordering_text();
        crate::text::same_text(a.as_str(), b.as_str())
    }
}

impl vstd::std_specs::cmp::PartialEqSpecImpl for TreeNode {
    open spec fn obeys_eq_spec() -> bool {
        true
    }

    open spec fn eq_spec(&self, other: &Self) -> bool {
        ordering_name(self@) == ordering_name(other@)
    }
}

impl Eq for TreeNode {

}

impl Clone for TreeNode {
    fn clone(&self) -> (r: Self)
        ensures
            r@ == self@,
    {
        TreeNode {
            mode: self.mode,
            name: self.name.clone(),
            object_id: self.object_id.clone(),
        }
    }
}

impl TreeNode {
    fn ordering_text(&self) -> (r: String)
        ensures
            r@ == ordering_name(self@),
    {
        let mut out = self.name.clone();
        if self.mode == DIRECTORY_MODE {
            out.push('/');
        }
        out
    }

    /// Orders two entries by name, where the name of a directory ends with a `/`.
    pub fn cmp(&self, other: &Self) -> (r: Ordering)
        ensures
            r == (if key_lt(self.sort_key(), other.sort_key()) {
                Ordering::Less
            } else if key_lt(other.sort_key(), self.sort_key()) {
                Ordering::Greater
            } else {
                Ordering::Equal
            }),
    {
        if self.before(other) {
            Ordering::Less
        } else if other.before(self) {
            Ordering::Greater
        } else {
            Ordering::Equal
        }
    }

    /// Reads the stored entry at the start of the data; gives its length too.
    pub fn from_bytes(data: &[u8]) -> (r: Result<(TreeNode, usize), TreeError>)
        ensures
            match r {
                Ok((node, length)) => parse_node(data@) == Ok::<(NodeView, int), TreeError>(
                    (node@, length as int),
                ) && 0 < length <= data@.len(),
                Err(e) => parse_node(data@) == Err::<(NodeView, int), TreeError>(e),
            },
    {
        let n: usize = data.len();
        let space: usize = find_byte(data, 0x20, 0);
        if space >= n {
            return Err(TreeError::NoModeEnd);
        }
        if space != 5 && space != 6 {
            return Err(TreeError::ModeLength);
        }
        let mode_part = slice_subrange(data, 0, space);
        assert(mode_part@ =~= data@.take(space as int));
        let mode_text = match utf8_string(mode_part) {
            Some(s) => s,
            None => {
                return Err(TreeError::ModeNotUtf8);
            },
        };
        let digits = chars_of(mode_text.as_str());
        let mode: u64 = match parse_number(&digits, 8) {
            Some(v) => v,
            None => {
                return Err(TreeError::ModeNotOctal);
            },
        };
        if mode > 0xffff_ffff {
            return Err(TreeError::ModeNotOctal);
        }
        let nul: usize = find_byte(data, 0, space + 1);
        if nul >= n {
            return Err(TreeError::NoPathEnd);
        }
        if 21 > n - nul {
            return Err(TreeError::TooShort);
        }
        let name = match utf8_string(slice_subrange(data, space + 1, nul)) {
            Some(s) => s,
            None => {
                return Err(TreeError::PathNotUtf8);
            },
        };
        let object_id = hex_encode(slice_subrange(data, nul + 1, nul + 21));
        let node = TreeNode { mode: mode as u32, name, object_id };
        Ok((node, nul + 21))
    }

    /// The entry for a file in the index.
    pub fn from_index_entry(ixe: &IndexEntry) -> (r: Self)
        ensures
            r@ == (NodeView {
                mode: entry_mode(ixe@),
                name: file_of_path(ixe.object_name@),
                object_id: ixe.object_id@,
            }),
    {
        TreeNode {
            mode: ixe.mode(),
            name: ixe.object_file_name().to_string(),
            object_id: ixe.object_id.clone(),
        }
    }

    /// The entry for a directory.
    pub fn from_subtree(dir_name: &str, object_id: &str) -> (r: Self)
        ensures
            r@ == (NodeView {
                mode: DIRECTORY_MODE as int,
                name: dir_name@,
                object_id: object_id@,
            }),
    {
        TreeNode {
            mode: DIRECTORY_MODE,
            name: dir_name.to_string(),
            object_id: object_id.to_string(),
        }
    }

    /// The file name or directory name.
    pub fn name(&self) -> (r: &str)
        ensures
            r@ == self.name@,
    {
        self.name.as_str()
    }
}

/// A single directory of a commit.
#[derive(Debug)]
pub struct Tree {
    /// The entries.
    pub entries: Vec<TreeNode>,
}

impl Default for Tree {
    fn default() -> (r: Self)
        ensures
            r.entries@ == Seq::<TreeNode>::empty(),
    {
        Tree::new()
    }
}

/// What sorted entries hold is what the entries hold, sorted.
pub proof fn lemma_sorted_views(s: Seq<TreeNode>)
    ensures
        node_views(stable_sort(s)) == sorted_by(node_views(s), node_key()),
{
    lemma_sort_map(s, node_view(), key_of::<TreeNode>(), node_key());
}

impl Tree {
    /// A tree without entries.
    pub fn new() -> (r: Tree)
        ensures
            r.entries@ == Seq::<TreeNode>::empty(),
    {
        Tree { entries: Vec::new() }
    }

    /// The entries.
    pub fn entries(&self) -> (r: &[TreeNode])
        ensures
            r@ == self.entries@,
    {
        self.entries.as_slice()
    }

    /// Adds entries to the tree, which is sorted afterwards.
    pub fn add_entries(&mut self, entries: &mut Vec<TreeNode>)
        ensures
            final(self).entries@ == stable_sort(old(self).entries@ + old(entries)@),
            node_views(final(self).entries@) == sorted_by(
                node_views(old(self).entries@) + node_views(old(entries)@),
                node_key(),
            ),
            final(entries)@ == Seq::<TreeNode>::empty(),
    {
        let ghost all = self.entries@ + entries@;
        assert(node_views(all) =~= node_views(self.entries@) + node_views(entries@));
        self.entries.append(entries);
        sort_items(&mut self.entries);
        proof {
            lemma_sorted_views(all);
        }
    }
}

impl GitObject for Tree {
    open spec fn spec_kind(&self) -> KindView {
        KindView::Tree
    }

    open spec fn content(&self) -> Seq<u8> {
        tree_bytes(node_views(self.entries@))
    }

    open spec fn readable(data: Seq<u8>) -> bool {
        true
    }

    open spec fn reads_as(data: Seq<u8>, r: Result<Self, ObjectError>) -> bool {
        match parse_nodes(data) {
            Ok(nodes) => r matches Ok(tree) && node_views(tree.entries@) == sorted_by(
                nodes,
                node_key(),
            ),
            Err(e) => r == Err::<Tree, ObjectError>(ObjectError::Tree(e)),
        }
    }

    fn kind(&self) -> (r: ObjectKind) {
        ObjectKind::Tree
    }

    fn serialise(&self, buf: &mut Vec<u8>)
        ensures
            final(buf)@ == old(buf)@ + self.content(),
    {
        let ghost start = buf@;
        let ghost all = node_views(self.entries@);
        let mut i: usize = 0;
        assert(all.take(0) =~= Seq::<NodeView>::empty());
        assert(start + tree_bytes(all.take(0)) =~= start);
        while i < self.entries.len()
            invariant
                i <= self.entries@.len(),
                all == node_views(self.entries@),
                buf@ == start + tree_bytes(all.take(i as int)),
            decreases self.entries@.len() - i,
        {
            let ghost next = all.take(i + 1);
            let ghost before = buf@;
            assert(next.drop_last() =~= all.take(i as int));
            assert(next.last() == self.entries@[i as int]@);
            let entry = &self.entries[i];
            match hex_decode(entry.object_id.as_str()) {
                Some(id) => {
                    let mut node: Vec<u8> = Vec::new();
                    let mode = padded_numeral_of(entry.mode as u64, 8, 5);
                    let mode_text = string_of(&mode);
                    push_bytes(&mut node, mode_text.as_str().as_bytes());
                    node.push(0x20);
                    push_bytes(&mut node, entry.name().as_bytes());
                    node.push(0);
                    let mut id_bytes = id;
                    node.append(&mut id_bytes);
                    assert(node@ =~= node_bytes(entry@));
                    buf.append(&mut node);
                    assert(buf@ == before + node_bytes(entry@));
                    proof {
                        crate::index::lemma_append(
                            start,
                            tree_bytes(all.take(i as int)),
                            node_bytes(entry@),
                        );
                    }
                },
                None => {
                    assert(tree_bytes(all.take(i as int)) + Seq::<u8>::empty() =~= tree_bytes(
                        all.take(i as int),
                    ));
                },
            }
            i = i + 1;
        }
        assert(all.take(i as int) =~= all);
        proof {
            if start.len() == 0 {
                assert(start + tree_bytes(all) =~= tree_bytes(all));
            }
        }
    }

    fn can_read(data: &[u8]) -> (r: bool) {
        true
    }

    fn deserialise(data: &[u8]) -> (r: Result<Self, ObjectError>) {
        let mut entries: Vec<TreeNode> = Vec::new();
        let n: usize = data.len();
        let mut pos: usize = 0;
        assert(data@.skip(0) =~= data@);
        proof {
            match parse_nodes(data@) {
                Ok(rest) => {
                    assert(node_views(entries@) + rest =~= rest);
                },
                Err(_) => {},
            }
        }
        while pos < n
            invariant
                n == data@.len(),
                pos <= n,
                match parse_nodes(data@.skip(pos as int)) {
                    Ok(rest) => parse_nodes(data@) == Ok::<Seq<NodeView>, TreeError>(
                        node_views(entries@) + rest,
                    ),
                    Err(e) => parse_nodes(data@) == Err::<Seq<NodeView>, TreeError>(e),
                },
            decreases n - pos,
        {
            let here = slice_subrange(data, pos, n);
            let ghost rest_bytes = data@.skip(pos as int);
            assert(here@ =~= rest_bytes);
            match TreeNode::from_bytes(here) {
                Err(e) => {
                    return Err(ObjectError::Tree(e));
                },
                Ok((node, length)) => {
                    let ghost before = entries@;
                    let ghost seen = node@;
                    entries.push(node);
                    proof {
                        let next = rest_bytes.skip(length as int);
                        assert(next =~= data@.skip(pos + length));
                        assert(node_views(entries@) =~= node_views(before).push(seen));
                        match parse_nodes(next) {
                            Ok(rest) => {
                                assert(node_views(before) + (seq![seen] + rest) =~= node_views(
                                    entries@,
                                ) + rest);
                            },
                            Err(_) => {},
                        }
                    }
                    pos = pos + length;
                },
            }
        }
        proof {
            assert(data@.skip(pos as int) =~= Seq::<u8>::empty());
            assert(node_views(entries@) + Seq::<NodeView>::empty() =~= node_views(entries@));
        }
        let mut tree = Tree::new();
        let ghost nodes = node_views(entries@);
        assert(node_views(tree.entries@) + nodes =~= nodes);
        tree.add_entries(&mut entries);
        Ok(tree)
    }
}

/// Whether the stored form of an entry says all there is to say of it: its mode has five or
/// six octal digits, no byte of its name is NUL, and its ID is a full object ID.
pub open spec fn storable_node(n: NodeView) -> bool {
    &&& 0 <= n.mode < 0o1000000
    &&& !encode_utf8(n.name).contains(0u8)
    &&& is_full_id(n.object_id)
}

proof fn lemma_mode_length(mode: int)
    requires
        0 <= mode < 0o1000000,
    ensures
        zero_padded(numeral(mode as nat, 8), 5).len() == 5 || zero_padded(
            numeral(mode as nat, 8),
            5,
        ).len() == 6,
{
    reveal_with_fuel(numeral, 7);
}

proof fn lemma_mode_bytes(mode: int)
    requires
        0 <= mode < 0o1000000,
    ensures
        ({
            let m = mode_bytes(mode);
            &&& m.len() == 5 || m.len() == 6
            &&& valid_utf8(m)
            &&& parsed_number(decode_utf8(m), 8) == Some(mode as nat)
            &&& forall|i: int| 0 <= i < m.len() ==> #[trigger] m[i] != 0x20
        }),
{
    let text = numeral(mode as nat, 8);
    let padded = zero_padded(text, 5);
    lemma_numeral(mode as nat, 8);
    assert forall|i: int| 0 <= i < padded.len() implies (#[trigger] padded[i] as u32) < 128
        && padded[i] != ' ' by {
        if text.len() < 5 && i >= 5 - text.len() {
            assert(padded[i] == text[i - (5 - text.len())]);
            assert(digit_value(padded[i]) < 8);
        } else if text.len() >= 5 {
            assert(padded[i] == text[i]);
            assert(digit_value(padded[i]) < 8);
        }
    }
    lemma_encode_ascii(padded);
    lemma_decode_encode(padded);
    lemma_mode_length(mode);
    theorem_parse_padded_numeral(mode as nat, 8, 5);
    let m = mode_bytes(mode);
    assert forall|i: int| 0 <= i < m.len() implies #[trigger] m[i] != 0x20 by {
        assert(m[i] == padded[i] as u8);
        assert(padded[i] != ' ');
    }
}

proof fn lemma_node_parts(m: Seq<u8>, name: Seq<u8>, id: Seq<u8>, rest: Seq<u8>, d: Seq<u8>)
    requires
        d == m + seq![0x20u8] + name + seq![0u8] + id + rest,
        forall|i: int| 0 <= i < m.len() ==> #[trigger] m[i] != 0x20,
        !name.contains(0u8),
        id.len() == 20,
    ensures
        first_index(d, 0x20u8, 0) == m.len(),
        first_index(d, 0u8, m.len() as int + 1) == m.len() as int + 1 + name.len(),
        d.take(m.len() as int) == m,
        d.subrange(m.len() as int + 1, m.len() as int + 1 + name.len()) == name,
        d.subrange(m.len() as int + 2 + name.len(), m.len() as int + 22 + name.len()) == id,
        d.len() >= m.len() as int + name.len() + 22,
        d.skip(m.len() as int + 22 + name.len()) == rest,
{
    let sp = m.len() as int;
    let nul = sp + 1 + name.len();
    assert forall|j: int| 0 <= j < sp implies d[j] != 0x20 by {
        assert(d[j] == m[j]);
    }
    assert(d[sp] == 0x20);
    lemma_first_index_is(d, 0x20u8, 0, sp);
    assert forall|j: int| sp + 1 <= j < nul implies d[j] != 0 by {
        assert(d[j] == name[j - sp - 1]);
        if d[j] == 0 {
            assert(name.contains(0u8));
        }
    }
    assert(d[nul] == 0);
    lemma_first_index_is(d, 0u8, sp + 1, nul);
    assert(d.take(sp) =~= m);
    assert(d.subrange(sp + 1, nul) =~= name);
    assert(d.subrange(nul + 1, nul + 21) =~= id);
    assert(d.skip(nul + 21) =~= rest);
}

/// Reading a stored entry gives back the entry that was stored, whatever follows it.
pub proof fn theorem_node_round_trip(n: NodeView, rest: Seq<u8>)
    requires
        storable_node(n),
    ensures
        parse_node(node_bytes(n) + rest) == Ok::<(NodeView, int), TreeError>(
            (n, node_bytes(n).len() as int),
        ),
        (node_bytes(n) + rest).skip(node_bytes(n).len() as int) == rest,
{
    let m = mode_bytes(n.mode);
    let name = encode_utf8(n.name);
    let id = hex_bytes(n.object_id);
    let d = node_bytes(n) + rest;
    lemma_mode_bytes(n.mode);
    lemma_decode_encode(n.name);
    theorem_hex_round_trip_text(n.object_id);
    lemma_node_parts(m, name, id, rest, d);
    assert(node_bytes(n).len() == m.len() + name.len() + 22);
}

/// The stored forms of the entries from the first on.
proof fn lemma_tree_bytes_front(s: Seq<NodeView>)
    requires
        s.len() > 0,
        forall|i: int| 0 <= i < s.len() ==> is_hex_text((#[trigger] s[i]).object_id),
    ensures
        tree_bytes(s) == node_bytes(s[0]) + tree_bytes(s.drop_first()),
    decreases s.len(),
{
    if s.len() == 1 {
        assert(s.drop_last() =~= Seq::<NodeView>::empty());
        assert(s.drop_first() =~= Seq::<NodeView>::empty());
        assert(s.last() == s[0]);
        assert(tree_bytes(s) =~= node_bytes(s[0]) + tree_bytes(s.drop_first()));
    } else {
        let t = s.drop_last();
        assert forall|i: int| 0 <= i < t.len() implies is_hex_text((#[trigger] t[i]).object_id) by {
            assert(t[i] == s[i]);
        }
        lemma_tree_bytes_front(t);
        assert(s.drop_first().drop_last() =~= t.drop_first());
        assert(s.drop_first().last() == s.last());
        assert(s.last() == s[s.len() - 1]);
        crate::index::lemma_append(node_bytes(s[0]), tree_bytes(t.drop_first()), node_bytes(
            s.last(),
        ));
    }
}

proof fn lemma_parse_nodes(s: Seq<NodeView>)
    requires
        forall|i: int| 0 <= i < s.len() ==> storable_node(#[trigger] s[i]),
    ensures
        parse_nodes(tree_bytes(s)) == Ok::<Seq<NodeView>, TreeError>(s),
    decreases s.len(),
{
    if s.len() > 0 {
        let rest = s.drop_first();
        assert forall|i: int| 0 <= i < rest.len() implies storable_node(#[trigger] rest[i]) by {
            assert(rest[i] == s[i + 1]);
        }
        lemma_tree_bytes_front(s);
        theorem_node_round_trip(s[0], tree_bytes(rest));
        lemma_parse_nodes(rest);
        assert(node_bytes(s[0]).len() > 0);
        assert(seq![s[0]] + rest =~= s);
    } else {
        assert(s =~= Seq::<NodeView>::empty());
    }
}

/// Reading a stored tree gives back the entries that were stored, where they are in order, as
/// those of every tree are that was built by adding entries.
pub proof fn theorem_tree_round_trip(s: Seq<NodeView>)
    requires
        forall|i: int| 0 <= i < s.len() ==> storable_node(#[trigger] s[i]),
        in_order(s, node_key()),
    ensures
        parse_nodes(tree_bytes(s)) == Ok::<Seq<NodeView>, TreeError>(s),
        sorted_by(s, node_key()) == s,
{
    lemma_parse_nodes(s);
    theorem_sort_in_order(s, node_key());
}

/// An entry that is cut off anywhere is not read as an entry.
pub proof fn theorem_cut_entry_is_refused(n: NodeView, k: int)
    requires
        storable_node(n),
        0 < k < node_bytes(n).len(),
    ensures
        parse_node(node_bytes(n).take(k)) is Err,
        parse_nodes(node_bytes(n).take(k)) is Err,
{
    let d = node_bytes(n);
    let p = d.take(k);
    theorem_node_round_trip(n, Seq::empty());
    assert(d + Seq::<u8>::empty() =~= d);
    let space = first_index(d, 0x20u8, 0);
    let nul = first_index(d, 0u8, space + 1);
    crate::text::lemma_first_index(d, 0x20u8, 0);
    crate::text::lemma_first_index(d, 0u8, space + 1);
    assert(d.subrange(nul + 1, nul + 21).len() == 20);
    if k <= space {
        lemma_first_index_is(p, 0x20u8, 0, k);
    } else {
        lemma_first_index_is(p, 0x20u8, 0, space);
        if k <= nul {
            lemma_first_index_is(p, 0u8, space + 1, k);
        } else {
            lemma_first_index_is(p, 0u8, space + 1, nul);
        }
    }
}

} // verus!
