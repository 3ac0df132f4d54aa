//! The format of commits and tags: fields with one or more values, then a message.

use vstd::prelude::*;
use vstd::slice::slice_subrange;
use vstd::utf8::{decode_utf8, encode_utf8, valid_utf8};

use crate::helpers::{append_newline_if_necessary, with_newline};
use crate::index::push_bytes;
use crate::interop::utf8_string;
use crate::objects::errors::ObjectError;
use crate::text::{
    chars_of, find_byte, first_index, replace_char, replace_in_text, string_of, texts, trim_end,
    trim_end_chars,
};

verus! {

broadcast use vstd::string::group_string_axioms;

/// `indexmap::IndexMap`, a map that keeps the order in which its keys came.
#[verifier::external_type_specification]
#[verifier::external_body]
#[verifier::reject_recursive_types(K)]
#[verifier::reject_recursive_types(V)]
#[verifier::reject_recursive_types(S)]
pub struct ExIndexMap<K, V, S>(indexmap::IndexMap<K, V, S>);

/// The fields of a commit or tag.
pub type Fields = indexmap::IndexMap<String, Vec<String>>;

/// The name and values of each field, in order.
pub type FieldsView = Seq<(Seq<char>, Seq<Seq<char>>)>;

/// The keys of a map in order, each with its value.
pub uninterp spec fn fields_of(m: indexmap::IndexMap<String, Vec<String>>) -> Seq<
    (Seq<char>, Seq<Seq<char>>),
>;

/// The index of a field, or the number of fields where it is not among them.
pub open spec fn field_index(fields: FieldsView, name: Seq<char>) -> int
    decreases fields.len(),
{
    if fields.len() == 0 {
        0
    } else if fields[0].0 == name {
        0
    } else {
        1 + field_index(fields.drop_first(), name)
    }
}

/// What [`field_index`] returns.
pub proof fn lemma_field_index(fields: FieldsView, name: Seq<char>)
    ensures
        0 <= field_index(fields, name) <= fields.len(),
        field_index(fields, name) < fields.len() ==> fields[field_index(fields, name)].0 == name,
        forall|j: int| 0 <= j < field_index(fields, name) ==> (#[trigger] fields[j]).0 != name,
    decreases fields.len(),
{
    if fields.len() > 0 && fields[0].0 != name {
        let rest = fields.drop_first();
        lemma_field_index(rest, name);
        assert forall|j: int| 0 <= j < field_index(fields, name) implies (#[trigger] fields[j]).0
            != name by {
            if j > 0 {
                assert(rest[j - 1] == fields[j]);
            }
        }
    }
}

/// Whether there is a field of the given name.
pub open spec fn has_field(fields: FieldsView, name: Seq<char>) -> bool {
    field_index(fields, name) < fields.len()
}

/// The values of a field; none where there is no such field.
pub open spec fn field_values(fields: FieldsView, name: Seq<char>) -> Seq<Seq<char>> {
    if has_field(fields, name) {
        fields[field_index(fields, name)].1
    } else {
        Seq::empty()
    }
}

/// The fields with the values of one set, which comes last where it is new.
pub open spec fn with_field(
    fields: FieldsView,
    name: Seq<char>,
    values: Seq<Seq<char>>,
) -> FieldsView {
    if has_field(fields, name) {
        fields.update(field_index(fields, name), (name, values))
    } else {
        fields.push((name, values))
    }
}

/// The fields with a value added to those of one.
pub open spec fn with_field_value(
    fields: FieldsView,
    name: Seq<char>,
    value: Seq<char>,
) -> FieldsView {
    with_field(fields, name, field_values(fields, name).push(value))
}

/// `indexmap::IndexMap::new` makes a map without keys.
#[verifier::external_body]
pub(crate) fn new_fields() -> (r: Fields)
    ensures
        fields_of(r) == Seq::<(Seq<char>, Seq<Seq<char>>)>::empty(),
{
    indexmap::IndexMap::new()
}

/// `indexmap::IndexMap::get` finds the value of a key that is in the map.
#[verifier::external_body]
pub(crate) fn get_field(m: &Fields, name: &str) -> (r: Option<Vec<String>>)
    ensures
        r is Some <==> has_field(fields_of(*m), name@),
        r matches Some(v) ==> texts(v@) == field_values(fields_of(*m), name@),
{
    m.get(name).cloned()
}

/// `indexmap::IndexMap::insert` sets the value of a key: in its place where it is in the map,
/// and otherwise last.
#[verifier::external_body]
pub(crate) fn set_field(m: &mut Fields, name: String, values: Vec<String>)
    ensures
        fields_of(*final(m)) == with_field(fields_of(*old(m)), name@, texts(values@)),
{
    m.insert(name, values);
}

/// The name and values of each field of a list.
pub open spec fn list_view(v: Seq<(String, Vec<String>)>) -> FieldsView {
    Seq::new(v.len(), |i: int| (v[i].0@, texts(v[i].1@)))
}

/// `indexmap::IndexMap::iter` goes through the keys and values in order.
#[verifier::external_body]
pub(crate) fn list_fields(m: &Fields) -> (r: Vec<(String, Vec<String>)>)
    ensures
        list_view(r@) == fields_of(*m),
{
    m.iter().map(|(k, v)| (k.clone(), v.clone())).collect()
}

/// Adds a value to those of a field.
pub(crate) fn add_field_value(m: &mut Fields, name: String, value: String)
    ensures
        fields_of(*final(m)) == with_field_value(fields_of(*old(m)), name@, value@),
{
    let mut values: Vec<String> = match get_field(m, name.as_str()) {
        Some(v) => v,
        None => Vec::new(),
    };
    let ghost before = values@;
    assert(texts(values@) =~= field_values(fields_of(*m), name@));
    values.push(value);
    assert(texts(values@) =~= texts(before).push(value@));
    set_field(m, name, values);
}

/// The first value of a field.
pub fn first_value(m: &Fields, name: &str) -> (r: Option<String>)
    ensures
        r is Some <==> field_values(fields_of(*m), name@).len() > 0,
        r matches Some(v) ==> v@ == field_values(fields_of(*m), name@)[0],
{
    match get_field(m, name) {
        None => None,
        Some(values) => {
            assert(texts(values@).len() == values@.len());
            if values.len() == 0 {
                None
            } else {
                assert(texts(values@)[0] == values@[0]@);
                Some(values[0].clone())
            }
        },
    }
}

/// The index of the first `with` from an index on that is not directly followed by `without`,
/// or the length where there is none.
pub open spec fn index_without(d: Seq<u8>, with: u8, without: u8, from: int) -> int
    decreases d.len() - from,
{
    if from < 0 || from >= d.len() {
        d.len() as int
    } else if d[from] == with && (from + 1 >= d.len() || d[from + 1] != without) {
        from
    } else {
        index_without(d, with, without, from + 1)
    }
}

/// The index of the first `with` that is not directly followed by `without`.
pub fn find_without(data: &[u8], with: u8, without: u8) -> (r: Option<usize>)
    ensures
        match r {
            Some(i) => i < data@.len() && i == index_without(data@, with, without, 0),
            None => index_without(data@, with, without, 0) == data@.len(),
        },
{
    let mut i: usize = 0;
    while i < data.len()
        invariant
            i <= data@.len(),
            index_without(data@, with, without, 0) == index_without(
                data@,
                with,
                without,
                i as int,
            ),
        decreases data@.len() - i,
    {
        if data[i] == with && (i + 1 >= data.len() || data[i + 1] != without) {
            return Some(i);
        }
        i = i + 1;
    }
    None
}

/// A stored value with the space removed that follows each line feed in it.
pub open spec fn unfolded(s: Seq<char>) -> Seq<char>
    decreases s.len(),
{
    if s.len() == 0 {
        s
    } else if s.last() == ' ' && s.len() >= 2 && s[s.len() - 2] == '\n' {
        unfolded(s.drop_last())
    } else {
        unfolded(s.drop_last()).push(s.last())
    }
}

fn unfold(cs: &[char]) -> (r: String)
    ensures
        r@ == unfolded(cs@),
{
    let mut out = String::new();
    let mut i: usize = 0;
    assert(cs@.take(0) =~= Seq::<char>::empty());
    while i < cs.len()
        invariant
            i <= cs@.len(),
            out@ == unfolded(cs@.take(i as int)),
        decreases cs@.len() - i,
    {
        let ghost next = cs@.take(i + 1);
        assert(next.drop_last() =~= cs@.take(i as int));
        assert(next.last() == cs@[i as int]);
        assert(i > 0 ==> next[next.len() - 2] == cs@[i - 1]);
        if !(cs[i] == ' ' && i > 0 && cs[i - 1] == '\n') {
            out.push(cs[i]);
        }
        i = i + 1;
    }
    assert(cs@.take(cs@.len() as int) =~= cs@);
    out
}

/// Where the first field of the data has its parts: the length of its name, and the end of its
/// value.
pub open spec fn name_length(d: Seq<u8>) -> int {
    first_index(d, 0x20u8, 0)
}

/// The index of the line feed that ends the value of the first field, or the length.
pub open spec fn value_end(d: Seq<u8>) -> int {
    name_length(d) + 1 + index_without(d.skip(name_length(d) + 1), 0x0au8, 0x20u8, 0)
}

/// Whether the message comes next: a line feed stands before any space.
pub open spec fn at_message(d: Seq<u8>) -> bool {
    name_length(d) >= d.len() || first_index(d, 0x0au8, 0) < name_length(d)
}

/// Whether data do not run out before the message: they are not empty, and where a field ends
/// with a line feed the same holds of what follows it.  What follows a field that is not valid
/// UTF-8 does not matter.
pub open spec fn kvlm_readable(d: Seq<u8>) -> bool
    decreases d.len(),
{
    &&& d.len() > 0
    &&& (at_message(d) || !valid_utf8(d.take(name_length(d))) || !valid_utf8(
        d.subrange(name_length(d) + 1, value_end(d)),
    ) || value_end(d) >= d.len() || !(0 <= value_end(d)) || kvlm_readable(
        d.skip(value_end(d) + 1),
    ))
}

/// The fields, added to those that came before, and the message that data hold, or an error
/// where a part is not valid UTF-8.
pub open spec fn kvlm_read(d: Seq<u8>, fields: FieldsView) -> Result<
    (FieldsView, Seq<char>),
    ObjectError,
>
    decreases d.len(),
{
    let name = d.take(name_length(d));
    let value = d.subrange(name_length(d) + 1, value_end(d));
    if d.len() == 0 {
        Err(ObjectError::NotUtf8)
    } else if at_message(d) {
        if valid_utf8(d.skip(1)) {
            Ok((fields, decode_utf8(d.skip(1))))
        } else {
            Err(ObjectError::NotUtf8)
        }
    } else if !valid_utf8(name) || !valid_utf8(value) {
        Err(ObjectError::NotUtf8)
    } else {
        let more = with_field_value(fields, decode_utf8(name), unfolded(decode_utf8(value)));
        if value_end(d) >= d.len() || !(0 <= value_end(d)) {
            Ok((more, Seq::empty()))
        } else {
            kvlm_read(d.skip(value_end(d) + 1), more)
        }
    }
}

/// What stands at the start of the data.
enum Part {
    /// The message, or nothing.
    Message,
    /// A field that is not valid UTF-8.
    Invalid,
    /// A field that the data end with.
    Last(String, String),
    /// A field, and where the next part starts.
    Field(String, String, usize),
}

fn next_part(d: &[u8]) -> (r: Part)
    requires
        d@.len() > 0,
    ensures
        match r {
            Part::Message => at_message(d@),
            Part::Invalid => !at_message(d@) && (!valid_utf8(d@.take(name_length(d@)))
                || !valid_utf8(d@.subrange(name_length(d@) + 1, value_end(d@)))),
            Part::Last(name, value) => !at_message(d@) && valid_utf8(
                d@.take(name_length(d@)),
            ) && valid_utf8(d@.subrange(name_length(d@) + 1, value_end(d@))) && name@
                == decode_utf8(d@.take(name_length(d@))) && value@ == unfolded(
                decode_utf8(d@.subrange(name_length(d@) + 1, value_end(d@))),
            ) && value_end(d@) >= d@.len(),
            Part::Field(name, value, next) => !at_message(d@) && valid_utf8(
                d@.take(name_length(d@)),
            ) && valid_utf8(d@.subrange(name_length(d@) + 1, value_end(d@))) && name@
                == decode_utf8(d@.take(name_length(d@))) && value@ == unfolded(
                decode_utf8(d@.subrange(name_length(d@) + 1, value_end(d@))),
            ) && 0 <= value_end(d@) < d@.len() && next == value_end(d@) + 1,
        },
{
    let n: usize = d.len();
    let space: usize = find_byte(d, 0x20, 0);
    let line_feed: usize = find_byte(d, 0x0a, 0);
    if space >= n || line_feed < space {
        return Part::Message;
    }
    let name_bytes = slice_subrange(d, 0, space);
    assert(name_bytes@ =~= d@.take(space as int));
    let rest = slice_subrange(d, space + 1, n);
    assert(rest@ =~= d@.skip(space + 1));
    let end: usize = match find_without(rest, 0x0a, 0x20) {
        Some(i) => space + 1 + i,
        None => n,
    };
    assert(end == value_end(d@));
    let name = match utf8_string(name_bytes) {
        Some(s) => s,
        None => {
            return Part::Invalid;
        },
    };
    let value = match utf8_string(slice_subrange(d, space + 1, end)) {
        Some(s) => s,
        None => {
            return Part::Invalid;
        },
    };
    let cs = chars_of(value.as_str());
    let value = unfold(&cs);
    if end >= n {
        Part::Last(name, value)
    } else {
        Part::Field(name, value, end + 1)
    }
}

/// Whether data do not run out before the message.
pub fn kvlm_can_read(d: &[u8]) -> (r: bool)
    ensures
        r == kvlm_readable(d@),
{
    let n: usize = d.len();
    let mut pos: usize = 0;
    assert(d@.skip(0) =~= d@);
    while pos < n
        invariant
            n == d@.len(),
            pos <= n,
            kvlm_readable(d@) == kvlm_readable(d@.skip(pos as int)),
        decreases n - pos,
    {
        let here = slice_subrange(d, pos, n);
        let ghost rest = d@.skip(pos as int);
        assert(here@ =~= rest);
        match next_part(here) {
            Part::Field(_, _, next) => {
                assert(rest.skip(next as int) =~= d@.skip(pos + next));
                pos = pos + next;
            },
            _ => {
                return true;
            },
        }
    }
    false
}

/// Reads the fields of a commit or tag and its message.
pub fn kvlm_parse(raw_data: &[u8], map: &mut Fields) -> (r: Result<String, ObjectError>)
    requires
        kvlm_readable(raw_data@),
    ensures
        match r {
            Ok(message) => kvlm_read(raw_data@, fields_of(*old(map))) == Ok::<
                (FieldsView, Seq<char>),
                ObjectError,
            >((fields_of(*final(map)), message@)),
            Err(e) => kvlm_read(raw_data@, fields_of(*old(map))) == Err::<
                (FieldsView, Seq<char>),
                ObjectError,
            >(e),
        },
{
    let n: usize = raw_data.len();
    let mut pos: usize = 0;
    assert(raw_data@.skip(0) =~= raw_data@);
    while pos < n
        invariant
            n == raw_data@.len(),
            pos <= n,
            kvlm_readable(raw_data@.skip(pos as int)),
            kvlm_read(raw_data@, fields_of(*old(map))) == kvlm_read(
                raw_data@.skip(pos as int),
                fields_of(*map),
            ),
        decreases n - pos,
    {
        let here = slice_subrange(raw_data, pos, n);
        let ghost rest = raw_data@.skip(pos as int);
        assert(here@ =~= rest);
        match next_part(here) {
            Part::Message => {
                let body = slice_subrange(here, 1, here.len());
                assert(body@ =~= rest.skip(1));
                return match utf8_string(body) {
                    Some(message) => Ok(message),
                    None => Err(ObjectError::NotUtf8),
                };
            },
            Part::Invalid => {
                return Err(ObjectError::NotUtf8);
            },
            Part::Last(name, value) => {
                add_field_value(map, name, value);
                return Ok(String::new());
            },
            Part::Field(name, value, next) => {
                add_field_value(map, name, value);
                assert(rest.skip(next as int) =~= raw_data@.skip(pos + next));
                pos = pos + next;
            },
        }
    }
    Err(ObjectError::NotUtf8)
}

/// A value as it is stored: a space follows each line feed in it, and no white space ends it.
pub open spec fn folded(value: Seq<char>) -> Seq<char> {
    trim_end(replace_char(value, '\n', seq!['\n', ' ']))
}

/// A stored value of a field: the name, a space, the folded value, and a line feed.
pub open spec fn value_bytes(name: Seq<char>, value: Seq<char>) -> Seq<u8> {
    encode_utf8(name) + seq![0x20u8] + encode_utf8(folded(value)) + seq![0x0au8]
}

/// The stored values of a field, one after the other.
pub open spec fn values_bytes(name: Seq<char>, values: Seq<Seq<char>>) -> Seq<u8>
    decreases values.len(),
{
    if values.len() == 0 {
        Seq::empty()
    } else {
        values_bytes(name, values.drop_last()) + value_bytes(name, values.last())
    }
}

/// The stored fields, without one that has no name.
pub open spec fn fields_bytes(fields: FieldsView) -> Seq<u8>
    decreases fields.len(),
{
    if fields.len() == 0 {
        Seq::empty()
    } else {
        fields_bytes(fields.drop_last()) + if fields.last().0.len() == 0 {
            Seq::empty()
        } else {
            values_bytes(fields.last().0, fields.last().1)
        }
    }
}

/// A stored commit or tag: its fields, an empty line, and its message.
pub open spec fn kvlm_bytes(fields: FieldsView, message: Seq<char>) -> Seq<u8> {
    fields_bytes(fields) + seq![0x0au8] + encode_utf8(with_newline(message))
}

fn push_value(buf: &mut Vec<u8>, name: &str, value: &str)
    ensures
        final(buf)@ == old(buf)@ + value_bytes(name@, value@),
{
    let mut out: Vec<u8> = Vec::new();
    push_bytes(&mut out, name.as_bytes());
    out.push(0x20);
    let cs = chars_of(value);
    let with_spaces = replace_in_text(&cs, '\n', "\n ");
    proof {
        reveal_strlit("\n ");
        assert("\n "@ =~= seq!['\n', ' ']);
    }
    let spaced = chars_of(with_spaces.as_str());
    let value_text = string_of(trim_end_chars(&spaced));
    push_bytes(&mut out, value_text.as_str().as_bytes());
    out.push(0x0a);
    assert(out@ =~= value_bytes(name@, value@));
    buf.append(&mut out);
}

fn push_values(buf: &mut Vec<u8>, name: &str, values: &[String])
    ensures
        final(buf)@ == old(buf)@ + values_bytes(name@, texts(values@)),
{
    let ghost start = buf@;
    let ghost all = texts(values@);
    let mut i: usize = 0;
    assert(all.take(0) =~= Seq::<Seq<char>>::empty());
    assert(start + values_bytes(name@, all.take(0)) =~= start);
    while i < values.len()
        invariant
            i <= values@.len(),
            all == texts(values@),
            buf@ == start + values_bytes(name@, all.take(i as int)),
        decreases values@.len() - i,
    {
        push_value(buf, name, values[i].as_str());
        proof {
            assert(all.take(i + 1).drop_last() =~= all.take(i as int));
            assert(all.take(i + 1).last() == values@[i as int]@);
            crate::index::lemma_append(
                start,
                values_bytes(name@, all.take(i as int)),
                value_bytes(name@, values@[i as int]@),
            );
        }
        i = i + 1;
    }
    assert(all.take(i as int) =~= all);
}

/// Writes a commit or tag in the form in which it is stored, in place of what the buffer holds.
pub fn kvlm_serialise(map: &Fields, message: &str, buf: &mut Vec<u8>)
    ensures
        final(buf)@ == kvlm_bytes(fields_of(*map), message@),
{
    buf.clear();
    let list = list_fields(map);
    let ghost all = fields_of(*map);
    let mut i: usize = 0;
    assert(all.take(0) =~= Seq::<(Seq<char>, Seq<Seq<char>>)>::empty());
    assert(buf@ =~= fields_bytes(all.take(0)));
    while i < list.len()
        invariant
            i <= list@.len(),
            all == list_view(list@),
            buf@ == fields_bytes(all.take(i as int)),
        decreases list@.len() - i,
    {
        assert(all.take(i + 1).drop_last() =~= all.take(i as int));
        assert(all.take(i + 1).last() == all[i as int]);
        let (name, values) = &list[i];
        if !name.as_str().is_empty() {
            push_values(buf, name.as_str(), values.as_slice());
        } else {
            assert(buf@ + Seq::<u8>::empty() =~= buf@);
        }
        i = i + 1;
    }
    assert(all.take(i as int) =~= all);
    buf.push(0x0a);
    let text = append_newline_if_necessary(message);
    push_bytes(buf, text.as_str().as_bytes());
    assert(buf@ =~= kvlm_bytes(all, message@));
}

} // verus!
