//! Reading a stored commit or tag gives back what was stored.

use vstd::prelude::*;
use vstd::utf8::{encode_scalar, encode_utf8};

use crate::encoding::{
    lemma_decode_encode, lemma_encode_ascii_char, lemma_encode_concat,
    lemma_encode_contains_ascii,
};
use crate::helpers::with_newline;
use crate::objects::errors::ObjectError;
use crate::objects::kvlm::{
    at_message, field_index, field_values, fields_bytes, folded, has_field, index_without,
    kvlm_bytes, kvlm_read, kvlm_readable, lemma_field_index, name_length, unfolded, value_bytes,
    value_end, values_bytes, with_field, with_field_value, FieldsView,
};
use crate::text::{first_index, is_white, lemma_first_index, lemma_first_index_is, replace_char, trim_end};

verus! {

/// Whether a text can be the name of a field: not empty, and without spaces and line feeds.
pub open spec fn storable_name(name: Seq<char>) -> bool {
    name.len() > 0 && !name.contains(' ') && !name.contains('\n')
}

/// Whether the stored form of fields says all there is to say of them: no two have the same
/// name, each has a value, and no value ends with white space.
pub open spec fn storable_fields(fields: FieldsView) -> bool {
    &&& forall|i: int| 0 <= i < fields.len() ==> storable_name((#[trigger] fields[i]).0)
    &&& forall|i: int| 0 <= i < fields.len() ==> (#[trigger] fields[i]).1.len() > 0
    &&& forall|i: int, j: int|
        0 <= i < fields.len() && 0 <= j < fields[i].1.len() ==> trim_end(
            #[trigger] fields[i].1[j],
        ) == fields[i].1[j]
    &&& forall|i: int, j: int|
        0 <= i < j < fields.len() ==> (#[trigger] fields[i]).0 != (#[trigger] fields[j]).0
}

spec fn spaced(v: Seq<char>) -> Seq<char> {
    replace_char(v, '\n', seq!['\n', ' '])
}

/// Whether every line feed of a byte sequence is directly followed by a space.
spec fn feeds_followed(b: Seq<u8>) -> bool {
    forall|i: int|
        0 <= i < b.len() && #[trigger] b[i] == 0x0a ==> i + 1 < b.len() && b[i + 1] == 0x20
}

proof fn lemma_spaced(v: Seq<char>)
    ensures
        unfolded(spaced(v)) == v,
        spaced(v).len() > 0 ==> spaced(v).last() != '\n',
        v.len() > 0 && v.last() != '\n' ==> spaced(v).len() > 0 && spaced(v).last() == v.last(),
        v.len() == 0 ==> spaced(v).len() == 0,
        feeds_followed(encode_utf8(spaced(v))),
    decreases v.len(),
{
    if v.len() > 0 {
        let t = v.drop_last();
        let c = v.last();
        lemma_spaced(t);
        let r = spaced(t);
        assert(v =~= t.push(c));
        if c == '\n' {
            let x = seq!['\n', ' '];
            let s = r + x;
            assert(spaced(v) == s);
            assert(s.drop_last() =~= r.push('\n'));
            assert(s.drop_last().drop_last() =~= r);
            assert(unfolded(s) == unfolded(s.drop_last()));
            assert(unfolded(s.drop_last()) == unfolded(r).push('\n'));
            lemma_encode_concat(r, x);
            lemma_encode_ascii_char('\n');
            lemma_encode_ascii_char(' ');
            lemma_encode_concat(seq!['\n'], seq![' ']);
            assert(x =~= seq!['\n'] + seq![' ']);
            assert(encode_utf8(x) =~= seq![0x0au8, 0x20u8]);
            lemma_feeds_concat(encode_utf8(r), encode_utf8(x));
        } else {
            let x = seq![c];
            let s = r + x;
            assert(spaced(v) == s);
            assert(s.drop_last() =~= r);
            assert(unfolded(s) == unfolded(r).push(c));
            lemma_encode_concat(r, x);
            if encode_utf8(x).contains(0x0au8) {
                lemma_encode_contains_ascii(x, 0x0au8);
                assert(x[0] == '\n');
            }
            assert forall|i: int| 0 <= i < encode_utf8(x).len() implies #[trigger] encode_utf8(x)[i]
                != 0x0a by {
                if encode_utf8(x)[i] == 0x0a {
                    assert(encode_utf8(x).contains(0x0au8));
                }
            }
            lemma_feeds_concat(encode_utf8(r), encode_utf8(x));
        }
    }
}

proof fn lemma_feeds_concat(a: Seq<u8>, b: Seq<u8>)
    requires
        feeds_followed(a),
        feeds_followed(b),
    ensures
        feeds_followed(a + b),
{
    let s = a + b;
    assert forall|i: int| 0 <= i < s.len() && #[trigger] s[i] == 0x0a implies i + 1 < s.len()
        && s[i + 1] == 0x20 by {
        if i < a.len() {
            assert(a[i] == 0x0a);
            assert(a[i + 1] == 0x20);
            assert(s[i + 1] == a[i + 1]);
        } else {
            assert(b[i - a.len()] == 0x0a);
            assert(b[i - a.len() + 1] == 0x20);
        }
    }
}

proof fn lemma_folded(v: Seq<char>)
    requires
        trim_end(v) == v,
    ensures
        folded(v) == spaced(v),
        unfolded(folded(v)) == v,
        feeds_followed(encode_utf8(folded(v))),
{
    lemma_spaced(v);
    if v.len() > 0 {
        assert(!is_white(v.last())) by {
            if is_white(v.last()) {
                lemma_trim_end_shrinks(v.drop_last());
            }
        }
    }
}

proof fn lemma_trim_end_shrinks(s: Seq<char>)
    ensures
        trim_end(s).len() <= s.len(),
    decreases s.len(),
{
    if s.len() > 0 && is_white(s.last()) {
        lemma_trim_end_shrinks(s.drop_last());
    }
}

proof fn lemma_index_without_is(d: Seq<u8>, from: int, i: int)
    requires
        0 <= from <= i < d.len(),
        d[i] == 0x0a,
        i + 1 < d.len(),
        d[i + 1] != 0x20,
        forall|j: int|
            from <= j < i && #[trigger] d[j] == 0x0a ==> j + 1 < d.len() && d[j + 1] == 0x20,
    ensures
        index_without(d, 0x0au8, 0x20u8, from) == i,
    decreases i - from,
{
    if from < i {
        lemma_index_without_is(d, from + 1, i);
    }
}

proof fn lemma_name_bytes(name: Seq<char>)
    requires
        storable_name(name),
    ensures
        encode_utf8(name).len() > 0,
        !encode_utf8(name).contains(0x20u8),
        !encode_utf8(name).contains(0x0au8),
{
    if encode_utf8(name).contains(0x20u8) {
        lemma_encode_contains_ascii(name, 0x20u8);
    }
    if encode_utf8(name).contains(0x0au8) {
        lemma_encode_contains_ascii(name, 0x0au8);
    }
    assert(encode_scalar(name[0] as u32).len() > 0);
}

/// Where the parts of a stored value stand.
proof fn lemma_value_parts(k: Seq<u8>, f: Seq<u8>, rest: Seq<u8>, d: Seq<u8>)
    requires
        d == k + seq![0x20u8] + f + seq![0x0au8] + rest,
        k.len() > 0,
        !k.contains(0x20u8),
        !k.contains(0x0au8),
        feeds_followed(f),
        rest.len() > 0,
        rest[0] != 0x20,
    ensures
        name_length(d) == k.len(),
        !at_message(d),
        value_end(d) == k.len() + 1 + f.len(),
        value_end(d) < d.len(),
        d.take(name_length(d)) == k,
        d.subrange(name_length(d) + 1, value_end(d)) == f,
        d.skip(value_end(d) + 1) == rest,
{
    let n = k.len() as int;
    assert forall|j: int| 0 <= j < n implies d[j] != 0x20 && d[j] != 0x0a by {
        assert(d[j] == k[j]);
        if d[j] == 0x20 {
            assert(k.contains(0x20u8));
        }
        if d[j] == 0x0a {
            assert(k.contains(0x0au8));
        }
    }
    assert(d[n] == 0x20);
    lemma_first_index_is(d, 0x20u8, 0, n);
    lemma_first_index(d, 0x0au8, 0);
    assert(first_index(d, 0x0au8, 0) > n) by {
        let p = first_index(d, 0x0au8, 0);
        if p <= n {
            assert(d[p] == 0x0a);
        }
    }
    let t = d.skip(n + 1);
    assert(t =~= f + seq![0x0au8] + rest);
    let e = f.len() as int;
    assert(t[e] == 0x0a);
    assert(t[e + 1] == rest[0]);
    assert forall|j: int| 0 <= j < e && #[trigger] t[j] == 0x0a implies j + 1 < t.len()
        && t[j + 1] == 0x20 by {
        assert(f[j] == 0x0a);
        assert(f[j + 1] == 0x20);
        assert(t[j + 1] == f[j + 1]);
    }
    lemma_index_without_is(t, 0, e);
    assert(d.take(n) =~= k);
    assert(d.subrange(n + 1, n + 1 + e) =~= f);
    assert(d.skip(n + 1 + e + 1) =~= rest);
}

/// Whether what follows a stored field can follow it: something that does not start with a
/// space.
spec fn follows(rest: Seq<u8>) -> bool {
    rest.len() > 0 && rest[0] != 0x20
}

/// Reading one stored value adds it to its field.
proof fn lemma_read_value(name: Seq<char>, value: Seq<char>, rest: Seq<u8>, fields: FieldsView)
    requires
        storable_name(name),
        trim_end(value) == value,
        follows(rest),
    ensures
        kvlm_read(value_bytes(name, value) + rest, fields) == kvlm_read(
            rest,
            with_field_value(fields, name, value),
        ),
        kvlm_readable(value_bytes(name, value) + rest) == kvlm_readable(rest),
        follows(value_bytes(name, value) + rest),
{
    let k = encode_utf8(name);
    let f = encode_utf8(folded(value));
    let d = value_bytes(name, value) + rest;
    lemma_folded(value);
    lemma_name_bytes(name);
    lemma_value_parts(k, f, rest, d);
    lemma_decode_encode(name);
    lemma_decode_encode(folded(value));
    assert(d[0] == k[0]);
    if d[0] == 0x20 {
        assert(k.contains(0x20u8));
    }
}

proof fn lemma_add_to_last(fields: FieldsView, name: Seq<char>, values: Seq<Seq<char>>, value: Seq<char>)
    requires
        !has_field(fields, name),
    ensures
        with_field_value(fields.push((name, values)), name, value) == fields.push(
            (name, values.push(value)),
        ),
        with_field_value(fields, name, value) == fields.push((name, seq![value])),
{
    let more = fields.push((name, values));
    lemma_field_index(fields, name);
    lemma_field_index(more, name);
    assert(field_index(more, name) == fields.len()) by {
        let i = field_index(more, name);
        assert(more[fields.len() as int].0 == name);
        if i < fields.len() {
            assert(more[i] == fields[i]);
        }
    }
    assert(more.update(fields.len() as int, (name, values.push(value))) =~= fields.push(
        (name, values.push(value)),
    ));
    assert(field_values(fields, name).push(value) =~= seq![value]);
}

/// Reading the stored values of a field gives the field.
proof fn lemma_read_values(
    name: Seq<char>,
    values: Seq<Seq<char>>,
    rest: Seq<u8>,
    fields: FieldsView,
)
    requires
        storable_name(name),
        values.len() > 0,
        forall|j: int| 0 <= j < values.len() ==> trim_end(#[trigger] values[j]) == values[j],
        !has_field(fields, name),
        follows(rest),
    ensures
        kvlm_read(values_bytes(name, values) + rest, fields) == kvlm_read(
            rest,
            fields.push((name, values)),
        ),
        kvlm_readable(values_bytes(name, values) + rest) == kvlm_readable(rest),
        follows(values_bytes(name, values) + rest),
    decreases values.len(),
{
    let t = values.drop_last();
    let v = values.last();
    assert(v == values[values.len() - 1]);
    let more = value_bytes(name, v) + rest;
    assert(values_bytes(name, values) + rest =~= values_bytes(name, t) + more);
    lemma_add_to_last(fields, name, t, v);
    if t.len() == 0 {
        lemma_read_value(name, v, rest, fields);
        assert(values_bytes(name, t) + more =~= more);
        assert(values =~= seq![v]);
    } else {
        lemma_read_value(name, v, rest, fields.push((name, t)));
        assert forall|j: int| 0 <= j < t.len() implies trim_end(#[trigger] t[j]) == t[j] by {
            assert(t[j] == values[j]);
        }
        lemma_read_values(name, t, more, fields);
        assert(values =~= t.push(v));
    }
}

/// Reading stored fields gives the fields.
proof fn lemma_read_fields(fields: FieldsView, rest: Seq<u8>)
    requires
        storable_fields(fields),
        follows(rest),
    ensures
        kvlm_read(fields_bytes(fields) + rest, Seq::empty()) == kvlm_read(rest, fields),
        kvlm_readable(fields_bytes(fields) + rest) == kvlm_readable(rest),
        follows(fields_bytes(fields) + rest),
    decreases fields.len(),
{
    if fields.len() == 0 {
        assert(fields_bytes(fields) + rest =~= rest);
        assert(fields =~= Seq::<(Seq<char>, Seq<Seq<char>>)>::empty());
    } else {
        let t = fields.drop_last();
        let last = fields[fields.len() - 1];
        assert(fields.last() == last);
        assert(storable_name(last.0));
        assert forall|i: int| 0 <= i < t.len() implies storable_name((#[trigger] t[i]).0) by {
            assert(t[i] == fields[i]);
        }
        assert forall|i: int| 0 <= i < t.len() implies (#[trigger] t[i]).1.len() > 0 by {
            assert(t[i] == fields[i]);
        }
        assert forall|i: int, j: int| 0 <= i < t.len() && 0 <= j < t[i].1.len() implies trim_end(
            #[trigger] t[i].1[j],
        ) == t[i].1[j] by {
            assert(t[i] == fields[i]);
            assert(trim_end(fields[i].1[j]) == fields[i].1[j]);
        }
        assert forall|i: int, j: int| 0 <= i < j < t.len() implies (#[trigger] t[i]).0 != (
        #[trigger] t[j]).0 by {
            assert(t[i] == fields[i] && t[j] == fields[j]);
        }
        lemma_field_index(t, last.0);
        assert(!has_field(t, last.0)) by {
            if has_field(t, last.0) {
                let i = field_index(t, last.0);
                assert(t[i] == fields[i]);
                assert(fields[i].0 != last.0);
            }
        }
        assert forall|j: int| 0 <= j < last.1.len() implies trim_end(#[trigger] last.1[j])
            == last.1[j] by {
            assert(trim_end(fields[fields.len() - 1].1[j]) == fields[fields.len() - 1].1[j]);
        }
        lemma_read_values(last.0, last.1, rest, t);
        let more = values_bytes(last.0, last.1) + rest;
        lemma_read_fields(t, more);
        assert(fields_bytes(fields) + rest =~= fields_bytes(t) + more);
        assert(t.push(last) =~= fields);
        assert(last == (last.0, last.1));
    }
}

/// Reading a stored commit or tag gives back its fields and its message, where the message ends
/// with a line feed, as that of every commit does that was made with [`crate::objects::Commit::new`].
pub proof fn theorem_kvlm_round_trip(fields: FieldsView, message: Seq<char>)
    requires
        storable_fields(fields),
        with_newline(message) == message,
    ensures
        kvlm_readable(kvlm_bytes(fields, message)),
        kvlm_read(kvlm_bytes(fields, message), Seq::empty()) == Ok::<
            (FieldsView, Seq<char>),
            ObjectError,
        >((fields, message)),
{
    let m = encode_utf8(message);
    let rest = seq![0x0au8] + m;
    assert(kvlm_bytes(fields, message) =~= fields_bytes(fields) + rest);
    lemma_read_fields(fields, rest);
    lemma_decode_encode(message);
    assert(rest[0] == 0x0a);
    lemma_first_index_is(rest, 0x0au8, 0, 0);
    lemma_first_index(rest, 0x20u8, 0);
    assert(at_message(rest)) by {
        if first_index(rest, 0x20u8, 0) == 0 {
            assert(rest[0] == 0x20);
        }
    }
    assert(rest.skip(1) =~= m);
}

/// A field that is set has the values that it was set to, and no other field changes.
pub proof fn theorem_set_field_is_read(
    fields: FieldsView,
    name: Seq<char>,
    values: Seq<Seq<char>>,
    other: Seq<char>,
)
    ensures
        field_values(with_field(fields, name, values), name) == values,
        has_field(with_field(fields, name, values), name),
        other != name ==> field_values(with_field(fields, name, values), other) == field_values(
            fields,
            other,
        ),
{
    let after = with_field(fields, name, values);
    let i = field_index(fields, name);
    lemma_field_index(fields, name);
    lemma_field_index(after, name);
    lemma_field_index(fields, other);
    lemma_field_index(after, other);
    lemma_field_index_is(after, name, i);
    if other != name {
        let j = field_index(fields, other);
        if j < fields.len() {
            lemma_field_index_is(after, other, j);
        } else {
            assert forall|k: int| 0 <= k < after.len() implies (#[trigger] after[k]).0 != other by {
                if k < fields.len() {
                    assert(fields[k].0 != other);
                }
            }
            lemma_field_index_is(after, other, after.len() as int);
        }
    }
}

proof fn lemma_field_index_is(fields: FieldsView, name: Seq<char>, i: int)
    requires
        0 <= i <= fields.len(),
        i < fields.len() ==> fields[i].0 == name,
        forall|j: int| 0 <= j < i ==> (#[trigger] fields[j]).0 != name,
    ensures
        field_index(fields, name) == i,
{
    lemma_field_index(fields, name);
    let k = field_index(fields, name);
    if k < i {
        assert(fields[k].0 != name);
    } else if i < k {
        assert(fields[i].0 != name);
    }
}

/// A value that is added to a field comes behind the values that it has.
pub proof fn theorem_added_value_comes_last(
    fields: FieldsView,
    name: Seq<char>,
    value: Seq<char>,
    other: Seq<char>,
)
    ensures
        field_values(with_field_value(fields, name, value), name) == field_values(
            fields,
            name,
        ).push(value),
        other != name ==> field_values(with_field_value(fields, name, value), other)
            == field_values(fields, other),
{
    theorem_set_field_is_read(fields, name, field_values(fields, name).push(value), other);
}

/// The values of a field are those of the first field with its name.
pub proof fn theorem_first_field_counts(fields: FieldsView, name: Seq<char>, i: int)
    ensures
        0 <= i < fields.len() && fields[i].0 == name && (forall|j: int|
            0 <= j < i ==> (#[trigger] fields[j]).0 != name) ==> field_values(fields, name)
            == fields[i].1,
        (forall|j: int| 0 <= j < fields.len() ==> (#[trigger] fields[j]).0 != name)
            ==> field_values(fields, name) == Seq::<Seq<char>>::empty(),
{
    lemma_field_index(fields, name);
    if 0 <= i < fields.len() && fields[i].0 == name && forall|j: int|
        0 <= j < i ==> (#[trigger] fields[j]).0 != name {
        lemma_field_index_is(fields, name, i);
    }
}

} // verus!
