//! What holds of objects that are stored as changes to another object.

use vstd::prelude::*;

use crate::objects::delta::{
    after_size, bits_below, command_applies, command_complete, command_length, command_output,
    commands_apply, commands_output, copy_offset, copy_size, delta_applies, delta_result, has_bit,
    lemma_bits_below, operand,
};

verus! {

/// A size as it is written: seven bits a byte, the lowest first, and the high bit set on all
/// bytes but the last.
pub open spec fn size_bytes(n: nat) -> Seq<u8>
    decreases n,
{
    if n < 128 {
        seq![n as u8]
    } else {
        seq![(128 + n % 128) as u8] + size_bytes(n / 128)
    }
}

proof fn lemma_after_size(a: Seq<u8>, n: nat, rest: Seq<u8>)
    ensures
        after_size(a + size_bytes(n) + rest, a.len() as int) == a.len() + size_bytes(n).len(),
    decreases n,
{
    let c = a + size_bytes(n) + rest;
    let i = a.len() as int;
    if n < 128 {
        assert(c[i] == n as u8);
    } else {
        let first = (128 + n % 128) as u8;
        assert(c[i] == first);
        assert(first >= 0x80);
        lemma_after_size(a.push(first), n / 128, rest);
        assert(a.push(first) + size_bytes(n / 128) + rest =~= c);
        assert(after_size(c, i) == after_size(c, i + 1));
    }
}

/// The sizes in front of the commands have no part in the result, however large they are: what
/// is made of a base object is what the commands behind them make of it.
pub proof fn theorem_sizes_are_passed_over(base: Seq<u8>, n: nat, m: nat, commands: Seq<u8>)
    ensures
        delta_applies(base, size_bytes(n) + size_bytes(m) + commands) == commands_apply(
            base,
            commands,
        ),
        delta_result(base, size_bytes(n) + size_bytes(m) + commands) == commands_output(
            base,
            commands,
        ),
{
    let none = Seq::<u8>::empty();
    let c = size_bytes(n) + size_bytes(m) + commands;
    lemma_after_size(none, n, size_bytes(m) + commands);
    assert(none + size_bytes(n) + (size_bytes(m) + commands) =~= c);
    lemma_after_size(size_bytes(n), m, commands);
    assert(c.skip((size_bytes(n).len() + size_bytes(m).len()) as int) =~= commands);
}

proof fn lemma_applied_length(base: Seq<u8>, d: Seq<u8>)
    requires
        command_applies(base, d),
    ensures
        1 <= command_length(d) <= d.len(),
{
    lemma_bits_below(d[0], 0, 7);
}

proof fn lemma_same_operand(a: Seq<u8>, b: Seq<u8>, k: int)
    requires
        a.len() > 0,
        a.len() > bits_below(a[0], 7),
        0 <= k < 7,
    ensures
        operand(a + b, k) == operand(a, k),
{
    lemma_bits_below(a[0], k, 7);
    lemma_bits_below(a[0], k + 1, 7);
}

proof fn lemma_first_command(base: Seq<u8>, a: Seq<u8>, b: Seq<u8>)
    requires
        command_applies(base, a),
    ensures
        command_applies(base, a + b),
        command_length(a + b) == command_length(a),
        command_output(base, a + b) == command_output(base, a),
{
    lemma_applied_length(base, a);
    assert((a + b)[0] == a[0]);
    if a[0] < 0x80 {
        assert((a + b).subrange(1, 1 + a[0]) =~= a.subrange(1, 1 + a[0]));
    } else {
        lemma_same_operand(a, b, 0);
        lemma_same_operand(a, b, 1);
        lemma_same_operand(a, b, 2);
        lemma_same_operand(a, b, 3);
        lemma_same_operand(a, b, 4);
        lemma_same_operand(a, b, 5);
        lemma_same_operand(a, b, 6);
    }
}

/// Commands behind others that can be carried out are carried out after them: what both make is
/// what the first ones make, and behind it what the others make.
pub proof fn theorem_commands_follow(base: Seq<u8>, a: Seq<u8>, b: Seq<u8>)
    requires
        commands_apply(base, a),
    ensures
        commands_apply(base, a + b) == commands_apply(base, b),
        commands_output(base, a + b) == commands_output(base, a) + commands_output(base, b),
    decreases a.len(),
{
    if a.len() == 0 {
        assert(a + b =~= b);
        assert(commands_output(base, a) =~= Seq::empty());
        assert(commands_output(base, a) + commands_output(base, b) =~= commands_output(base, b));
    } else {
        let n = command_length(a);
        lemma_applied_length(base, a);
        lemma_first_command(base, a, b);
        theorem_commands_follow(base, a.skip(n), b);
        assert((a + b).skip(n) =~= a.skip(n) + b);
        assert(command_output(base, a) + (commands_output(base, a.skip(n)) + commands_output(
            base,
            b,
        )) =~= commands_output(base, a) + commands_output(base, b));
    }
}

/// Commands that add bytes, as many as a command can hold at a time.
pub open spec fn add_commands(data: Seq<u8>) -> Seq<u8>
    decreases data.len(),
{
    if data.len() == 0 {
        Seq::empty()
    } else if data.len() <= 127 {
        seq![data.len() as u8] + data
    } else {
        seq![127u8] + data.take(127) + add_commands(data.skip(127))
    }
}

proof fn lemma_one_add(base: Seq<u8>, data: Seq<u8>)
    requires
        0 < data.len() <= 127,
    ensures
        commands_apply(base, seq![data.len() as u8] + data),
        commands_output(base, seq![data.len() as u8] + data) == data,
{
    let c = seq![data.len() as u8] + data;
    let n = command_length(c);
    assert(c[0] == data.len() as u8);
    assert(n == c.len());
    assert(c.skip(n) =~= Seq::empty());
    assert(commands_apply(base, c.skip(n)));
    assert(commands_output(base, c.skip(n)) =~= Seq::empty());
    assert(c.subrange(1, 1 + c[0]) =~= data);
    assert(command_output(base, c) + commands_output(base, c.skip(n)) =~= data);
}

/// Any data is made by adding it, whatever the base object is.
pub proof fn theorem_added_data_is_made(base: Seq<u8>, data: Seq<u8>, n: nat, m: nat)
    ensures
        commands_apply(base, add_commands(data)),
        commands_output(base, add_commands(data)) == data,
        delta_applies(base, size_bytes(n) + size_bytes(m) + add_commands(data)),
        delta_result(base, size_bytes(n) + size_bytes(m) + add_commands(data)) == data,
    decreases data.len(),
{
    if data.len() == 0 {
        assert(commands_output(base, add_commands(data)) =~= data);
    } else if data.len() <= 127 {
        lemma_one_add(base, data);
    } else {
        let first = data.take(127);
        let rest = data.skip(127);
        lemma_one_add(base, first);
        theorem_added_data_is_made(base, rest, n, m);
        theorem_commands_follow(base, seq![127u8] + first, add_commands(rest));
        assert(first + rest =~= data);
    }
    theorem_sizes_are_passed_over(base, n, m, add_commands(data));
}

/// A byte of an operand as it is written: not at all where it is zero.
pub open spec fn operand_bytes(b: int) -> Seq<u8> {
    if b == 0 {
        Seq::empty()
    } else {
        seq![b as u8]
    }
}

/// One where a byte of an operand is written.
pub open spec fn is_written(b: int) -> int {
    if b == 0 {
        0
    } else {
        1
    }
}

/// The bytes of operands as they are written.
pub open spec fn operands_bytes(bytes: Seq<int>) -> Seq<u8>
    decreases bytes.len(),
{
    if bytes.len() == 0 {
        Seq::empty()
    } else {
        operands_bytes(bytes.drop_last()) + operand_bytes(bytes.last())
    }
}

/// How many of the first bytes of operands are written.
pub open spec fn written_below(bytes: Seq<int>, k: int) -> int
    decreases k,
{
    if k <= 0 {
        0
    } else {
        written_below(bytes, k - 1) + is_written(bytes[k - 1])
    }
}

/// The bytes of an offset and a size, the lowest first.
pub open spec fn copy_operands(offset: int, size: int) -> Seq<int> {
    seq![
        offset % 0x100,
        offset / 0x100 % 0x100,
        offset / 0x1_0000 % 0x100,
        offset / 0x100_0000,
        size % 0x100,
        size / 0x100 % 0x100,
        size / 0x1_0000,
    ]
}

/// The first byte of a copy command: a bit for each byte of its operands that is written.
pub open spec fn copy_flags(b: Seq<int>) -> int {
    128 + is_written(b[0]) + 2 * is_written(b[1]) + 4 * is_written(b[2]) + 8 * is_written(b[3]) + 16
        * is_written(b[4]) + 32 * is_written(b[5]) + 64 * is_written(b[6])
}

/// A command that copies from an offset as many bytes as given, or 65536 where none are given.
pub open spec fn copy_command(offset: int, size: int) -> Seq<u8> {
    let bytes = copy_operands(offset, size);
    seq![copy_flags(bytes) as u8] + operands_bytes(bytes)
}

proof fn lemma_flags(b: Seq<int>)
    requires
        b.len() == 7,
    ensures
        (copy_flags(b) as u8) >= 0x80,
        has_bit(copy_flags(b) as u8, 0) == (b[0] != 0),
        has_bit(copy_flags(b) as u8, 1) == (b[1] != 0),
        has_bit(copy_flags(b) as u8, 2) == (b[2] != 0),
        has_bit(copy_flags(b) as u8, 3) == (b[3] != 0),
        has_bit(copy_flags(b) as u8, 4) == (b[4] != 0),
        has_bit(copy_flags(b) as u8, 5) == (b[5] != 0),
        has_bit(copy_flags(b) as u8, 6) == (b[6] != 0),
{
    assert(copy_flags(b) as u8 == copy_flags(b));
}

proof fn lemma_written_below(first: u8, b: Seq<int>, k: int)
    requires
        0 <= k <= b.len(),
        forall|j: int| 0 <= j < b.len() ==> #[trigger] has_bit(first, j) == (b[j] != 0),
    ensures
        bits_below(first, k) == written_below(b, k),
    decreases k,
{
    if k > 0 {
        lemma_written_below(first, b, k - 1);
        assert(has_bit(first, k - 1) == (b[k - 1] != 0));
    }
}

proof fn lemma_written_same(b: Seq<int>, k: int)
    requires
        0 <= k < b.len(),
    ensures
        written_below(b, k) == written_below(b.drop_last(), k),
        written_below(b, k) >= 0,
    decreases k,
{
    if k > 0 {
        lemma_written_same(b, k - 1);
    }
}

proof fn lemma_operands_bytes(b: Seq<int>)
    requires
        forall|j: int| 0 <= j < b.len() ==> 0 <= #[trigger] b[j] < 256,
    ensures
        operands_bytes(b).len() == written_below(b, b.len() as int),
        forall|k: int|
            0 <= k < b.len() && #[trigger] b[k] != 0 ==> 0 <= written_below(b, k)
                < operands_bytes(b).len() && operands_bytes(b)[written_below(b, k)] == b[k],
    decreases b.len(),
{
    if b.len() > 0 {
        let before = b.drop_last();
        let n = b.len() - 1;
        assert forall|j: int| 0 <= j < before.len() implies 0 <= #[trigger] before[j] < 256 by {
            assert(b[j] == before[j]);
        }
        lemma_operands_bytes(before);
        lemma_written_same(b, n);
        assert(0 <= b[n] < 256);
        assert forall|k: int| 0 <= k < b.len() && #[trigger] b[k] != 0 implies 0 <= written_below(
            b,
            k,
        ) < operands_bytes(b).len() && operands_bytes(b)[written_below(b, k)] == b[k] by {
            lemma_written_same(b, k);
            if k < n {
                assert(before[k] == b[k]);
            }
        }
    }
}

proof fn lemma_copy_operand(b: Seq<int>, first: u8, k: int)
    requires
        b.len() == 7,
        forall|j: int| 0 <= j < b.len() ==> 0 <= #[trigger] b[j] < 256,
        forall|j: int| 0 <= j < b.len() ==> #[trigger] has_bit(first, j) == (b[j] != 0),
        0 <= k < 7,
    ensures
        operand(seq![first] + operands_bytes(b), k) == b[k],
{
    lemma_operands_bytes(b);
    lemma_written_below(first, b, k);
    assert(has_bit(first, k) == (b[k] != 0));
    let d = seq![first] + operands_bytes(b);
    assert(d[0] == first);
    if b[k] != 0 {
        assert(d[1 + written_below(b, k)] == operands_bytes(b)[written_below(b, k)]);
    }
}

proof fn lemma_copy_operands(offset: int, size: int)
    requires
        0 <= offset < 0x1_0000_0000,
        0 <= size < 0x100_0000,
    ensures
        ({
            let d = copy_command(offset, size);
            let b = copy_operands(offset, size);
            &&& d[0] >= 0x80
            &&& d.len() == 1 + bits_below(d[0], 7)
            &&& forall|k: int| 0 <= k < 7 ==> #[trigger] operand(d, k) == b[k]
        }),
{
    let b = copy_operands(offset, size);
    let first = copy_flags(b) as u8;
    let d = copy_command(offset, size);
    lemma_flags(b);
    assert forall|j: int| 0 <= j < b.len() implies #[trigger] has_bit(first, j) == (b[j] != 0) by {
        assert(j == 0 || j == 1 || j == 2 || j == 3 || j == 4 || j == 5 || j == 6);
    }
    assert forall|j: int| 0 <= j < b.len() implies 0 <= #[trigger] b[j] < 256 by {
        assert(j == 0 || j == 1 || j == 2 || j == 3 || j == 4 || j == 5 || j == 6);
    }
    lemma_operands_bytes(b);
    lemma_written_below(first, b, 7);
    assert(d[0] == first);
    assert forall|k: int| 0 <= k < 7 implies #[trigger] operand(d, k) == b[k] by {
        lemma_copy_operand(b, first, k);
    }
}

/// A copy command makes the part of the base object that it names: the given number of bytes
/// from the given offset on, and 65536 bytes where the number is left out.
pub proof fn theorem_copied_part_is_made(base: Seq<u8>, offset: int, size: int)
    requires
        0 <= offset < 0x1_0000_0000,
        0 <= size < 0x100_0000,
    ensures
        ({
            let count = if size == 0 {
                0x1_0000
            } else {
                size
            };
            let c = copy_command(offset, size);
            &&& commands_apply(base, c) == (offset + count <= base.len())
            &&& offset + count <= base.len() ==> commands_output(base, c) == base.subrange(
                offset,
                offset + count,
            )
        }),
{
    let c = copy_command(offset, size);
    lemma_copy_operands(offset, size);
    let b = copy_operands(offset, size);
    assert(operand(c, 0) == b[0] && operand(c, 1) == b[1] && operand(c, 2) == b[2] && operand(c, 3)
        == b[3]);
    assert(operand(c, 4) == b[4] && operand(c, 5) == b[5] && operand(c, 6) == b[6]);
    assert(copy_offset(c) == offset);
    assert(command_complete(c));
    let n = command_length(c);
    lemma_bits_below(c[0], 0, 7);
    assert(n == c.len());
    assert(c.skip(n) =~= Seq::empty());
    assert(commands_apply(base, c.skip(n)));
    assert(commands_output(base, c.skip(n)) =~= Seq::empty());
    assert(command_output(base, c) + commands_output(base, c.skip(n)) =~= command_output(base, c));
    let stated = operand(c, 4) + 0x100 * operand(c, 5) + 0x1_0000 * operand(c, 6);
    assert(stated == size);
    assert(commands_apply(base, c) == (offset + copy_size(c) <= base.len()));
}

/// An object that is stored as one copy of its base object is the base object, whatever sizes
/// stand in front.
pub proof fn theorem_copied_object_is_made(base: Seq<u8>, n: nat, m: nat)
    requires
        0 < base.len() < 0x100_0000,
    ensures
        delta_applies(base, size_bytes(n) + size_bytes(m) + copy_command(0, base.len() as int)),
        delta_result(base, size_bytes(n) + size_bytes(m) + copy_command(0, base.len() as int))
            == base,
{
    let c = copy_command(0, base.len() as int);
    theorem_copied_part_is_made(base, 0, base.len() as int);
    theorem_sizes_are_passed_over(base, n, m, c);
    assert(base.subrange(0, base.len() as int) =~= base);
}

proof fn lemma_no_size(c: Seq<u8>, i: int)
    requires
        forall|j: int| i <= j < c.len() ==> #[trigger] c[j] >= 0x80,
    ensures
        after_size(c, i) > c.len(),
    decreases c.len() - i,
{
    if 0 <= i < c.len() {
        lemma_no_size(c, i + 1);
    }
}

/// What ends before both sizes are complete cannot be applied to any object: of its bytes at most
/// one is the last of a size.
pub proof fn theorem_unfinished_sizes_are_refused(base: Seq<u8>, c: Seq<u8>, k: int)
    requires
        forall|j: int| 0 <= j < c.len() && j != k ==> #[trigger] c[j] >= 0x80,
    ensures
        !delta_applies(base, c),
{
    lemma_first_size(c, 0, k);
    if after_size(c, 0) <= c.len() {
        lemma_no_size(c, after_size(c, 0));
    }
}

proof fn lemma_first_size(c: Seq<u8>, i: int, k: int)
    requires
        0 <= i,
        forall|j: int| 0 <= j < c.len() && j != k ==> #[trigger] c[j] >= 0x80,
    ensures
        after_size(c, i) > c.len() || (after_size(c, i) == k + 1 && k >= i),
    decreases c.len() - i,
{
    if i < c.len() {
        if c[i] >= 0x80 {
            lemma_first_size(c, i + 1, k);
        }
    }
}

/// A command that adds more bytes than follow it cannot be carried out.
pub proof fn theorem_cut_addition_is_refused(base: Seq<u8>, n: u8, data: Seq<u8>)
    requires
        n < 0x80,
        data.len() < n,
    ensures
        !commands_apply(base, seq![n] + data),
{
    assert((seq![n] + data)[0] == n);
}

/// Commands that copy so many bytes from an offset on, as many as a command can copy at a time.
pub open spec fn copy_commands(offset: int, count: int) -> Seq<u8>
    decreases count,
{
    if count <= 0 {
        Seq::empty()
    } else if count < 0x100_0000 {
        copy_command(offset, count)
    } else {
        copy_command(offset, 0xff_ffff) + copy_commands(offset + 0xff_ffff, count - 0xff_ffff)
    }
}

/// Any part of a base object is made by copying it, however long it is.
pub proof fn theorem_copied_bytes_are_made(base: Seq<u8>, offset: int, count: int)
    requires
        0 <= offset,
        0 <= count,
        offset + count <= base.len(),
        offset + count <= 0x1_0000_0000,
    ensures
        commands_apply(base, copy_commands(offset, count)),
        commands_output(base, copy_commands(offset, count)) == base.subrange(
            offset,
            offset + count,
        ),
    decreases count,
{
    if count == 0 {
        assert(base.subrange(offset, offset) =~= Seq::empty());
        assert(commands_output(base, copy_commands(offset, count)) =~= Seq::empty());
    } else if count < 0x100_0000 {
        theorem_copied_part_is_made(base, offset, count);
    } else {
        let next = offset + 0xff_ffff;
        theorem_copied_part_is_made(base, offset, 0xff_ffff);
        theorem_copied_bytes_are_made(base, next, count - 0xff_ffff);
        theorem_commands_follow(
            base,
            copy_command(offset, 0xff_ffff),
            copy_commands(next, count - 0xff_ffff),
        );
        assert(base.subrange(offset, next) + base.subrange(next, offset + count) =~= base.subrange(
            offset,
            offset + count,
        ));
    }
}

/// An object that is stored as copies of parts of its base object and as additions is these parts
/// and additions one after the other, whatever sizes stand in front.
pub proof fn theorem_mixed_object_is_made(
    base: Seq<u8>,
    offset: int,
    count: int,
    data: Seq<u8>,
    n: nat,
    m: nat,
)
    requires
        0 <= offset,
        0 <= count,
        offset + count <= base.len(),
        offset + count <= 0x1_0000_0000,
    ensures
        ({
            let sizes = size_bytes(n) + size_bytes(m);
            let copied = base.subrange(offset, offset + count);
            &&& delta_applies(base, sizes + (copy_commands(offset, count) + add_commands(data)))
            &&& delta_result(base, sizes + (copy_commands(offset, count) + add_commands(data)))
                == copied + data
            &&& delta_applies(base, sizes + (add_commands(data) + copy_commands(offset, count)))
            &&& delta_result(base, sizes + (add_commands(data) + copy_commands(offset, count)))
                == data + copied
        }),
{
    let c = copy_commands(offset, count);
    let a = add_commands(data);
    theorem_copied_bytes_are_made(base, offset, count);
    theorem_added_data_is_made(base, data, n, m);
    theorem_commands_follow(base, c, a);
    theorem_commands_follow(base, a, c);
    theorem_sizes_are_passed_over(base, n, m, c + a);
    theorem_sizes_are_passed_over(base, n, m, a + c);
}

} // verus!
