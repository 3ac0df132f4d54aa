//! Objects stored as changes to another object.

use vstd::prelude::*;
use vstd::slice::slice_subrange;

use crate::index::push_bytes;

verus! {

/// Whether bit `k` of a byte is set, for `k` below eight.
pub open spec fn has_bit(b: u8, k: int) -> bool {
    if k == 0 {
        b % 2 == 1
    } else if k == 1 {
        b / 2 % 2 == 1
    } else if k == 2 {
        b / 4 % 2 == 1
    } else if k == 3 {
        b / 8 % 2 == 1
    } else if k == 4 {
        b / 16 % 2 == 1
    } else if k == 5 {
        b / 32 % 2 == 1
    } else if k == 6 {
        b / 64 % 2 == 1
    } else {
        b / 128 % 2 == 1
    }
}

/// The number of bits below bit `k` that are set.
pub open spec fn bits_below(b: u8, k: int) -> int
    decreases k,
{
    if k <= 0 {
        0
    } else {
        bits_below(b, k - 1) + if has_bit(b, k - 1) {
            1int
        } else {
            0
        }
    }
}

/// Byte `k` of the operands of a copy command: present where bit `k` of the command is set,
/// behind those of the lower bits, and zero where it is not.
pub open spec fn operand(d: Seq<u8>, k: int) -> int {
    if has_bit(d[0], k) {
        d[1 + bits_below(d[0], k)] as int
    } else {
        0
    }
}

/// Where a copy command copies from.
pub open spec fn copy_offset(d: Seq<u8>) -> int {
    operand(d, 0) + 0x100 * operand(d, 1) + 0x1_0000 * operand(d, 2) + 0x100_0000 * operand(d, 3)
}

/// How many bytes a copy command copies: what its operands say, or 65536 where they say none.
pub open spec fn copy_size(d: Seq<u8>) -> int {
    let size = operand(d, 4) + 0x100 * operand(d, 5) + 0x1_0000 * operand(d, 6);
    if size == 0 {
        0x1_0000
    } else {
        size
    }
}

/// What a command does.
#[derive(Clone, Copy, Debug, PartialEq, Eq, Structural)]
pub enum DeltaCommandType {
    /// Copies part of the base object.
    Copy {
        /// Where the part starts.
        offset: usize,
        /// How long it is.
        size: usize,
    },
    /// Adds the bytes that follow the command, as many as given.
    Add(usize),
}

/// A command, and the length of its stored form.
pub struct DeltaCommand {
    /// The length with operands and added bytes.
    pub len: usize,
    /// What the command does.
    pub kind: DeltaCommandType,
}

/// Whether a command is all there: its first byte, and the operands that this one calls for.
pub open spec fn command_complete(d: Seq<u8>) -> bool {
    d.len() > 0 && (d[0] >= 0x80 ==> d.len() > bits_below(d[0], 7))
}

/// The length of a command with operands and added bytes.
pub open spec fn command_length(d: Seq<u8>) -> int {
    if d[0] < 0x80 {
        d[0] + 1
    } else {
        bits_below(d[0], 7) + 1
    }
}

fn byte_has_bit(b: u8, k: u8) -> (r: bool)
    requires
        k < 7,
    ensures
        r == has_bit(b, k as int),
{
    if k == 0 {
        b % 2 == 1
    } else if k == 1 {
        b / 2 % 2 == 1
    } else if k == 2 {
        b / 4 % 2 == 1
    } else if k == 3 {
        b / 8 % 2 == 1
    } else if k == 4 {
        b / 16 % 2 == 1
    } else if k == 5 {
        b / 32 % 2 == 1
    } else {
        b / 64 % 2 == 1
    }
}

pub(crate) proof fn lemma_bits_below(b: u8, j: int, k: int)
    requires
        0 <= j <= k,
    ensures
        0 <= bits_below(b, j) <= bits_below(b, k) <= bits_below(b, j) + (k - j),
        bits_below(b, j) <= j,
    decreases k,
{
    if k > 0 {
        if j < k {
            lemma_bits_below(b, j, k - 1);
        } else {
            lemma_bits_below(b, j - 1, k - 1);
        }
    }
}

impl DeltaCommand {
    /// Reads the command at the start of the data.
    pub fn from(data: &[u8]) -> (r: Self)
        requires
            command_complete(data@),
        ensures
            r.len == command_length(data@),
            match r.kind {
                DeltaCommandType::Add(size) => data@[0] < 0x80 && size == data@[0],
                DeltaCommandType::Copy { offset, size } => data@[0] >= 0x80 && offset
                    == copy_offset(data@) && size == copy_size(data@),
            },
    {
        let first: u8 = data[0];
        if first < 0x80 {
            let size: usize = first as usize;
            return DeltaCommand { len: size + 1, kind: DeltaCommandType::Add(size) };
        }
        let mut idx: usize = 1;
        let mut bytes: [u8; 7] = [0, 0, 0, 0, 0, 0, 0];
        let mut k: u8 = 0;
        while k < 7
            invariant
                k <= 7,
                first == data@[0],
                first >= 0x80,
                command_complete(data@),
                idx == 1 + bits_below(first, k as int),
                forall|j: int| 0 <= j < k ==> bytes@[j] == operand(data@, j),
            decreases 7 - k,
        {
            proof {
                lemma_bits_below(first, k as int, 7);
                lemma_bits_below(first, k + 1, 7);
            }
            if byte_has_bit(first, k) {
                bytes[k as usize] = data[idx];
                idx = idx + 1;
            } else {
                bytes[k as usize] = 0;
            }
            k = k + 1;
        }
        let offset: usize = bytes[0] as usize + 0x100 * bytes[1] as usize + 0x1_0000
            * bytes[2] as usize + 0x100_0000 * bytes[3] as usize;
        let mut size: usize = bytes[4] as usize + 0x100 * bytes[5] as usize + 0x1_0000
            * bytes[6] as usize;
        if size == 0 {
            size = 0x1_0000;
        }
        DeltaCommand { len: idx, kind: DeltaCommandType::Copy { offset, size } }
    }
}

/// The index just past the first byte below 0x80 from an index on: past the end where there
/// is none.
pub open spec fn after_size(c: Seq<u8>, i: int) -> int
    decreases c.len() - i,
{
    if i < 0 || i >= c.len() {
        c.len() as int + 1
    } else if c[i] < 0x80 {
        i + 1
    } else {
        after_size(c, i + 1)
    }
}

/// Where the commands start: behind the sizes of the base object and of the result.
pub open spec fn commands_start(c: Seq<u8>) -> int {
    after_size(c, after_size(c, 0))
}

/// Whether a command can be carried out: it is all there, the bytes it adds are there too,
/// and what it copies lies within the base object.
pub open spec fn command_applies(base: Seq<u8>, d: Seq<u8>) -> bool {
    &&& command_complete(d)
    &&& if d[0] < 0x80 {
        command_length(d) <= d.len()
    } else {
        copy_offset(d) + copy_size(d) <= base.len()
    }
}

/// The bytes that a command adds to the result.
pub open spec fn command_output(base: Seq<u8>, d: Seq<u8>) -> Seq<u8> {
    if d[0] < 0x80 {
        d.subrange(1, 1 + d[0])
    } else {
        base.subrange(copy_offset(d), copy_offset(d) + copy_size(d))
    }
}

proof fn lemma_command_length(d: Seq<u8>)
    requires
        d.len() > 0,
    ensures
        command_length(d) >= 1,
{
    lemma_bits_below(d[0], 0, 7);
}

/// Whether the commands can all be carried out, one after the other.
pub open spec fn commands_apply(base: Seq<u8>, c: Seq<u8>) -> bool
    decreases c.len(),
{
    if c.len() == 0 {
        true
    } else {
        &&& command_applies(base, c)
        &&& command_length(c) >= 1
        &&& commands_apply(base, c.skip(command_length(c)))
    }
}

/// What the commands produce.
pub open spec fn commands_output(base: Seq<u8>, c: Seq<u8>) -> Seq<u8>
    decreases c.len(),
{
    if !(1 <= command_length(c) <= c.len()) {
        Seq::empty()
    } else {
        command_output(base, c) + commands_output(base, c.skip(command_length(c)))
    }
}

/// Whether a sequence of changes can be applied to a base object.
pub open spec fn delta_applies(base: Seq<u8>, c: Seq<u8>) -> bool {
    commands_start(c) <= c.len() && commands_apply(base, c.skip(commands_start(c)))
}

/// The object that a sequence of changes makes of a base object.
pub open spec fn delta_result(base: Seq<u8>, c: Seq<u8>) -> Seq<u8> {
    commands_output(base, c.skip(commands_start(c)))
}

fn find_after_size(c: &[u8], from: usize) -> (r: Option<usize>)
    requires
        from <= c@.len(),
    ensures
        match r {
            Some(i) => i == after_size(c@, from as int) && i <= c@.len(),
            None => after_size(c@, from as int) > c@.len(),
        },
{
    let mut i: usize = from;
    while i < c.len()
        invariant
            from <= i <= c@.len(),
            after_size(c@, from as int) == after_size(c@, i as int),
        decreases c@.len() - i,
    {
        if c[i] < 0x80 {
            return Some(i + 1);
        }
        i = i + 1;
    }
    None
}

fn find_commands(c: &[u8]) -> (r: Option<usize>)
    ensures
        match r {
            Some(i) => i == commands_start(c@) && i <= c@.len(),
            None => commands_start(c@) > c@.len(),
        },
{
    match find_after_size(c, 0) {
        Some(i) => find_after_size(c, i),
        None => None,
    }
}

/// Whether a command is all there.
fn is_complete(d: &[u8]) -> (r: bool)
    ensures
        r == command_complete(d@),
{
    if d.len() == 0 {
        return false;
    }
    if d[0] < 0x80 {
        return true;
    }
    let mut count: usize = 0;
    let mut k: u8 = 0;
    while k < 7
        invariant
            k <= 7,
            d@.len() > 0,
            count == bits_below(d@[0], k as int),
            count <= k,
        decreases 7 - k,
    {
        if byte_has_bit(d[0], k) {
            count = count + 1;
        }
        k = k + 1;
    }
    d.len() > count
}

/// Whether a sequence of changes can be applied to a base object.
pub fn delta_can_apply(base_data: &[u8], apply_commands: &[u8]) -> (r: bool)
    ensures
        r == delta_applies(base_data@, apply_commands@),
{
    let start: usize = match find_commands(apply_commands) {
        Some(i) => i,
        None => {
            return false;
        },
    };
    let n: usize = apply_commands.len();
    let mut idx: usize = start;
    while idx < n
        invariant
            n == apply_commands@.len(),
            start == commands_start(apply_commands@),
            start <= idx <= n,
            delta_applies(base_data@, apply_commands@) == commands_apply(
                base_data@,
                apply_commands@.skip(idx as int),
            ),
        decreases n - idx,
    {
        let ghost rest = apply_commands@.skip(idx as int);
        let here = slice_subrange(apply_commands, idx, n);
        assert(here@ =~= rest);
        if !is_complete(here) {
            return false;
        }
        let command = DeltaCommand::from(here);
        proof {
            lemma_command_length(rest);
        }
        match command.kind {
            DeltaCommandType::Add(_) => {
                if command.len > n - idx {
                    return false;
                }
            },
            DeltaCommandType::Copy { offset, size } => {
                if offset > base_data.len() || size > base_data.len() - offset {
                    return false;
                }
            },
        }
        assert(rest.skip(command_length(rest)) =~= apply_commands@.skip(idx + command.len));
        idx = idx + command.len;
    }
    assert(apply_commands@.skip(idx as int) =~= Seq::<u8>::empty());
    true
}

/// Applies a sequence of changes to an object's data, which gives the data of another object.
pub fn combine_object_delta_data(base_data: &[u8], apply_commands: &[u8]) -> (r: Vec<u8>)
    requires
        delta_applies(base_data@, apply_commands@),
    ensures
        r@ == delta_result(base_data@, apply_commands@),
{
    let mut result: Vec<u8> = Vec::new();
    let start: usize = match find_commands(apply_commands) {
        Some(i) => i,
        None => {
            return result;
        },
    };
    let n: usize = apply_commands.len();
    let base_len: usize = base_data.len();
    let mut idx: usize = start;
    assert(result@ + delta_result(base_data@, apply_commands@) =~= delta_result(
        base_data@,
        apply_commands@,
    ));
    while idx < n
        invariant
            n == apply_commands@.len(),
            base_len == base_data@.len(),
            idx <= n,
            commands_apply(base_data@, apply_commands@.skip(idx as int)),
            delta_result(base_data@, apply_commands@) == result@ + commands_output(
                base_data@,
                apply_commands@.skip(idx as int),
            ),
        decreases n - idx,
    {
        let ghost rest = apply_commands@.skip(idx as int);
        let ghost before = result@;
        let here = slice_subrange(apply_commands, idx, n);
        assert(here@ =~= rest);
        let command = DeltaCommand::from(here);
        match command.kind {
            DeltaCommandType::Add(size) => {
                push_bytes(&mut result, slice_subrange(here, 1, 1 + size));
            },
            DeltaCommandType::Copy { offset, size } => {
                push_bytes(&mut result, slice_subrange(base_data, offset, offset + size));
            },
        }
        assert(result@ == before + command_output(base_data@, rest));
        proof {
            let next = rest.skip(command_length(rest));
            assert(next =~= apply_commands@.skip(idx + command.len));
            assert(before + (command_output(base_data@, rest) + commands_output(base_data@, next))
                =~= result@ + commands_output(base_data@, next));
        }
        idx = idx + command.len;
    }
    assert(apply_commands@.skip(idx as int) =~= Seq::<u8>::empty());
    assert(result@ + Seq::<u8>::empty() =~= result@);
    result
}

} // verus!
