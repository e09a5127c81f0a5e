//! The primitives of the profile wire format: base-128 numbers and
//! length-prefixed blocks under a one-byte tag.

use vstd::prelude::*;
use vstd::slice::slice_subrange;

verus! {

/// A number in base 128, least significant group first. Every byte but the
/// last has its high bit set.
pub open spec fn varint(value: nat) -> Seq<u8>
    decreases value,
{
    if value < 128 {
        seq![value as u8]
    } else {
        seq![(128 + value % 128) as u8] + varint(value / 128)
    }
}

/// A numeric field: its tag, then the number.
pub open spec fn field_number(tag: u8, value: nat) -> Seq<u8> {
    seq![tag] + varint(value)
}

/// A block field: its tag, the length of the body, then the body.
pub open spec fn field_block(tag: u8, body: Seq<u8>) -> Seq<u8> {
    seq![tag] + varint(body.len()) + body
}

/// A number takes between one and ten bytes for a 64-bit value.
pub proof fn lemma_varint_len(value: nat)
    ensures
        varint(value).len() >= 1,
        value < 128 ==> varint(value).len() == 1,
    decreases value,
{
    if value >= 128 {
        lemma_varint_len(value / 128);
    }
}

/// Appends `value` in base 128.
pub fn put_varint(out: &mut Vec<u8>, value: u64)
    ensures
        final(out)@ == old(out)@ + varint(value as nat),
{
    let mut rest: u64 = value;
    while rest >= 128
        invariant
            out@ + varint(rest as nat) == old(out)@ + varint(value as nat),
        decreases rest,
    {
        let ghost before = out@;
        let group: u8 = (128 + rest % 128) as u8;
        out.push(group);
        proof {
            assert(out@ + varint((rest / 128) as nat) =~= before + varint(rest as nat));
        }
        rest = rest / 128;
    }
    let ghost before = out@;
    out.push(rest as u8);
    proof {
        assert(out@ =~= before + varint(rest as nat));
    }
}

/// Appends `bytes`.
pub fn put_bytes(out: &mut Vec<u8>, bytes: &[u8])
    ensures
        final(out)@ == old(out)@ + bytes@,
{
    let mut i: usize = 0;
    while i < bytes.len()
        invariant
            i <= bytes.len(),
            out@ == old(out)@ + bytes@.take(i as int),
        decreases bytes.len() - i,
    {
        let ghost before = out@;
        out.push(bytes[i]);
        proof {
            assert(out@ =~= old(out)@ + bytes@.take(i + 1));
        }
        i += 1;
    }
    proof {
        assert(bytes@.take(i as int) =~= bytes@);
    }
}

/// Appends a numeric field.
pub fn put_number(out: &mut Vec<u8>, tag: u8, value: u64)
    ensures
        final(out)@ == old(out)@ + field_number(tag, value as nat),
{
    out.push(tag);
    put_varint(out, value);
    proof {
        assert(out@ =~= old(out)@ + field_number(tag, value as nat));
    }
}

/// Appends a block field.
pub fn put_block(out: &mut Vec<u8>, tag: u8, body: &[u8])
    ensures
        final(out)@ == old(out)@ + field_block(tag, body@),
{
    out.push(tag);
    put_varint(out, body.len() as u64);
    put_bytes(out, body);
    proof {
        assert(out@ =~= old(out)@ + field_block(tag, body@));
    }
}

/// The blocks of a table: one block field for each body, in their order.
pub open spec fn blocks(tag: u8, bodies: Seq<Seq<u8>>) -> Seq<u8>
    decreases bodies.len(),
{
    if bodies.len() == 0 {
        Seq::empty()
    } else {
        blocks(tag, bodies.drop_last()) + field_block(tag, bodies.last())
    }
}

/// The most groups that a 64-bit number takes in base 128.
pub const MAX_GROUPS: u8 = 10;

/// The number at the start of `bytes` and the bytes it takes, read from at
/// most `groups` bytes; `None` where the bytes end first, where the number
/// goes on after `groups` bytes, or where it does not fit 64 bits.
pub open spec fn parse_groups(bytes: Seq<u8>, groups: nat) -> Option<(u64, int)>
    decreases groups,
{
    if groups == 0 || bytes.len() == 0 {
        None
    } else if bytes[0] < 128 {
        Some((bytes[0] as u64, 1))
    } else {
        match parse_groups(bytes.skip(1), (groups - 1) as nat) {
            Some((high, used)) => if (bytes[0] - 128) + 128 * high <= u64::MAX {
                Some((((bytes[0] - 128) + 128 * high) as u64, used + 1))
            } else {
                None
            },
            None => None,
        }
    }
}

/// The 64-bit number at the start of `bytes` and the bytes it takes.
pub open spec fn parse_u64(bytes: Seq<u8>) -> Option<(u64, int)> {
    parse_groups(bytes, MAX_GROUPS as nat)
}

/// The numeric field under `tag` at the start of `bytes`, and the bytes it
/// takes.
pub open spec fn parse_number(bytes: Seq<u8>, tag: u8) -> Option<(u64, int)> {
    if bytes.len() == 0 || bytes[0] != tag {
        None
    } else {
        match parse_u64(bytes.skip(1)) {
            Some((value, used)) => Some((value, used + 1)),
            None => None,
        }
    }
}

/// The body of the block field under `tag` at the start of `bytes`, and
/// the bytes that the field takes.
pub open spec fn parse_block(bytes: Seq<u8>, tag: u8) -> Option<(Seq<u8>, int)> {
    if bytes.len() == 0 || bytes[0] != tag {
        None
    } else {
        match parse_u64(bytes.skip(1)) {
            Some((length, used)) => if 1 + used + length <= bytes.len() {
                Some((bytes.subrange(1 + used, 1 + used + length), 1 + used + length))
            } else {
                None
            },
            None => None,
        }
    }
}

/// The bodies of the run of block fields under `tag` at the start of
/// `bytes`, and the bytes that the run takes. The run ends before the
/// first byte that is not `tag`.
pub open spec fn parse_blocks(bytes: Seq<u8>, tag: u8) -> Option<(Seq<Seq<u8>>, int)>
    decreases bytes.len(),
{
    if bytes.len() == 0 || bytes[0] != tag {
        Some((Seq::empty(), 0))
    } else {
        match parse_block(bytes, tag) {
            Some((body, used)) => if 0 < used <= bytes.len() {
                match parse_blocks(bytes.skip(used), tag) {
                    Some((more, further)) => Some((seq![body] + more, used + further)),
                    None => None,
                }
            } else {
                None
            },
            None => None,
        }
    }
}

/// 128 to the power of `groups`.
spec fn pow128(groups: nat) -> nat
    decreases groups,
{
    if groups == 0 {
        1
    } else {
        128 * pow128((groups - 1) as nat)
    }
}

/// A number below 128 to the power of `groups` is read back from its
/// base-128 form, whatever follows it.
proof fn lemma_parse_groups(value: u64, rest: Seq<u8>, groups: nat)
    requires
        groups >= 1,
        value < pow128(groups),
    ensures
        parse_groups(varint(value as nat) + rest, groups) == Some(
            (value, varint(value as nat).len() as int),
        ),
    decreases groups,
{
    let bytes = varint(value as nat) + rest;
    if value >= 128 {
        let high = (value / 128) as u64;
        assert(bytes.skip(1) =~= varint(high as nat) + rest);
        assert(high < pow128((groups - 1) as nat));
        assert(groups - 1 >= 1) by {
            reveal_with_fuel(pow128, 2);
        }
        lemma_parse_groups(high, rest, (groups - 1) as nat);
        assert(bytes[0] == 128 + value % 128);
        assert((bytes[0] - 128) + 128 * high == value);
        assert(varint(value as nat).len() == 1 + varint(high as nat).len());
    } else {
        assert(bytes[0] == value);
    }
}

/// A number below 128 to the power of `groups` takes at most `groups` bytes.
proof fn lemma_varint_bound(value: nat, groups: nat)
    requires
        groups >= 1,
        value < pow128(groups),
    ensures
        varint(value).len() <= groups,
    decreases groups,
{
    reveal_with_fuel(pow128, 2);
    if value >= 128 {
        lemma_varint_bound(value / 128, (groups - 1) as nat);
    }
}

/// A 64-bit number takes at most ten bytes.
pub proof fn lemma_varint_u64(value: u64)
    ensures
        1 <= varint(value as nat).len() <= MAX_GROUPS,
{
    reveal_with_fuel(pow128, 11);
    assert(pow128(10) == 1180591620717411303424);
    lemma_varint_bound(value as nat, 10);
    lemma_varint_len(value as nat);
}

/// Every 64-bit number is read back from its base-128 form.
pub proof fn lemma_parse_u64(value: u64, rest: Seq<u8>)
    ensures
        parse_u64(varint(value as nat) + rest) == Some((value, varint(value as nat).len() as int)),
{
    reveal_with_fuel(pow128, 11);
    assert(pow128(10) == 1180591620717411303424);
    lemma_parse_groups(value, rest, 10);
}

/// A numeric field is read back, whatever follows it.
pub proof fn lemma_parse_number(tag: u8, value: u64, rest: Seq<u8>)
    ensures
        parse_number(field_number(tag, value as nat) + rest, tag) == Some(
            (value, field_number(tag, value as nat).len() as int),
        ),
{
    let bytes = field_number(tag, value as nat) + rest;
    assert(bytes.skip(1) =~= varint(value as nat) + rest);
    lemma_parse_u64(value, rest);
}

/// A block field is read back, whatever follows it.
pub proof fn lemma_parse_block(tag: u8, body: Seq<u8>, rest: Seq<u8>)
    requires
        body.len() <= u64::MAX,
    ensures
        parse_block(field_block(tag, body) + rest, tag) == Some(
            (body, field_block(tag, body).len() as int),
        ),
{
    let bytes = field_block(tag, body) + rest;
    let used = varint(body.len()).len() as int;
    assert(bytes.skip(1) =~= varint(body.len()) + (body + rest));
    lemma_parse_u64(body.len() as u64, body + rest);
    assert(bytes.subrange(1 + used, 1 + used + body.len()) =~= body);
}

/// The blocks of a table start with the block of its first body.
proof fn lemma_blocks_front(tag: u8, first: Seq<u8>, more: Seq<Seq<u8>>)
    ensures
        blocks(tag, seq![first] + more) == field_block(tag, first) + blocks(tag, more),
    decreases more.len(),
{
    let all = seq![first] + more;
    if more.len() == 0 {
        assert(all.drop_last() =~= Seq::<Seq<u8>>::empty());
        assert(blocks(tag, all.drop_last()) =~= Seq::<u8>::empty());
        assert(blocks(tag, all) =~= field_block(tag, first) + blocks(tag, more));
    } else {
        assert(all.drop_last() =~= seq![first] + more.drop_last());
        lemma_blocks_front(tag, first, more.drop_last());
        assert(blocks(tag, all) =~= field_block(tag, first) + blocks(tag, more));
    }
}

/// The blocks of a table are read back, provided that what follows does
/// not start with the table's tag.
pub proof fn lemma_parse_blocks(tag: u8, bodies: Seq<Seq<u8>>, rest: Seq<u8>)
    requires
        forall|i: int| 0 <= i < bodies.len() ==> (#[trigger] bodies[i]).len() <= u64::MAX,
        rest.len() == 0 || rest[0] != tag,
    ensures
        parse_blocks(blocks(tag, bodies) + rest, tag) == Some(
            (bodies, blocks(tag, bodies).len() as int),
        ),
    decreases bodies.len(),
{
    let bytes = blocks(tag, bodies) + rest;
    if bodies.len() == 0 {
        assert(bytes =~= rest);
    } else {
        let first = bodies[0];
        let more = bodies.drop_first();
        assert(bodies =~= seq![first] + more);
        lemma_blocks_front(tag, first, more);
        let tail = blocks(tag, more) + rest;
        assert(bytes =~= field_block(tag, first) + tail);
        lemma_parse_block(tag, first, tail);
        let used = field_block(tag, first).len() as int;
        assert(bytes.skip(used) =~= tail);
        assert forall|i: int| 0 <= i < more.len() implies (#[trigger] more[i]).len()
            <= u64::MAX by {
            assert(more[i] == bodies[i + 1]);
        }
        lemma_parse_blocks(tag, more, rest);
        assert(bytes[0] == tag);
    }
}

fn read_groups(bytes: &[u8], groups: u8) -> (found: Option<(u64, usize)>)
    ensures
        match found {
            Some((value, used)) => parse_groups(bytes@, groups as nat) == Some(
                (value, used as int),
            ) && 1 <= used <= bytes.len(),
            None => parse_groups(bytes@, groups as nat) is None,
        },
    decreases groups,
{
    if groups == 0 || bytes.len() == 0 {
        return None;
    }
    let first = bytes[0];
    if first < 128 {
        return Some((first as u64, 1));
    }
    let rest = slice_subrange(bytes, 1, bytes.len());
    proof {
        assert(rest@ =~= bytes@.skip(1));
    }
    match read_groups(rest, groups - 1) {
        Some((high, used)) => {
            let low: u64 = (first - 128) as u64;
            if high > (u64::MAX - low) / 128 {
                None
            } else {
                Some((low + 128 * high, used + 1))
            }
        },
        None => None,
    }
}

/// Reads the 64-bit number at the start of `bytes`.
pub fn read_u64(bytes: &[u8]) -> (found: Option<(u64, usize)>)
    ensures
        match found {
            Some((value, used)) => parse_u64(bytes@) == Some((value, used as int)) && 1 <= used
                <= bytes.len(),
            None => parse_u64(bytes@) is None,
        },
{
    read_groups(bytes, MAX_GROUPS)
}

/// Reads the numeric field under `tag` at the start of `bytes`.
pub fn read_number(bytes: &[u8], tag: u8) -> (found: Option<(u64, usize)>)
    ensures
        match found {
            Some((value, used)) => parse_number(bytes@, tag) == Some((value, used as int)) && 2
                <= used <= bytes.len(),
            None => parse_number(bytes@, tag) is None,
        },
{
    if bytes.len() == 0 || bytes[0] != tag {
        return None;
    }
    let rest = slice_subrange(bytes, 1, bytes.len());
    proof {
        assert(rest@ =~= bytes@.skip(1));
    }
    match read_u64(rest) {
        Some((value, used)) => Some((value, used + 1)),
        None => None,
    }
}

/// Reads the block field under `tag` at the start of `bytes`.
pub fn read_block<'a>(bytes: &'a [u8], tag: u8) -> (found: Option<(&'a [u8], usize)>)
    ensures
        match found {
            Some((body, used)) => parse_block(bytes@, tag) == Some((body@, used as int)) && 2
                <= used <= bytes.len(),
            None => parse_block(bytes@, tag) is None,
        },
{
    if bytes.len() == 0 || bytes[0] != tag {
        return None;
    }
    let rest = slice_subrange(bytes, 1, bytes.len());
    proof {
        assert(rest@ =~= bytes@.skip(1));
    }
    match read_u64(rest) {
        Some((length, used)) => {
            if length > (bytes.len() - 1 - used) as u64 {
                return None;
            }
            let start = 1 + used;
            let end = start + length as usize;
            Some((slice_subrange(bytes, start, end), end))
        },
        None => None,
    }
}

/// The bytes of each body.
pub open spec fn bodies_view(bodies: Seq<&[u8]>) -> Seq<Seq<u8>> {
    bodies.map_values(|body: &[u8]| body@)
}

/// Reads the run of block fields under `tag` at the start of `bytes`.
pub fn read_blocks<'a>(bytes: &'a [u8], tag: u8) -> (found: Option<(Vec<&'a [u8]>, usize)>)
    ensures
        match found {
            Some((bodies, used)) => parse_blocks(bytes@, tag) == Some(
                (bodies_view(bodies@), used as int),
            ) && used <= bytes.len(),
            None => parse_blocks(bytes@, tag) is None,
        },
{
    let mut bodies: Vec<&'a [u8]> = Vec::new();
    let mut at: usize = 0;
    proof {
        assert(bytes@.skip(0) =~= bytes@);
        assert(bodies_view(bodies@) =~= Seq::empty());
    }
    loop
        invariant
            at <= bytes.len(),
            match parse_blocks(bytes@.skip(at as int), tag) {
                Some((more, further)) => parse_blocks(bytes@, tag) == Some(
                    (bodies_view(bodies@) + more, at + further),
                ),
                None => parse_blocks(bytes@, tag) is None,
            },
        decreases bytes.len() - at,
    {
        let rest = slice_subrange(bytes, at, bytes.len());
        proof {
            assert(rest@ =~= bytes@.skip(at as int));
        }
        if rest.len() == 0 || rest[0] != tag {
            proof {
                assert(bodies_view(bodies@) + Seq::<Seq<u8>>::empty() =~= bodies_view(bodies@));
            }
            return Some((bodies, at));
        }
        match read_block(rest, tag) {
            Some((body, used)) => {
                let ghost before = bodies_view(bodies@);
                bodies.push(body);
                proof {
                    assert(rest@.skip(used as int) =~= bytes@.skip(at + used));
                    assert(bodies_view(bodies@) =~= before.push(body@));
                    match parse_blocks(bytes@.skip(at + used), tag) {
                        Some((more, further)) => {
                            assert(before + (seq![body@] + more) =~= bodies_view(bodies@) + more);
                        },
                        None => {},
                    }
                }
                at = at + used;
            },
            None => {
                return None;
            },
        }
    }
}

} // verus!
