//! What holds of reading and writing together: each undoes the other.

use vstd::prelude::*;
use vstd::utf8::{
    decode_utf8_encode_utf8, encode_utf8, encode_utf8_decode_utf8, encode_utf8_valid_utf8,
};
use crate::error::{FormatFault, NtlError, Oversize};
use crate::item::ItemView;
use crate::kind::FunctionType;
use crate::layout::{
    encodable, fits, le_u32, spec_decode, spec_decode_to, spec_encode, spec_read_item,
    spec_read_items, spec_read_string, spec_write_item, spec_write_items, u32_le, HEADER_LEN,
    MAX_NAME_LEN, SIGNATURE,
};

verus! {

/// The four bytes of an integer hold that integer.
proof fn lemma_le_of_value(x: u32)
    ensures
        u32_le(x).len() == 4,
        le_u32(u32_le(x)) == x,
{
    let b0 = (x % 256) as int;
    let b1 = (x / 256 % 256) as int;
    let b2 = (x / 65536 % 256) as int;
    let b3 = (x / 16777216) as int;
    assert(x / 256 == b1 + 256 * (x / 65536));
    assert(x / 65536 == b2 + 256 * (x / 16777216));
    assert(x == b0 + 256 * b1 + 65536 * b2 + 16777216 * b3);
    assert(u32_le(x)[0] == b0 && u32_le(x)[1] == b1 && u32_le(x)[2] == b2 && u32_le(x)[3] == b3);
}

/// The digits of a number in base 256 are its quotients and remainders.
proof fn lemma_digits(b0: int, b1: int, b2: int, b3: int)
    requires
        0 <= b0 < 256,
        0 <= b1 < 256,
        0 <= b2 < 256,
        0 <= b3 < 256,
    ensures
        0 <= b0 + 256 * b1 + 65536 * b2 + 16777216 * b3 <= u32::MAX,
        (b0 + 256 * b1 + 65536 * b2 + 16777216 * b3) % 256 == b0,
        (b0 + 256 * b1 + 65536 * b2 + 16777216 * b3) / 256 % 256 == b1,
        (b0 + 256 * b1 + 65536 * b2 + 16777216 * b3) / 65536 % 256 == b2,
        (b0 + 256 * b1 + 65536 * b2 + 16777216 * b3) / 16777216 == b3,
{
}

/// The integer that four bytes hold has those four bytes.
proof fn lemma_value_of_le(b: Seq<u8>)
    requires
        b.len() == 4,
    ensures
        u32_le(le_u32(b)) == b,
{
    lemma_digits(b[0] as int, b[1] as int, b[2] as int, b[3] as int);
    assert(u32_le(le_u32(b)) =~= b);
}

/// Four bytes and the integer they hold determine each other.
pub proof fn lemma_u32_le_round_trip(x: u32, b: Seq<u8>)
    ensures
        u32_le(x).len() == 4,
        le_u32(u32_le(x)) == x,
        b.len() == 4 ==> u32_le(le_u32(b)) == b,
{
    lemma_le_of_value(x);
    if b.len() == 4 {
        lemma_value_of_le(b);
    }
}

/// The bytes of the first `n` records depend on those records alone.
proof fn lemma_write_items_prefix(a: Seq<ItemView>, b: Seq<ItemView>, n: nat)
    requires
        n <= a.len(),
        n <= b.len(),
        forall|i: int| 0 <= i < n ==> a[i] == b[i],
    ensures
        spec_write_items(a, n) == spec_write_items(b, n),
    decreases n,
{
    if n > 0 {
        lemma_write_items_prefix(a, b, (n - 1) as nat);
    }
}

/// A record that was written at `pos` is the record that is read there.
proof fn lemma_read_written_item(bytes: Seq<u8>, pos: int, item: ItemView, index: int)
    requires
        0 <= pos,
        spec_write_item(item, index) is Ok,
        pos + spec_write_item(item, index)->Ok_0.len() <= bytes.len(),
        bytes.subrange(pos, pos + spec_write_item(item, index)->Ok_0.len()) == spec_write_item(
            item,
            index,
        )->Ok_0,
    ensures
        spec_read_item(bytes, pos, index) == Ok::<(ItemView, int), NtlError>(
            (item, pos + spec_write_item(item, index)->Ok_0.len()),
        ),
{
    let w = spec_write_item(item, index)->Ok_0;
    let body = encode_utf8(item.name);
    let n = body.len() as int;
    let part = bytes.subrange(pos, pos + w.len());
    lemma_u32_le_round_trip(item.opcode, Seq::empty());
    assert(w.len() == n + 7);
    assert forall|k: int| 0 <= k < w.len() implies bytes[pos + k] == w[k] by {
        assert(part[k] == bytes[pos + k]);
    }
    assert(bytes[pos] == w[0]);
    assert(bytes[pos] == n);
    assert(bytes.subrange(pos + 1, pos + 1 + n) =~= body) by {
        assert forall|k: int| 0 <= k < n implies bytes[pos + 1 + k] == body[k] by {
            assert(w[1 + k] == body[k]);
        }
    }
    encode_utf8_valid_utf8(item.name);
    encode_utf8_decode_utf8(item.name);
    let p = pos + 1 + n;
    assert(bytes[p] == w[1 + n]);
    assert(bytes[p + 1] == w[2 + n]);
    assert(bytes.subrange(p + 2, p + 6) =~= u32_le(item.opcode)) by {
        assert forall|k: int| 0 <= k < 4 implies bytes[p + 2 + k] == u32_le(item.opcode)[k] by {
            assert(w[3 + n + k] == u32_le(item.opcode)[k]);
        }
    }
    assert(FunctionType::of_tag(item.typ.tag()) == Some(item.typ));
}

/// A record that is read from `pos` to `next` is written as the bytes from
/// `pos` to `next`, and its name fits.
proof fn lemma_write_read_item(bytes: Seq<u8>, pos: int, index: int)
    requires
        0 <= pos,
        spec_read_item(bytes, pos, index) is Ok,
    ensures
        pos < spec_read_item(bytes, pos, index)->Ok_0.1 <= bytes.len(),
        fits(spec_read_item(bytes, pos, index)->Ok_0.0),
        spec_write_item(spec_read_item(bytes, pos, index)->Ok_0.0, index) == Ok::<
            Seq<u8>,
            NtlError,
        >(bytes.subrange(pos, spec_read_item(bytes, pos, index)->Ok_0.1)),
{
    let (item, next) = spec_read_item(bytes, pos, index)->Ok_0;
    let n = bytes[pos] as int;
    let body = bytes.subrange(pos + 1, pos + 1 + n);
    let p = pos + 1 + n;
    decode_utf8_encode_utf8(body);
    assert(encode_utf8(item.name) == body);
    lemma_u32_le_round_trip(0, bytes.subrange(p + 2, p + 6));
    assert(item.typ.tag() == bytes[p + 1]);
    assert(spec_write_item(item, index)->Ok_0 =~= bytes.subrange(pos, next));
}

/// Reading the first `n` records of what was written gives those records.
proof fn lemma_read_written_items(bytes: Seq<u8>, items: Seq<ItemView>, n: nat)
    requires
        n <= items.len(),
        spec_write_items(items, n) is Ok,
        HEADER_LEN + spec_write_items(items, n)->Ok_0.len() <= bytes.len(),
        bytes.subrange(
            HEADER_LEN as int,
            HEADER_LEN + spec_write_items(items, n)->Ok_0.len(),
        ) == spec_write_items(items, n)->Ok_0,
    ensures
        spec_read_items(bytes, n) == Ok::<(Seq<ItemView>, int), NtlError>(
            (items.take(n as int), HEADER_LEN + spec_write_items(items, n)->Ok_0.len()),
        ),
    decreases n,
{
    if n == 0 {
        assert(items.take(0) =~= Seq::<ItemView>::empty());
    } else {
        let m = (n - 1) as nat;
        let before = spec_write_items(items, m)->Ok_0;
        let last = spec_write_item(items[n - 1], n - 1)->Ok_0;
        let all = spec_write_items(items, n)->Ok_0;
        let whole = bytes.subrange(HEADER_LEN as int, HEADER_LEN + all.len());
        assert(all == before + last);
        assert(bytes.subrange(HEADER_LEN as int, HEADER_LEN + before.len()) =~= before) by {
            assert forall|k: int| 0 <= k < before.len() implies bytes[HEADER_LEN + k]
                == before[k] by {
                assert(whole[k] == all[k]);
            }
        }
        lemma_read_written_items(bytes, items, m);
        let pos = HEADER_LEN + before.len();
        assert(bytes.subrange(pos, pos + last.len()) =~= last) by {
            assert forall|k: int| 0 <= k < last.len() implies bytes[pos + k] == last[k] by {
                assert(whole[before.len() + k] == all[before.len() + k]);
            }
        }
        lemma_read_written_item(bytes, pos, items[n - 1], n - 1);
        assert(items.take(m as int).push(items[n - 1]) =~= items.take(n as int));
    }
}

/// The first `n` records that are read are written as the bytes they were
/// read from.
proof fn lemma_write_read_items(bytes: Seq<u8>, n: nat, items: Seq<ItemView>, end: int)
    requires
        HEADER_LEN <= bytes.len(),
        spec_read_items(bytes, n) == Ok::<(Seq<ItemView>, int), NtlError>((items, end)),
    ensures
        items.len() == n,
        HEADER_LEN <= end <= bytes.len(),
        forall|i: int| 0 <= i < n ==> fits(#[trigger] items[i]),
        spec_write_items(items, n) == Ok::<Seq<u8>, NtlError>(
            bytes.subrange(HEADER_LEN as int, end),
        ),
    decreases n,
{
    if n == 0 {
        assert(bytes.subrange(HEADER_LEN as int, HEADER_LEN as int) =~= Seq::<u8>::empty());
    } else {
        let m = (n - 1) as nat;
        let (before, pos) = spec_read_items(bytes, m)->Ok_0;
        let last = spec_read_item(bytes, pos, n - 1)->Ok_0.0;
        assert(items == before.push(last));
        lemma_write_read_items(bytes, m, before, pos);
        lemma_write_read_item(bytes, pos, n - 1);
        lemma_write_items_prefix(items, before, m);
        assert(items[n - 1] == last);
        assert(spec_write_item(last, n - 1) == Ok::<Seq<u8>, NtlError>(
            bytes.subrange(pos, end),
        ));
        assert(bytes.subrange(HEADER_LEN as int, pos) + bytes.subrange(pos, end)
            =~= bytes.subrange(HEADER_LEN as int, end));
        assert forall|i: int| 0 <= i < n implies fits(#[trigger] items[i]) by {
            if i < m {
                assert(items[i] == before[i]);
            }
        }
    }
}

/// Every record with a name that fits can be written.
proof fn lemma_fitting_items_written(items: Seq<ItemView>, n: nat)
    requires
        n <= items.len(),
        forall|i: int| 0 <= i < n ==> fits(#[trigger] items[i]),
    ensures
        spec_write_items(items, n) is Ok,
    decreases n,
{
    if n > 0 {
        lemma_fitting_items_written(items, (n - 1) as nat);
        assert(fits(items[n - 1]));
    }
}

/// Records that can be written have names that fit.
proof fn lemma_written_items_fit(items: Seq<ItemView>, n: nat)
    requires
        n <= items.len(),
        spec_write_items(items, n) is Ok,
    ensures
        forall|i: int| 0 <= i < n ==> fits(#[trigger] items[i]),
    decreases n,
{
    if n > 0 {
        lemma_written_items_fit(items, (n - 1) as nat);
    }
}

/// The first failure of writing is a name, and it is the first name that
/// does not fit.
proof fn lemma_write_items_error(items: Seq<ItemView>, n: nat)
    requires
        n <= items.len(),
        spec_write_items(items, n) is Err,
    ensures
        exists|i: int|
            {
                &&& 0 <= i < n
                &&& !fits(#[trigger] items[i])
                &&& forall|j: int| 0 <= j < i ==> fits(#[trigger] items[j])
                &&& spec_write_items(items, n) == Err::<Seq<u8>, NtlError>(
                    NtlError::ValueTooLarge(
                        Oversize::Name {
                            index: i as usize,
                            len: encode_utf8(items[i].name).len() as usize,
                        },
                    ),
                )
            },
    decreases n,
{
    let m = (n - 1) as nat;
    if spec_write_items(items, m) is Err {
        lemma_write_items_error(items, m);
    } else {
        lemma_written_items_fit(items, m);
        assert(!fits(items[n - 1]));
    }
}

/// A table can be written exactly when its count fits 32 bits and each of
/// its names fits 255 bytes. Whatever fails, the error is a value too large:
/// the count if that is too large, else the first name that is too long, with
/// its index and its length in bytes.
pub proof fn lemma_encode_succeeds_iff(items: Seq<ItemView>)
    ensures
        spec_encode(items) is Ok <==> encodable(items),
        spec_encode(items) is Err ==> spec_encode(items)->Err_0 is ValueTooLarge,
        items.len() > u32::MAX ==> spec_encode(items) == Err::<Seq<u8>, NtlError>(
            NtlError::ValueTooLarge(Oversize::Count { count: items.len() as usize }),
        ),
        items.len() <= u32::MAX && !encodable(items) ==> exists|i: int|
            {
                &&& 0 <= i < items.len()
                &&& !fits(#[trigger] items[i])
                &&& forall|j: int| 0 <= j < i ==> fits(#[trigger] items[j])
                &&& spec_encode(items) == Err::<Seq<u8>, NtlError>(
                    NtlError::ValueTooLarge(
                        Oversize::Name {
                            index: i as usize,
                            len: encode_utf8(items[i].name).len() as usize,
                        },
                    ),
                )
            },
{
    if items.len() <= u32::MAX {
        if encodable(items) {
            lemma_fitting_items_written(items, items.len());
        } else {
            if spec_write_items(items, items.len()) is Ok {
                lemma_written_items_fit(items, items.len());
            }
            lemma_write_items_error(items, items.len());
        }
    }
}

/// A table with a name of more than 255 bytes is never written: writing
/// fails with a value too large.
pub proof fn lemma_long_name_refused(items: Seq<ItemView>, i: int)
    requires
        0 <= i < items.len(),
        encode_utf8(items[i].name).len() > MAX_NAME_LEN,
    ensures
        spec_encode(items) is Err,
        spec_encode(items)->Err_0 is ValueTooLarge,
{
    lemma_encode_succeeds_iff(items);
    assert(!fits(items[i]));
}

/// Reading what was written gives the table back, record for record and in
/// order, and reads every byte.
pub proof fn lemma_decode_encode(items: Seq<ItemView>)
    requires
        encodable(items),
    ensures
        spec_encode(items) is Ok,
        spec_decode(spec_encode(items)->Ok_0) == Ok::<Seq<ItemView>, NtlError>(items),
        spec_decode_to(spec_encode(items)->Ok_0) == Ok::<(Seq<ItemView>, int), NtlError>(
            (items, spec_encode(items)->Ok_0.len() as int),
        ),
{
    lemma_encode_succeeds_iff(items);
    let count = items.len() as u32;
    let body = spec_write_items(items, items.len())->Ok_0;
    let bytes = spec_encode(items)->Ok_0;
    lemma_u32_le_round_trip(SIGNATURE, Seq::empty());
    lemma_u32_le_round_trip(count, Seq::empty());
    assert(bytes == u32_le(SIGNATURE) + u32_le(count) + body);
    assert(bytes.subrange(0, 4) =~= u32_le(SIGNATURE));
    assert(bytes.subrange(4, 8) =~= u32_le(count));
    assert(bytes.subrange(HEADER_LEN as int, HEADER_LEN + body.len()) =~= body);
    lemma_read_written_items(bytes, items, items.len());
    assert(items.take(items.len() as int) =~= items);
}

/// Writing what was read gives the bytes back that were read: the file
/// image up to the end of its last record. An image that ends there is
/// given back whole.
pub proof fn lemma_encode_decode(bytes: Seq<u8>)
    requires
        spec_decode(bytes) is Ok,
    ensures
        encodable(spec_decode(bytes)->Ok_0),
        HEADER_LEN <= spec_decode_to(bytes)->Ok_0.1 <= bytes.len(),
        spec_encode(spec_decode(bytes)->Ok_0) == Ok::<Seq<u8>, NtlError>(
            bytes.subrange(0, spec_decode_to(bytes)->Ok_0.1),
        ),
        spec_decode_to(bytes)->Ok_0.1 == bytes.len() ==> spec_encode(spec_decode(bytes)->Ok_0)
            == Ok::<Seq<u8>, NtlError>(bytes),
{
    let (items, end) = spec_decode_to(bytes)->Ok_0;
    let count = le_u32(bytes.subrange(4, 8));
    lemma_write_read_items(bytes, count as nat, items, end);
    lemma_u32_le_round_trip(0, bytes.subrange(0, 4));
    lemma_u32_le_round_trip(0, bytes.subrange(4, 8));
    assert(bytes.subrange(0, 4) + bytes.subrange(4, 8) + bytes.subrange(HEADER_LEN as int, end)
        =~= bytes.subrange(0, end));
    if end == bytes.len() {
        assert(bytes.subrange(0, end) =~= bytes);
    }
}

/// A file image that ends inside a name is refused as truncated: when the
/// records before `n` are read and the name of record `n` is announced
/// longer than what is left, reading fails at the first byte of the name.
pub proof fn lemma_truncated_name(bytes: Seq<u8>, n: nat)
    requires
        bytes.len() >= HEADER_LEN,
        le_u32(bytes.subrange(0, 4)) == SIGNATURE,
        n < le_u32(bytes.subrange(4, 8)),
        spec_read_items(bytes, n) is Ok,
        spec_read_items(bytes, n)->Ok_0.1 < bytes.len(),
        spec_read_items(bytes, n)->Ok_0.1 + 1 + bytes[spec_read_items(bytes, n)->Ok_0.1]
            > bytes.len(),
    ensures
        spec_decode(bytes) == Err::<Seq<ItemView>, NtlError>(
            NtlError::Truncation { offset: (spec_read_items(bytes, n)->Ok_0.1 + 1) as usize },
        ),
{
    let count = le_u32(bytes.subrange(4, 8)) as nat;
    lemma_read_error_stays(bytes, n + 1, count);
}

/// A record whose kind tag is none of 1, 2, 3 and 4 is refused as a format
/// error that names the record and the tag: when the records before `n` are
/// read, and the name and the precedence of record `n` are there, the tag
/// that follows decides.
pub proof fn lemma_invalid_kind_refused(bytes: Seq<u8>, n: nat)
    requires
        bytes.len() >= HEADER_LEN,
        le_u32(bytes.subrange(0, 4)) == SIGNATURE,
        n < le_u32(bytes.subrange(4, 8)),
        spec_read_items(bytes, n) is Ok,
        spec_read_string(bytes, spec_read_items(bytes, n)->Ok_0.1, n as int) is Ok,
        spec_read_string(bytes, spec_read_items(bytes, n)->Ok_0.1, n as int)->Ok_0.1 + 1
            < bytes.len(),
        !(1 <= bytes[spec_read_string(bytes, spec_read_items(bytes, n)->Ok_0.1, n as int)->Ok_0.1
            + 1] <= 4),
    ensures
        spec_decode(bytes) == Err::<Seq<ItemView>, NtlError>(
            NtlError::Format(
                FormatFault::Kind {
                    index: n as usize,
                    tag: bytes[spec_read_string(
                        bytes,
                        spec_read_items(bytes, n)->Ok_0.1,
                        n as int,
                    )->Ok_0.1 + 1],
                },
            ),
        ),
{
    let count = le_u32(bytes.subrange(4, 8)) as nat;
    lemma_read_error_stays(bytes, n + 1, count);
}

/// Once reading a record has failed, reading more records fails the same way.
pub proof fn lemma_read_error_stays(bytes: Seq<u8>, n: nat, m: nat)
    requires
        n <= m,
        spec_read_items(bytes, n) is Err,
    ensures
        spec_read_items(bytes, m) == spec_read_items(bytes, n),
    decreases m,
{
    if n < m {
        lemma_read_error_stays(bytes, n, (m - 1) as nat);
    }
}

/// Once writing a record has failed, writing more records fails the same way.
pub proof fn lemma_write_error_stays(items: Seq<ItemView>, n: nat, m: nat)
    requires
        n <= m,
        spec_write_items(items, n) is Err,
    ensures
        spec_write_items(items, m) == spec_write_items(items, n),
    decreases m,
{
    if n < m {
        lemma_write_error_stays(items, n, (m - 1) as nat);
    }
}

} // verus!
