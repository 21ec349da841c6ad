//! The plaintext layout of an archive, as spec functions.
//!
//! ```text
//! [0..16)   magic constant
//! [16..24)  entry count, 8 bytes little-endian (readers look at the low 4)
//! [24..)    one record per entry: name, a zero byte, size (8 bytes), offset (8 bytes)
//! [T..)     the entries' contents, concatenated in table order
//! ```
use vstd::prelude::*;
use crate::codec::{le_u32, le_u64, u64_le, lemma_u64_round_trip, lemma_u32_of_u64_prefix};

verus! {

/// The first sixteen bytes of every well-formed plaintext.
pub const MAGIC: [u8; 16] = [
    0x2b, 0xa4, 0x81, 0xab, 0x2b, 0xa4, 0x81, 0xab, 0x1b, 0x1b, 0x19, 0x0b, 0x56, 0xc2, 0xe7, 0xff,
];

/// Bytes before the first table record: magic and entry count.
pub const HEADER_LEN: usize = 24;

/// Bytes of a record besides the name: terminator, size and offset.
pub const RECORD_FIXED_LEN: usize = 17;

/// The `len` bytes of `s` that start at `start`.
pub open spec fn slice_at(s: Seq<u8>, start: nat, len: nat) -> Seq<u8> {
    s.subrange(start as int, (start + len) as int)
}

/// A name that can stand in a record: it holds no terminator byte.
pub open spec fn name_ok(name: Seq<u8>) -> bool {
    forall|i: int| 0 <= i < name.len() ==> name[i] != 0
}

/// One table record.
pub open spec fn record(name: Seq<u8>, size: nat, offset: nat) -> Seq<u8> {
    name + seq![0u8] + u64_le(size as u64) + u64_le(offset as u64)
}

/// Length of the table of `items` (pairs of name and content).
pub open spec fn table_len(items: Seq<(Seq<u8>, Seq<u8>)>) -> nat
    decreases items.len(),
{
    if items.len() == 0 {
        0
    } else {
        items[0].0.len() + 17 + table_len(items.drop_first())
    }
}

/// The table of `items`, whose first content starts at `off`.
pub open spec fn table_from(items: Seq<(Seq<u8>, Seq<u8>)>, off: nat) -> Seq<u8>
    decreases items.len(),
{
    if items.len() == 0 {
        Seq::empty()
    } else {
        record(items[0].0, items[0].1.len(), off) + table_from(
            items.drop_first(),
            off + items[0].1.len(),
        )
    }
}

/// The contents of `items`, concatenated in order.
pub open spec fn contents(items: Seq<(Seq<u8>, Seq<u8>)>) -> Seq<u8>
    decreases items.len(),
{
    if items.len() == 0 {
        Seq::empty()
    } else {
        contents(items.drop_last()) + items.last().1
    }
}

/// Total content length of the first `j` items.
pub open spec fn len_before(items: Seq<(Seq<u8>, Seq<u8>)>, j: int) -> nat
    decreases j,
{
    if j <= 0 {
        0
    } else {
        len_before(items, j - 1) + items[j - 1].1.len()
    }
}

/// Where the content region of `items` begins.
pub open spec fn data_start(items: Seq<(Seq<u8>, Seq<u8>)>) -> nat {
    24 + table_len(items)
}

/// The whole plaintext that holds `items`.
pub open spec fn image(items: Seq<(Seq<u8>, Seq<u8>)>) -> Seq<u8> {
    MAGIC@ + u64_le(items.len() as u64) + table_from(items, data_start(items)) + contents(items)
}

/// The records that the table of `items` holds: name, size and offset.
pub open spec fn records_of(items: Seq<(Seq<u8>, Seq<u8>)>) -> Seq<(Seq<u8>, u64, u64)> {
    Seq::new(
        items.len(),
        |j: int|
            (
                items[j].0,
                items[j].1.len() as u64,
                (data_start(items) + len_before(items, j)) as u64,
            ),
    )
}

/// Index of the first zero byte at or after `i`, or `buf.len()` if there is none.
pub open spec fn name_end(buf: Seq<u8>, i: int) -> int
    decreases buf.len() - i,
{
    if i < 0 || i >= buf.len() {
        buf.len() as int
    } else if buf[i] == 0 {
        i
    } else {
        name_end(buf, i + 1)
    }
}

/// The `n` records that start at `at`, or `None` where one runs past the end.
pub open spec fn parse_records(buf: Seq<u8>, at: int, n: nat) -> Option<Seq<(Seq<u8>, u64, u64)>>
    decreases n,
{
    if n == 0 {
        Some(Seq::empty())
    } else {
        let e = name_end(buf, at);
        if e + 17 > buf.len() {
            None
        } else {
            match parse_records(buf, e + 17, (n - 1) as nat) {
                Some(rest) => Some(
                    seq![
                        (
                            buf.subrange(at, e),
                            le_u64(buf.subrange(e + 1, e + 9)),
                            le_u64(buf.subrange(e + 9, e + 17)),
                        ),
                    ] + rest,
                ),
                None => None,
            }
        }
    }
}

/// The entry count that a plaintext declares: the low four bytes of its count field.
pub open spec fn declared_count(buf: Seq<u8>) -> nat {
    le_u32(buf.subrange(16, 20)) as nat
}

/// The records of a plaintext's table, or `None` where the table is malformed.
pub open spec fn parse_table(buf: Seq<u8>) -> Option<Seq<(Seq<u8>, u64, u64)>> {
    if buf.len() < 20 {
        None
    } else {
        parse_records(buf, 24, declared_count(buf))
    }
}

/// Whether a plaintext begins with the magic constant.
pub open spec fn has_magic(buf: Seq<u8>) -> bool {
    buf.len() >= 16 && buf.subrange(0, 16) == MAGIC@
}

pub proof fn lemma_table_len(items: Seq<(Seq<u8>, Seq<u8>)>, off: nat)
    ensures
        table_from(items, off).len() == table_len(items),
    decreases items.len(),
{
    if items.len() > 0 {
        lemma_u64_round_trip(items[0].1.len() as u64);
        lemma_u64_round_trip(off as u64);
        lemma_table_len(items.drop_first(), off + items[0].1.len());
    }
}

pub proof fn lemma_contents_len(items: Seq<(Seq<u8>, Seq<u8>)>, j: int)
    requires
        0 <= j <= items.len(),
    ensures
        contents(items.take(j)).len() == len_before(items, j),
    decreases j,
{
    if j > 0 {
        lemma_contents_len(items, j - 1);
        assert(items.take(j).drop_last() =~= items.take(j - 1));
    }
}

/// Each item's content sits in `contents(items)` at `len_before`.
pub proof fn lemma_contents_at(items: Seq<(Seq<u8>, Seq<u8>)>, j: int)
    requires
        0 <= j < items.len(),
    ensures
        len_before(items, j) + items[j].1.len() <= contents(items).len(),
        slice_at(contents(items), len_before(items, j), items[j].1.len()) == items[j].1,
    decreases items.len(),
{
    let n = items.len() as int;
    lemma_contents_len(items, n - 1);
    assert(items.take(n - 1) =~= items.drop_last());
    if j == n - 1 {
        assert(slice_at(contents(items), len_before(items, j), items[j].1.len()) =~= items[j].1);
    } else {
        let p = items.drop_last();
        lemma_contents_at(p, j);
        lemma_len_before_prefix(items, n - 1, j);
        assert(slice_at(contents(items), len_before(items, j), items[j].1.len()) =~= slice_at(
            contents(p),
            len_before(p, j),
            p[j].1.len(),
        ));
    }
}

pub proof fn lemma_len_before_prefix(items: Seq<(Seq<u8>, Seq<u8>)>, k: int, j: int)
    requires
        0 <= j <= k <= items.len(),
    ensures
        len_before(items.take(k), j) == len_before(items, j),
    decreases j,
{
    if j > 0 {
        lemma_len_before_prefix(items, k, j - 1);
    }
}

pub proof fn lemma_name_end(buf: Seq<u8>, i: int, e: int)
    requires
        0 <= i <= e < buf.len(),
        buf[e] == 0,
        forall|k: int| i <= k < e ==> buf[k] != 0,
    ensures
        name_end(buf, i) == e,
    decreases e - i,
{
    if i < e {
        lemma_name_end(buf, i + 1, e);
    }
}

pub proof fn lemma_name_end_none(buf: Seq<u8>, i: int)
    requires
        0 <= i,
        forall|k: int| i <= k < buf.len() ==> buf[k] != 0,
    ensures
        name_end(buf, i) == buf.len(),
    decreases buf.len() - i,
{
    if i < buf.len() {
        lemma_name_end_none(buf, i + 1);
    }
}

/// Facts on the layout of `image(items)`: its length, and where each
/// item's content lies in it.
pub proof fn lemma_image_layout(items: Seq<(Seq<u8>, Seq<u8>)>, j: int)
    requires
        0 <= j < items.len(),
    ensures
        image(items).len() == data_start(items) + contents(items).len(),
        data_start(items) + len_before(items, j) + items[j].1.len() <= image(items).len(),
        slice_at(image(items), data_start(items) + len_before(items, j), items[j].1.len())
            == items[j].1,
{
    let buf = image(items);
    lemma_table_len(items, data_start(items));
    lemma_u64_round_trip(items.len() as u64);
    lemma_contents_at(items, j);
    let ds = data_start(items);
    let lb = len_before(items, j);
    assert(slice_at(buf, ds + lb, items[j].1.len()) =~= slice_at(
        contents(items),
        lb,
        items[j].1.len(),
    ));
}

proof fn lemma_parse_suffix(items: Seq<(Seq<u8>, Seq<u8>)>, i: int, at: int, off: nat)
    requires
        0 <= i <= items.len(),
        forall|j: int| 0 <= j < items.len() ==> name_ok(#[trigger] items[j].0),
        image(items).len() <= u64::MAX,
        0 <= at,
        at + table_len(items.skip(i)) <= image(items).len(),
        image(items).subrange(at, at + table_len(items.skip(i))) == table_from(items.skip(i), off),
        off == data_start(items) + len_before(items, i),
    ensures
        parse_records(image(items), at, (items.len() - i) as nat) == Some(
            records_of(items).skip(i),
        ),
    decreases items.len() - i,
{
    let buf = image(items);
    let n = items.len() as int;
    if i == n {
        assert(records_of(items).skip(i) =~= Seq::empty());
    } else {
        let rest = items.skip(i);
        let name = items[i].0;
        let size = items[i].1.len();
        lemma_image_layout(items, i);
        lemma_u64_round_trip(size as u64);
        lemma_u64_round_trip(off as u64);
        lemma_table_len(rest.drop_first(), off + size);
        let e = at + name.len();
        let t = table_from(rest, off);
        assert(rest[0] == items[i]);
        assert(t == record(name, size, off) + table_from(rest.drop_first(), off + size));
        assert forall|k: int| at <= k < e implies buf[k] != 0 by {
            assert(buf[k] == buf.subrange(at, at + table_len(rest))[k - at]);
            assert(t[k - at] == name[k - at]);
        }
        assert(buf[e] == t[e - at]);
        lemma_name_end(buf, at, e);
        assert(buf.subrange(at, e) =~= name) by {
            assert forall|k: int| 0 <= k < name.len() implies #[trigger] buf.subrange(at, e)[k] == name[k] by {
                assert(buf[at + k] == t[k]);
            }
        }
        assert(buf.subrange(e + 1, e + 9) =~= u64_le(size as u64)) by {
            assert forall|k: int| 0 <= k < 8 implies #[trigger] buf.subrange(e + 1, e + 9)[k] == u64_le(
                size as u64,
            )[k] by {
                assert(buf[e + 1 + k] == t[name.len() + 1 + k]);
            }
        }
        assert(buf.subrange(e + 9, e + 17) =~= u64_le(off as u64)) by {
            assert forall|k: int| 0 <= k < 8 implies #[trigger] buf.subrange(e + 9, e + 17)[k] == u64_le(
                off as u64,
            )[k] by {
                assert(buf[e + 9 + k] == t[name.len() + 9 + k]);
            }
        }
        assert(rest.drop_first() =~= items.skip(i + 1));
        let rlen = table_len(items.skip(i + 1));
        assert(buf.subrange(e + 17, e + 17 + rlen) =~= table_from(items.skip(i + 1), off + size))
            by {
            assert forall|k: int| 0 <= k < rlen implies #[trigger] buf.subrange(e + 17, e + 17 + rlen)[k]
                == table_from(items.skip(i + 1), off + size)[k] by {
                assert(buf[e + 17 + k] == t[name.len() + 17 + k]);
            }
        }
        lemma_parse_suffix(items, i + 1, e + 17, off + size);
        assert(records_of(items).skip(i) =~= seq![records_of(items)[i]] + records_of(items).skip(
            i + 1,
        ));
    }
}

/// Reading back the table of an image gives each item's name, content length
/// and the place of its content, in order; each place holds that content.
pub proof fn lemma_parse_image(items: Seq<(Seq<u8>, Seq<u8>)>)
    requires
        forall|j: int| 0 <= j < items.len() ==> name_ok(#[trigger] items[j].0),
        items.len() < 0x1_0000_0000,
        image(items).len() <= u64::MAX,
    ensures
        has_magic(image(items)),
        parse_table(image(items)) == Some(records_of(items)),
        forall|j: int|
            0 <= j < items.len() ==> {
                let r = #[trigger] records_of(items)[j];
                &&& r.1 as nat == items[j].1.len()
                &&& r.2 + r.1 <= image(items).len()
                &&& slice_at(image(items), r.2 as nat, r.1 as nat) == items[j].1
            },
{
    let buf = image(items);
    let n = items.len();
    lemma_u64_round_trip(n as u64);
    lemma_u32_of_u64_prefix(n as u64);
    lemma_table_len(items, data_start(items));
    assert(buf.subrange(0, 16) =~= MAGIC@);
    assert(buf.subrange(16, 20) =~= u64_le(n as u64).subrange(0, 4));
    assert(declared_count(buf) == n);
    assert(items.skip(0) =~= items);
    assert(buf.subrange(24, 24 + table_len(items) as int) =~= table_from(items, data_start(items)));
    lemma_parse_suffix(items, 0, 24, data_start(items));
    assert(records_of(items).skip(0) =~= records_of(items));
    assert forall|j: int| 0 <= j < items.len() implies {
        let r = #[trigger] records_of(items)[j];
        &&& r.1 as nat == items[j].1.len()
        &&& r.2 + r.1 <= image(items).len()
        &&& slice_at(image(items), r.2 as nat, r.1 as nat) == items[j].1
    } by {
        lemma_image_layout(items, j);
    }
}

} // verus!
