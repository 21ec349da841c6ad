//! Entries and the archive that holds them.
use vstd::prelude::*;
use crate::codec::{push_u64, read_u32, read_u64, u64_le, lemma_u64_round_trip};
use crate::crypto::{
    aes_cbc_decrypt_raw_of, aes_cbc_encrypt_of, decrypt_buffer, encrypt_buffer, key_of,
    pass_to_hash, padding_ok, strip_padding, unpadded, CIPHER_MAX_INPUT, IV,
};
use crate::format::{
    contents, data_start, declared_count, has_magic, image, len_before, name_ok,
    parse_records, parse_table, record, slice_at, table_from, table_len, lemma_contents_len,
    lemma_name_end, lemma_name_end_none, lemma_table_len, HEADER_LEN, MAGIC, RECORD_FIXED_LEN,
};

verus! {

/// Why an archive operation did not succeed.
#[derive(Debug, Clone, Copy, PartialEq, Eq, Structural)]
pub enum ArchiveError {
    /// The plaintext does not begin with the magic constant (wrong passphrase
    /// or foreign file), its table runs past its end, or an entry's content
    /// lies outside the buffer it refers to.
    Format,
    /// The cipher refused the data (bad length or padding) or failed.
    Cipher,
    /// The serialized archive would not fit in the address space.
    TooLarge,
}

/// Where an entry's content is held.
enum StorageLocation {
    /// In the owning archive's decrypted buffer, at the entry's offset.
    DatFile,
    /// In the entry's own buffer.
    OwnMem,
}

/// One named blob of an archive.
pub struct EncFile {
    name: Vec<u8>,
    size: usize,
    offset: usize,
    fdat: Vec<u8>,
    location: StorageLocation,
}

/// What an entry stands for: name, size, offset and, where the entry holds
/// its own copy, its content.
pub struct EntryView {
    pub name: Seq<u8>,
    pub size: nat,
    pub offset: nat,
    pub content: Option<Seq<u8>>,
}

impl View for EncFile {
    type V = EntryView;

    closed spec fn view(&self) -> EntryView {
        EntryView {
            name: self.name@,
            size: self.size as nat,
            offset: self.offset as nat,
            content: match self.location {
                StorageLocation::OwnMem => Some(self.fdat@),
                StorageLocation::DatFile => None,
            },
        }
    }
}

/// The views of a sequence of entries.
pub open spec fn views(fs: Seq<EncFile>) -> Seq<EntryView> {
    fs.map_values(|f: EncFile| f@)
}

/// An entry whose name can be written to a table and whose own content, if
/// any, has the entry's size.
pub open spec fn entry_ok(e: EntryView) -> bool {
    &&& name_ok(e.name)
    &&& (e.content matches Some(c) ==> c.len() == e.size)
}

/// Equality of entries: same name, offset and size.
pub open spec fn same_entry(a: EntryView, b: EntryView) -> bool {
    a.name == b.name && a.offset == b.offset && a.size == b.size
}

/// Whether the content of `e` can be had, given the archive buffer `buf`.
pub open spec fn resolvable(buf: Seq<u8>, e: EntryView) -> bool {
    e.content is Some || e.offset + e.size <= buf.len()
}

/// The content of `e`: its own copy, or its slice of `buf`.
pub open spec fn content_of(buf: Seq<u8>, e: EntryView) -> Seq<u8> {
    match e.content {
        Some(c) => c,
        None => slice_at(buf, e.offset, e.size),
    }
}

/// Copies `len` bytes of `buf` from `start`.
fn copy_range(buf: &Vec<u8>, start: usize, len: usize) -> (r: Vec<u8>)
    requires
        start + len <= buf@.len(),
    ensures
        r@ == slice_at(buf@, start as nat, len as nat),
{
    let mut r: Vec<u8> = Vec::new();
    let total: usize = buf.len();
    let mut i: usize = 0;
    while i < len
        invariant
            start + len <= total,
            total == buf@.len(),
            i <= len,
            r@ == buf@.subrange(start as int, start + i),
        decreases len - i,
    {
        r.push(buf[start + i]);
        i = i + 1;
        assert(r@ =~= buf@.subrange(start as int, start + i));
    }
    r
}

/// Appends all of `src` to `out`.
fn push_all(out: &mut Vec<u8>, src: &Vec<u8>)
    ensures
        final(out)@ == old(out)@ + src@,
{
    let mut i: usize = 0;
    while i < src.len()
        invariant
            i <= src@.len(),
            out@ == old(out)@ + src@.subrange(0, i as int),
        decreases src@.len() - i,
    {
        out.push(src[i]);
        i = i + 1;
        assert(out@ =~= old(out)@ + src@.subrange(0, i as int));
    }
    assert(src@.subrange(0, src@.len() as int) =~= src@);
}

/// Whether two byte strings are equal.
fn bytes_eq(a: &Vec<u8>, b: &Vec<u8>) -> (r: bool)
    ensures
        r == (a@ == b@),
{
    if a.len() != b.len() {
        return false;
    }
    let mut i: usize = 0;
    while i < a.len()
        invariant
            a@.len() == b@.len(),
            i <= a@.len(),
            forall|k: int| 0 <= k < i ==> a@[k] == b@[k],
        decreases a@.len() - i,
    {
        if a[i] != b[i] {
            return false;
        }
        i = i + 1;
    }
    assert(a@ =~= b@);
    true
}

/// Whether two entries are equal by name, offset and size.
fn entry_matches(a: &EncFile, b: &EncFile) -> (r: bool)
    ensures
        r == same_entry(a@, b@),
{
    a.offset == b.offset && a.size == b.size && bytes_eq(&a.name, &b.name)
}

impl PartialEq for EncFile {
    fn eq(&self, other: &EncFile) -> (r: bool) {
        entry_matches(self, other)
    }
}

impl vstd::std_specs::cmp::PartialEqSpecImpl for EncFile {
    open spec fn obeys_eq_spec() -> bool {
        true
    }

    open spec fn eq_spec(&self, other: &EncFile) -> bool {
        same_entry(self@, other@)
    }
}

impl EncFile {
    /// An entry named `name` with the given size and offset; with `load_self`
    /// it holds its own copy of that content, without it the content lies in
    /// the archive buffer.
    fn new(name: Vec<u8>, size: usize, offset: usize, load_self: Option<&Vec<u8>>) -> (r: Self)
        requires
            load_self matches Some(d) ==> d@.len() == size,
        ensures
            r@ == (EntryView {
                name: name@,
                size: size as nat,
                offset: offset as nat,
                content: match load_self {
                    Some(d) => Some(d@),
                    None => None,
                },
            }),
    {
        match load_self {
            Some(d) => {
                let fdat = copy_range(d, 0, size);
                assert(fdat@ =~= d@);
                EncFile { name, size, offset, fdat, location: StorageLocation::OwnMem }
            },
            None => EncFile {
                name,
                size,
                offset,
                fdat: Vec::new(),
                location: StorageLocation::DatFile,
            },
        }
    }

    /// The table record of this entry: name, terminator, size, offset.
    fn serialize(&self) -> (r: Vec<u8>)
        ensures
            r@ == record(self@.name, self@.size, self@.offset),
    {
        let mut data_buff = copy_range(&self.name, 0, self.name.len());
        assert(data_buff@ =~= self.name@);
        data_buff.push(0u8);
        push_u64(&mut data_buff, self.size as u64);
        push_u64(&mut data_buff, self.offset as u64);
        data_buff
    }

    /// A copy of the entry's name.
    pub fn get_fname(&self) -> (r: Vec<u8>)
        ensures
            r@ == self@.name,
    {
        let r = copy_range(&self.name, 0, self.name.len());
        assert(r@ =~= self.name@);
        r
    }

    /// The entry's size in bytes.
    pub fn get_fsize(&self) -> (r: usize)
        ensures
            r == self@.size,
    {
        self.size
    }

    /// The entry's offset.
    pub fn get_foffset(&self) -> (r: usize)
        ensures
            r == self@.offset,
    {
        self.offset
    }

    /// Replaces the entry's content by `data`, held in the entry itself.
    pub fn set_file_data(&mut self, data: Vec<u8>)
        ensures
            final(self)@ == (EntryView {
                name: old(self)@.name,
                size: data@.len(),
                offset: old(self)@.offset,
                content: Some(data@),
            }),
    {
        self.size = data.len();
        self.fdat = data;
        self.update_location(StorageLocation::OwnMem);
    }

    /// Replaces the entry's own copy of its content, keeping its size.
    fn set_file_vec(&mut self, dat: Vec<u8>)
        ensures
            final(self)@ == (EntryView { content: Some(dat@), ..old(self)@ }),
    {
        self.fdat = dat;
        self.update_location(StorageLocation::OwnMem);
    }

    /// The entry's own copy of its content, if it holds one.
    fn get_fdat(&self) -> (r: Option<&Vec<u8>>)
        ensures
            match r {
                Some(d) => self@.content == Some(d@),
                None => self@.content is None,
            },
    {
        match self.location {
            StorageLocation::DatFile => None,
            StorageLocation::OwnMem => Some(&self.fdat),
        }
    }

    fn update_location(&mut self, loc: StorageLocation)
        ensures
            final(self).name == old(self).name,
            final(self).size == old(self).size,
            final(self).offset == old(self).offset,
            final(self).fdat == old(self).fdat,
            final(self).location == loc,
    {
        self.location = loc;
    }
}

/// The entries that a parsed table stands for: content in the buffer.
pub open spec fn entries_of(recs: Seq<(Seq<u8>, u64, u64)>) -> Seq<EntryView> {
    Seq::new(
        recs.len(),
        |j: int| EntryView { name: recs[j].0, size: recs[j].1 as nat, offset: recs[j].2 as nat, content: None },
    )
}

/// Every size and offset of `recs` fits in a `usize`.
pub open spec fn records_fit(recs: Seq<(Seq<u8>, u64, u64)>) -> bool {
    forall|j: int| 0 <= j < recs.len() ==> #[trigger] recs[j].1 <= usize::MAX && recs[j].2 <= usize::MAX
}

/// The entries of a plaintext's table, or `None` where it is malformed.
pub open spec fn table_entries(buf: Seq<u8>) -> Option<Seq<EntryView>> {
    match parse_table(buf) {
        Some(recs) => if records_fit(recs) {
            Some(entries_of(recs))
        } else {
            None
        },
        None => None,
    }
}

/// The entries of a decrypted archive, or `None` where it lacks the magic
/// constant or its table is malformed.
pub open spec fn loaded(plain: Seq<u8>) -> Option<Seq<EntryView>> {
    if has_magic(plain) {
        table_entries(plain)
    } else {
        None
    }
}

/// Whether the encrypted bytes `data` decrypt under `pass` to something
/// without the magic constant, or, padding removed, to a malformed table.
pub open spec fn malformed(data: Seq<u8>, pass: Seq<char>) -> bool {
    let raw = aes_cbc_decrypt_raw_of(key_of(pass), IV@, data);
    !has_magic(raw) || (padding_ok(raw) && loaded(unpadded(raw)) is None)
}

/// What an archive stands for: its decrypted buffer, its key, its entries.
pub struct ArchiveView {
    pub buffer: Seq<u8>,
    pub key: Seq<u8>,
    pub entries: Seq<EntryView>,
}

/// Every entry of the archive is well formed.
pub open spec fn archive_ok(a: ArchiveView) -> bool {
    forall|i: int| 0 <= i < a.entries.len() ==> entry_ok(#[trigger] a.entries[i])
}

/// Every entry's content can be had from `buf`.
pub open spec fn all_resolvable(buf: Seq<u8>, es: Seq<EntryView>) -> bool {
    forall|i: int| 0 <= i < es.len() ==> resolvable(buf, #[trigger] es[i])
}

/// Name and content of each entry, in order.
pub open spec fn items_of(buf: Seq<u8>, es: Seq<EntryView>) -> Seq<(Seq<u8>, Seq<u8>)> {
    Seq::new(es.len(), |i: int| (es[i].name, content_of(buf, es[i])))
}

/// The entries after a save: each holds its content, at its place in the
/// new layout.
pub open spec fn laid_out(items: Seq<(Seq<u8>, Seq<u8>)>) -> Seq<EntryView> {
    Seq::new(
        items.len(),
        |j: int|
            EntryView {
                name: items[j].0,
                size: items[j].1.len(),
                offset: data_start(items) + len_before(items, j),
                content: Some(items[j].1),
            },
    )
}

/// The plaintext that saving `a` writes.
pub open spec fn serialized(a: ArchiveView) -> Seq<u8> {
    image(items_of(a.buffer, a.entries))
}

/// Whether `a` can be saved: every content can be had and the plaintext
/// fits in the address space.
pub open spec fn savable(a: ArchiveView) -> bool {
    all_resolvable(a.buffer, a.entries) && serialized(a).len() <= usize::MAX
}

/// The archive after a save: same buffer and key, entries laid out anew.
pub open spec fn saved(a: ArchiveView) -> ArchiveView {
    ArchiveView {
        buffer: a.buffer,
        key: a.key,
        entries: laid_out(items_of(a.buffer, a.entries)),
    }
}

/// Why saving `a` fails, if it does.
pub open spec fn save_error(a: ArchiveView) -> Option<ArchiveError> {
    if !all_resolvable(a.buffer, a.entries) {
        Some(ArchiveError::Format)
    } else if serialized(a).len() > usize::MAX {
        Some(ArchiveError::TooLarge)
    } else {
        None
    }
}

proof fn lemma_len_before_mono(items: Seq<(Seq<u8>, Seq<u8>)>, i: int, j: int)
    requires
        0 <= i <= j,
    ensures
        len_before(items, i) <= len_before(items, j),
    decreases j - i,
{
    if i < j {
        lemma_len_before_mono(items, i, j - 1);
    }
}

proof fn lemma_image_len(items: Seq<(Seq<u8>, Seq<u8>)>)
    ensures
        image(items).len() == data_start(items) + len_before(items, items.len() as int),
{
    lemma_table_len(items, data_start(items));
    lemma_u64_round_trip(items.len() as u64);
    lemma_contents_len(items, items.len() as int);
    assert(items.take(items.len() as int) =~= items);
}

/// The offset given to an entry appended after `es`: where the last entry's
/// content ends (wrapping at the `usize` range), or 0. It is a placeholder:
/// saving assigns every offset anew.
pub open spec fn next_offset(es: Seq<EntryView>) -> nat {
    if es.len() == 0 {
        0
    } else if es.last().offset + es.last().size > usize::MAX {
        (es.last().offset + es.last().size - (usize::MAX + 1)) as nat
    } else {
        es.last().offset + es.last().size
    }
}

/// The entry that adding `data` under `name` appends to `es`.
pub open spec fn new_entry(es: Seq<EntryView>, name: Seq<u8>, data: Seq<u8>) -> EntryView {
    EntryView { name, size: data.len(), offset: next_offset(es), content: Some(data) }
}

/// Index of the first entry of `es` equal to `e` by name, offset and size;
/// `es.len()` where there is none.
pub open spec fn first_match(es: Seq<EntryView>, e: EntryView) -> int
    decreases es.len(),
{
    if es.len() == 0 {
        0
    } else if same_entry(es[0], e) {
        0
    } else {
        1 + first_match(es.drop_first(), e)
    }
}

proof fn lemma_first_match(es: Seq<EntryView>, e: EntryView, i: int)
    requires
        0 <= i < es.len(),
        same_entry(es[i], e),
        forall|j: int| 0 <= j < i ==> !same_entry(#[trigger] es[j], e),
    ensures
        first_match(es, e) == i,
    decreases i,
{
    if i > 0 {
        assert(!same_entry(es[0], e));
        assert forall|j: int| 0 <= j < i - 1 implies !same_entry(#[trigger] es.drop_first()[j], e) by {
            assert(es.drop_first()[j] == es[j + 1]);
        }
        lemma_first_match(es.drop_first(), e, i - 1);
    }
}

/// An encrypted archive, decrypted in memory.
pub struct Datafile {
    file_data: Vec<u8>,
    aes_pass: [u8; 32],
    files: Vec<EncFile>,
}

impl View for Datafile {
    type V = ArchiveView;

    closed spec fn view(&self) -> ArchiveView {
        ArchiveView {
            buffer: self.file_data@,
            key: self.aes_pass@,
            entries: views(self.files@),
        }
    }
}

/// Whether `buf` begins with the magic constant.
fn starts_with_magic(buf: &Vec<u8>) -> (r: bool)
    ensures
        r == has_magic(buf@),
{
    if buf.len() < 16 {
        return false;
    }
    let magic: [u8; 16] = MAGIC;
    let mut i: usize = 0;
    while i < 16
        invariant
            i <= 16,
            buf@.len() >= 16,
            magic@ == MAGIC@,
            forall|k: int| 0 <= k < i ==> buf@[k] == MAGIC@[k],
        decreases 16 - i,
    {
        if buf[i] != magic[i] {
            assert(buf@.subrange(0, 16)[i as int] != MAGIC@[i as int]);
            return false;
        }
        i = i + 1;
    }
    assert(buf@.subrange(0, 16) =~= MAGIC@);
    true
}

impl Datafile {
    /// Every entry is well formed.
    pub open spec fn wf(&self) -> bool {
        archive_ok(self@)
    }

    /// An archive of no entries over a decrypted buffer.
    fn new(file_data: Vec<u8>, aes_pass: [u8; 32]) -> (r: Self)
        ensures
            r@ == (ArchiveView { buffer: file_data@, key: aes_pass@, entries: Seq::empty() }),
            r.wf(),
    {
        let files: Vec<EncFile> = Vec::new();
        let r = Datafile { file_data, aes_pass, files };
        assert(r@.entries =~= Seq::<EntryView>::empty());
        r
    }

    /// Parses the table of the buffer and appends its entries, their
    /// content left in the buffer. On a malformed table nothing changes.
    pub fn parse_filetable(&mut self) -> (r: Result<(), ArchiveError>)
        requires
            old(self).wf(),
        ensures
            final(self).wf(),
            final(self)@.buffer == old(self)@.buffer,
            final(self)@.key == old(self)@.key,
            match r {
                Ok(()) => table_entries(old(self)@.buffer) matches Some(es) && final(self)@.entries
                    == old(self)@.entries + es,
                Err(e) => e == ArchiveError::Format && table_entries(old(self)@.buffer) is None
                    && final(self)@ == old(self)@,
            },
    {
        let len: usize = self.file_data.len();
        if len < 20 {
            return Err(ArchiveError::Format);
        }
        let num_files: u32 = read_u32(&self.file_data, 16);
        let ghost buf = self.file_data@;
        let ghost total = declared_count(buf);
        assert(num_files == total);
        let mut parsed: Vec<EncFile> = Vec::new();
        let ghost mut acc: Seq<(Seq<u8>, u64, u64)> = Seq::empty();
        let mut read_bytes: usize = HEADER_LEN;
        let mut k: u32 = 0;
        while k < num_files
            invariant
                self.file_data@ == buf,
                self@ == old(self)@,
                old(self).wf(),
                len == buf.len(),
                k <= num_files,
                num_files == total,
                acc.len() == k,
                records_fit(acc),
                views(parsed@) == entries_of(acc),
                forall|j: int| 0 <= j < parsed@.len() ==> entry_ok(#[trigger] parsed@[j]@),
                parse_table(buf) == match parse_records(buf, read_bytes as int, (total - k) as nat) {
                    Some(rest) => Some(acc + rest),
                    None => None,
                },
            decreases num_files - k,
        {
            let start: usize = read_bytes;
            let mut e: usize = start;
            while e < len && self.file_data[e] != 0
                invariant
                    self.file_data@ == buf,
                    len == buf.len(),
                    start <= e,
                    start < len ==> e <= len,
                    forall|i: int| start <= i < e ==> buf[i] != 0,
                decreases len - e,
            {
                e = e + 1;
            }
            proof {
                if e < len {
                    lemma_name_end(buf, start as int, e as int);
                } else {
                    lemma_name_end_none(buf, start as int);
                }
            }
            if e >= len || len - e < RECORD_FIXED_LEN {
                return Err(ArchiveError::Format);
            }
            let name = copy_range(&self.file_data, start, e - start);
            let size64: u64 = read_u64(&self.file_data, e + 1);
            let off64: u64 = read_u64(&self.file_data, e + 9);
            let ghost rec = (buf.subrange(start as int, e as int), size64, off64);
            proof {
                let n = (total - k) as nat;
                let rest = parse_records(buf, e + 17, (n - 1) as nat);
                assert(buf.subrange(start as int, e as int) == slice_at(buf, start as nat, (e - start) as nat));
                assert(parse_records(buf, start as int, n) == match rest {
                    Some(rr) => Some(seq![rec] + rr),
                    None => None,
                });
                if let Some(rr) = rest {
                    assert((acc + (seq![rec] + rr))[k as int] == rec);
                    assert((acc.push(rec) + rr)[k as int].1 == size64);
                    assert(acc + (seq![rec] + rr) =~= acc.push(rec) + rr);
                }
            }
            if size64 > usize::MAX as u64 || off64 > usize::MAX as u64 {
                return Err(ArchiveError::Format);
            }
            let ghost old_parsed = parsed@;
            let ghost old_acc = acc;
            parsed.push(EncFile::new(name, size64 as usize, off64 as usize, None));
            proof {
                acc = acc.push(rec);
                assert(views(old_parsed).len() == old_parsed.len());
                assert(parsed@.len() == acc.len());
                assert forall|j: int| 0 <= j < parsed@.len() implies #[trigger] views(parsed@)[j]
                    == entries_of(acc)[j] by {
                    if j < k {
                        assert(views(old_parsed)[j] == entries_of(old_acc)[j]);
                    }
                }
                assert(views(parsed@) =~= entries_of(acc));
            }
            read_bytes = e + RECORD_FIXED_LEN;
            k = k + 1;
        }
        let ghost old_files = self.files@;
        self.files.append(&mut parsed);
        proof {
            assert(self@.entries =~= old(self)@.entries + entries_of(acc));
            assert(acc + Seq::empty() =~= acc);
        }
        Ok(())
    }

    /// Serializes the archive: each entry whose content lies in the buffer
    /// takes its own copy, offsets are assigned in list order after the
    /// table, and the plaintext is returned. On failure nothing changes.
    fn get_file_content(&mut self) -> (r: Result<Vec<u8>, ArchiveError>)
        requires
            old(self).wf(),
        ensures
            final(self).wf(),
            match r {
                Ok(out) => savable(old(self)@) && out@ == serialized(old(self)@) && final(self)@
                    == saved(old(self)@),
                Err(e) => save_error(old(self)@) == Some(e) && final(self)@ == old(self)@,
            },
    {
        let n: usize = self.files.len();
        let ghost a = self@;
        let ghost buf = a.buffer;
        let ghost es = a.entries;
        let ghost items = items_of(buf, es);
        let blen: usize = self.file_data.len();
        assert(es.len() == n);
        let mut i: usize = 0;
        while i < n
            invariant
                self@ == a,
                a == old(self)@,
                old(self).wf(),
                buf == self.file_data@,
                es == views(self.files@),
                blen == buf.len(),
                n == es.len(),
                i <= n,
                forall|j: int| 0 <= j < i ==> resolvable(buf, #[trigger] es[j]),
            decreases n - i,
        {
            let f = &self.files[i];
            assert(es[i as int] == f@);
            match f.location {
                StorageLocation::DatFile => {
                    if f.offset > blen || f.size > blen - f.offset {
                        return Err(ArchiveError::Format);
                    }
                },
                StorageLocation::OwnMem => {},
            }
            i = i + 1;
        }
        proof {
            lemma_image_len(items);
            lemma_len_before_mono(items, 0, n as int);
            assert(items.skip(0) =~= items);
        }
        let mut total: usize = HEADER_LEN;
        let mut ts: usize = 0;
        i = 0;
        while i < n
            invariant
                self@ == a,
                buf == self.file_data@,
                es == views(self.files@),
                old(self).wf(),
                all_resolvable(buf, es),
                items == items_of(buf, es),
                n == es.len(),
                i <= n,
                len_before(items, i as int) <= len_before(items, n as int),
                ts + table_len(items.skip(i as int)) == table_len(items),
                total == 24 + ts + len_before(items, i as int),
                image(items).len() == data_start(items) + len_before(items, n as int),
            decreases n - i,
        {
            let f = &self.files[i];
            proof {
                assert(es[i as int] == f@);
                assert(entry_ok(es[i as int]));
                assert(items.skip(i as int).drop_first() =~= items.skip(i + 1));
                lemma_len_before_mono(items, i + 1, n as int);
            }
            let nl: usize = f.name.len();
            if nl > usize::MAX - total || RECORD_FIXED_LEN > usize::MAX - total - nl {
                return Err(ArchiveError::TooLarge);
            }
            total = total + nl + RECORD_FIXED_LEN;
            ts = ts + nl + RECORD_FIXED_LEN;
            if f.size > usize::MAX - total {
                return Err(ArchiveError::TooLarge);
            }
            total = total + f.size;
            i = i + 1;
        }
        proof {
            assert(items.skip(n as int) =~= Seq::<(Seq<u8>, Seq<u8>)>::empty());
        }
        let mut out: Vec<u8> = Vec::new();
        let magic: [u8; 16] = MAGIC;
        let mut k: usize = 0;
        while k < 16
            invariant
                k <= 16,
                magic@ == MAGIC@,
                out@ == MAGIC@.subrange(0, k as int),
            decreases 16 - k,
        {
            out.push(magic[k]);
            k = k + 1;
            assert(out@ =~= MAGIC@.subrange(0, k as int));
        }
        assert(MAGIC@.subrange(0, 16) =~= MAGIC@);
        push_u64(&mut out, n as u64);
        let ghost header = out@;
        let mut cur: usize = HEADER_LEN + ts;
        i = 0;
        while i < n
            invariant
                buf == self.file_data@,
                self@.key == a.key,
                self.files@.len() == n,
                a == old(self)@,
                es == a.entries,
                old(self).wf(),
                all_resolvable(buf, es),
                items == items_of(buf, es),
                n == es.len(),
                i <= n,
                forall|j: int| 0 <= j < i ==> #[trigger] self.files@[j]@ == laid_out(items)[j],
                forall|j: int| i <= j < n ==> #[trigger] self.files@[j]@ == es[j],
                cur == data_start(items) + len_before(items, i as int),
                len_before(items, i as int) <= len_before(items, n as int),
                image(items).len() == data_start(items) + len_before(items, n as int),
                image(items).len() <= usize::MAX,
                header == MAGIC@ + u64_le(n as u64),
                out@ + table_from(items.skip(i as int), cur as nat) == header + table_from(
                    items,
                    data_start(items),
                ),
            decreases n - i,
        {
            let mut e = EncFile {
                name: Vec::new(),
                size: 0,
                offset: 0,
                fdat: Vec::new(),
                location: StorageLocation::OwnMem,
            };
            self.files.set_and_swap(i, &mut e);
            proof {
                assert(e@ == es[i as int]);
                assert(entry_ok(es[i as int]));
                assert(resolvable(buf, es[i as int]));
                lemma_len_before_mono(items, i + 1, n as int);
            }
            match e.location {
                StorageLocation::DatFile => {
                    let dat = copy_range(&self.file_data, e.offset, e.size);
                    e.set_file_vec(dat);
                },
                StorageLocation::OwnMem => {},
            }
            e.offset = cur;
            let mut rec = e.serialize();
            proof {
                let rest = items.skip(i as int);
                assert(rest[0] == items[i as int]);
                assert(rest.drop_first() =~= items.skip(i + 1));
                assert(table_from(rest, cur as nat) == rec@ + table_from(
                    items.skip(i + 1),
                    (cur + e.size) as nat,
                ));
                assert(out@ + rec@ + table_from(items.skip(i + 1), (cur + e.size) as nat) =~= out@ + (
                rec@ + table_from(items.skip(i + 1), (cur + e.size) as nat)));
            }
            out.append(&mut rec);
            cur = cur + e.size;
            self.files.set_and_swap(i, &mut e);
            i = i + 1;
        }
        let ghost table_end = out@;
        proof {
            assert(items.skip(n as int) =~= Seq::<(Seq<u8>, Seq<u8>)>::empty());
            assert(views(self.files@) =~= laid_out(items));
            assert(items.take(0) =~= Seq::<(Seq<u8>, Seq<u8>)>::empty());
            assert(out@ =~= table_end + contents(items.take(0)));
        }
        i = 0;
        while i < n
            invariant
                views(self.files@) == laid_out(items),
                self.files@.len() == n,
                n == items.len(),
                i <= n,
                out@ == table_end + contents(items.take(i as int)),
            decreases n - i,
        {
            let f = &self.files[i];
            assert(views(self.files@)[i as int] == f@);
            match f.get_fdat() {
                Some(d) => push_all(&mut out, d),
                None => {},
            }
            proof {
                assert(items.take(i + 1).drop_last() =~= items.take(i as int));
                assert(out@ =~= table_end + contents(items.take(i + 1)));
            }
            i = i + 1;
        }
        proof {
            assert(items.take(n as int) =~= items);
            assert(self@ == saved(a));
        }
        Ok(out)
    }

    /// Opens an archive from what its encrypted bytes decrypt to, padding
    /// still in place: checks the magic constant, removes the padding and
    /// parses the table. A wrong key shows as a missing magic constant.
    pub fn from_decrypted(raw: Vec<u8>, aes_pass: [u8; 32]) -> (r: Result<Datafile, ArchiveError>)
        ensures
            match r {
                Ok(d) => {
                    &&& has_magic(raw@) && padding_ok(raw@)
                    &&& d@.buffer == unpadded(raw@)
                    &&& loaded(d@.buffer) == Some(d@.entries)
                    &&& d@.key == aes_pass@
                    &&& d.wf()
                },
                Err(ArchiveError::Format) => !has_magic(raw@) || (padding_ok(raw@) && loaded(
                    unpadded(raw@),
                ) is None),
                Err(ArchiveError::Cipher) => has_magic(raw@) && !padding_ok(raw@),
                Err(ArchiveError::TooLarge) => false,
            },
    {
        if !starts_with_magic(&raw) {
            return Err(ArchiveError::Format);
        }
        match strip_padding(raw) {
            Some(out) => Datafile::from_plaintext(out, aes_pass),
            None => Err(ArchiveError::Cipher),
        }
    }

    /// Opens an archive from its encrypted bytes: derives the key from the
    /// passphrase, decrypts, and goes on as `from_decrypted` does.
    pub fn checked_new(data: &Vec<u8>, aes_pass: String) -> (r: Result<Self, ArchiveError>)
        ensures
            match r {
                Ok(d) => {
                    let raw = aes_cbc_decrypt_raw_of(key_of(aes_pass@), IV@, data@);
                    &&& d.wf()
                    &&& d@.key == key_of(aes_pass@)
                    &&& has_magic(raw) && padding_ok(raw)
                    &&& d@.buffer == unpadded(raw)
                    &&& loaded(d@.buffer) == Some(d@.entries)
                },
                Err(ArchiveError::Format) => malformed(data@, aes_pass@),
                Err(e) => e == ArchiveError::Cipher,
            },
            data@.len() > CIPHER_MAX_INPUT ==> r == Err::<Datafile, ArchiveError>(ArchiveError::Cipher),
    {
        let pass = pass_to_hash(aes_pass);
        match decrypt_buffer(&pass, data) {
            Some(raw) => {
                let r = Datafile::from_decrypted(raw, pass);
                assert(pass@ == key_of(aes_pass@));
                r
            },
            None => Err(ArchiveError::Cipher),
        }
    }

    /// Replaces this archive by the one that `data` holds under `passwd`, as
    /// `checked_new` opens it. On failure nothing changes.
    pub fn load_new(&mut self, data: &Vec<u8>, passwd: String) -> (r: Result<(), ArchiveError>)
        requires
            old(self).wf(),
        ensures
            final(self).wf(),
            match r {
                Ok(()) => {
                    let raw = aes_cbc_decrypt_raw_of(key_of(passwd@), IV@, data@);
                    &&& final(self)@.key == key_of(passwd@)
                    &&& has_magic(raw) && padding_ok(raw)
                    &&& final(self)@.buffer == unpadded(raw)
                    &&& loaded(final(self)@.buffer) == Some(final(self)@.entries)
                },
                Err(e) => {
                    &&& final(self)@ == old(self)@
                    &&& (e == ArchiveError::Format ==> malformed(data@, passwd@))
                    &&& (e == ArchiveError::Format || e == ArchiveError::Cipher)
                },
            },
            data@.len() > CIPHER_MAX_INPUT ==> r == Err::<(), ArchiveError>(ArchiveError::Cipher),
    {
        match Datafile::checked_new(data, passwd) {
            Ok(d) => {
                *self = d;
                Ok(())
            },
            Err(e) => Err(e),
        }
    }

    /// The encrypted bytes of a new, empty archive under `aes_pass`.
    pub fn setup_new(aes_pass: String) -> (r: Result<Vec<u8>, ArchiveError>)
        ensures
            match r {
                Ok(c) => c@ == aes_cbc_encrypt_of(key_of(aes_pass@), IV@, image(Seq::empty())),
                Err(e) => e == ArchiveError::Cipher,
            },
    {
        let key = pass_to_hash(aes_pass);
        let mut df = Datafile::new(Vec::new(), key);
        proof {
            lemma_image_len(Seq::empty());
            assert(items_of(df@.buffer, df@.entries) =~= Seq::empty());
        }
        df.save()
    }

    /// Serializes the archive (see the layout in `format`) and encrypts it
    /// under the archive's key. Entries then hold their own content at their
    /// new offsets, also where only the cipher failed.
    pub fn save(&mut self) -> (r: Result<Vec<u8>, ArchiveError>)
        requires
            old(self).wf(),
        ensures
            final(self).wf(),
            match r {
                Ok(c) => {
                    &&& savable(old(self)@)
                    &&& final(self)@ == saved(old(self)@)
                    &&& c@ == aes_cbc_encrypt_of(old(self)@.key, IV@, serialized(old(self)@))
                },
                Err(ArchiveError::Cipher) => savable(old(self)@) && final(self)@ == saved(
                    old(self)@,
                ),
                Err(e) => save_error(old(self)@) == Some(e) && final(self)@ == old(self)@,
            },
            savable(old(self)@) && serialized(old(self)@).len() > CIPHER_MAX_INPUT ==> r
                == Err::<Vec<u8>, ArchiveError>(ArchiveError::Cipher),
    {
        let write_buffer = match self.get_file_content() {
            Ok(a) => a,
            Err(e) => return Err(e),
        };
        match encrypt_buffer(&self.aes_pass, &write_buffer) {
            Some(c) => Ok(c),
            None => Err(ArchiveError::Cipher),
        }
    }

    /// Appends an entry named `name` that holds `data`.
    pub fn add_file(&mut self, name: Vec<u8>, data: Vec<u8>)
        requires
            old(self).wf(),
            name@.len() > 0,
            name_ok(name@),
        ensures
            final(self).wf(),
            final(self)@ == (ArchiveView {
                entries: old(self)@.entries.push(new_entry(old(self)@.entries, name@, data@)),
                ..old(self)@
            }),
    {
        let n: usize = self.files.len();
        let last_bytes: usize = if n == 0 {
            0
        } else {
            let a = &self.files[n - 1];
            assert(a@ == self@.entries.last());
            a.offset.wrapping_add(a.size)
        };
        let fsize: usize = data.len();
        let f = EncFile::new(name, fsize, last_bytes, Some(&data));
        self.files.push(f);
        assert(self@.entries =~= old(self)@.entries.push(new_entry(old(self)@.entries, name@, data@)));
    }

    /// The number of entries.
    pub fn num_files(&self) -> (r: usize)
        ensures
            r == self@.entries.len(),
    {
        self.files.len()
    }

    /// The entries, in order.
    pub fn files(&self) -> (r: &Vec<EncFile>)
        ensures
            views(r@) == self@.entries,
    {
        &self.files
    }

    /// A copy of the decrypted buffer as last loaded.
    pub fn dump_self(&self) -> (r: Vec<u8>)
        ensures
            r@ == self@.buffer,
    {
        let r = copy_range(&self.file_data, 0, self.file_data.len());
        assert(r@ =~= self.file_data@);
        r
    }

    /// Replaces the key by the one `pass` stands for. Nothing is encrypted
    /// anew until the next save.
    pub fn update_pass(&mut self, pass: String)
        requires
            old(self).wf(),
        ensures
            final(self).wf(),
            final(self)@ == (ArchiveView { key: key_of(pass@), ..old(self)@ }),
    {
        self.aes_pass = pass_to_hash(pass);
    }

    /// The content of `file`: its own copy, or its slice of the buffer.
    pub fn save_to_file(&self, file: &EncFile) -> (r: Result<Vec<u8>, ArchiveError>)
        ensures
            match r {
                Ok(c) => resolvable(self@.buffer, file@) && c@ == content_of(self@.buffer, file@),
                Err(e) => e == ArchiveError::Format && !resolvable(self@.buffer, file@),
            },
    {
        match file.get_fdat() {
            Some(d) => {
                let c = copy_range(d, 0, d.len());
                assert(c@ =~= d@);
                Ok(c)
            },
            None => {
                let blen: usize = self.file_data.len();
                if file.offset > blen || file.size > blen - file.offset {
                    return Err(ArchiveError::Format);
                }
                Ok(copy_range(&self.file_data, file.offset, file.size))
            },
        }
    }

    /// Removes the first entry equal to `file` by name, offset and size.
    pub fn remove_file(&mut self, file: &EncFile)
        requires
            old(self).wf(),
            exists|i: int|
                0 <= i < old(self)@.entries.len() && same_entry(
                    #[trigger] old(self)@.entries[i],
                    file@,
                ),
        ensures
            final(self).wf(),
            final(self)@ == (ArchiveView {
                entries: old(self)@.entries.remove(first_match(old(self)@.entries, file@)),
                ..old(self)@
            }),
    {
        let ghost es = self@.entries;
        let n: usize = self.files.len();
        let mut index: usize = 0;
        while index < n && !entry_matches(&self.files[index], file)
            invariant
                self@ == old(self)@,
                es == self@.entries,
                n == es.len(),
                index <= n,
                forall|j: int| 0 <= j < index ==> !same_entry(#[trigger] es[j], file@),
                exists|i: int| 0 <= i < es.len() && same_entry(#[trigger] es[i], file@),
            decreases n - index,
        {
            assert(es[index as int] == self.files@[index as int]@);
            index = index + 1;
        }
        if index < n {
            assert(es[index as int] == self.files@[index as int]@);
        }
        proof {
            lemma_first_match(es, file@, index as int);
        }
        self.files.remove(index);
        assert(self@.entries =~= es.remove(index as int));
    }

    /// Removes the entry at `file_index`.
    pub fn remove_file_idx(&mut self, file_index: usize)
        requires
            old(self).wf(),
            file_index < old(self)@.entries.len(),
        ensures
            final(self).wf(),
            final(self)@ == (ArchiveView {
                entries: old(self)@.entries.remove(file_index as int),
                ..old(self)@
            }),
    {
        self.files.remove(file_index);
        assert(self@.entries =~= old(self)@.entries.remove(file_index as int));
    }

    /// Checks that a decrypted buffer begins with the magic constant and
    /// parses its table, keeping `aes_pass` as the archive's key.
    pub fn from_plaintext(plain: Vec<u8>, aes_pass: [u8; 32]) -> (r: Result<Datafile, ArchiveError>)
        ensures
            match r {
                Ok(d) => d.wf() && loaded(plain@) == Some(d@.entries) && d@.buffer == plain@
                    && d@.key == aes_pass@,
                Err(e) => e == ArchiveError::Format && loaded(plain@) is None,
            },
    {
        if !starts_with_magic(&plain) {
            return Err(ArchiveError::Format);
        }
        let mut df = Datafile::new(plain, aes_pass);
        match df.parse_filetable() {
            Ok(()) => {
                assert(df@.entries =~= Seq::<EntryView>::empty() + df@.entries);
                Ok(df)
            },
            Err(e) => Err(e),
        }
    }
}

} // verus!
