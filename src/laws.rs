//! Properties that relate several archive operations.
use vstd::prelude::*;
use crate::crypto::{aes_cbc_encrypt_of, IV};
use crate::format::{image, lemma_parse_image, name_ok, records_of};
use crate::datafile::{
    all_resolvable, archive_ok, content_of, entries_of, entry_ok, first_match, items_of, loaded, new_entry, records_fit, resolvable, same_entry, savable, saved,
    serialized, ArchiveView, EntryView,
};

verus! {

/// Saving and loading back: the plaintext that a save writes loads again,
/// and the loaded archive has the same names, sizes and contents, in order.
/// (Readers look at the low four bytes of the entry count, hence the bound.)
pub proof fn lemma_save_load_round_trip(a: ArchiveView)
    requires
        archive_ok(a),
        savable(a),
        a.entries.len() < 0x1_0000_0000,
    ensures
        loaded(serialized(a)) is Some,
        archive_ok(ArchiveView { buffer: serialized(a), key: a.key, entries: loaded(serialized(a))->0 }),
        all_resolvable(serialized(a), loaded(serialized(a))->0),
        items_of(serialized(a), loaded(serialized(a))->0) == items_of(a.buffer, a.entries),
{
    let items = items_of(a.buffer, a.entries);
    let img = serialized(a);
    assert forall|j: int| 0 <= j < items.len() implies name_ok(#[trigger] items[j].0) by {
        assert(entry_ok(a.entries[j]));
    }
    lemma_parse_image(items);
    let recs = records_of(items);
    assert(records_fit(recs)) by {
        assert forall|j: int| 0 <= j < recs.len() implies #[trigger] recs[j].1 <= usize::MAX
            && recs[j].2 <= usize::MAX by {
            assert(recs[j] == records_of(items)[j]);
        }
    }
    let es2 = entries_of(recs);
    assert(loaded(img) == Some(es2));
    assert forall|j: int| 0 <= j < es2.len() implies resolvable(img, #[trigger] es2[j]) by {
        assert(recs[j] == records_of(items)[j]);
    }
    assert forall|j: int| 0 <= j < es2.len() implies entry_ok(#[trigger] es2[j]) by {
        assert(items[j].0 == a.entries[j].name);
        assert(entry_ok(a.entries[j]));
    }
    assert forall|j: int| 0 <= j < es2.len() implies #[trigger] items_of(img, es2)[j] == items[j] by {
        assert(recs[j] == records_of(items)[j]);
        assert(content_of(img, es2[j]) == items[j].1);
    }
    assert(items_of(img, es2) =~= items);
}

/// A new archive's plaintext is the magic constant and a zero count, 24
/// bytes in all, and it loads with no entries.
pub proof fn lemma_empty_archive()
    ensures
        image(Seq::empty()).len() == 24,
        loaded(image(Seq::empty())) == Some(Seq::<EntryView>::empty()),
{
    let items = Seq::<(Seq<u8>, Seq<u8>)>::empty();
    lemma_parse_image(items);
    assert(entries_of(records_of(items)) =~= Seq::<EntryView>::empty());
}

/// Adding an entry and then removing it by reference gives back the entries
/// as they were, when no earlier entry equals the new one by name, offset
/// and size.
pub proof fn lemma_add_remove(es: Seq<EntryView>, name: Seq<u8>, data: Seq<u8>)
    requires
        forall|j: int| 0 <= j < es.len() ==> !same_entry(#[trigger] es[j], new_entry(es, name, data)),
    ensures
        first_match(es.push(new_entry(es, name, data)), new_entry(es, name, data)) == es.len(),
        es.push(new_entry(es, name, data)).remove(es.len() as int) == es,
{
    let e = new_entry(es, name, data);
    let added = es.push(e);
    assert forall|j: int| 0 <= j < es.len() implies !same_entry(#[trigger] added[j], e) by {
        assert(added[j] == es[j]);
    }
    lemma_first_match_after(added, e, 0);
    assert(added.subrange(0, added.len() as int) =~= added);
    assert(added.remove(es.len() as int) =~= es);
}

proof fn lemma_first_match_after(es: Seq<EntryView>, e: EntryView, i: int)
    requires
        0 <= i < es.len(),
        same_entry(es.last(), e),
        forall|j: int| 0 <= j < es.len() - 1 ==> !same_entry(#[trigger] es[j], e),
    ensures
        first_match(es.subrange(i, es.len() as int), e) == es.len() - 1 - i,
    decreases es.len() - i,
{
    let s = es.subrange(i, es.len() as int);
    if i < es.len() - 1 {
        assert(s[0] == es[i]);
        assert(s.drop_first() =~= es.subrange(i + 1, es.len() as int));
        lemma_first_match_after(es, e, i + 1);
    } else {
        assert(s[0] == es.last());
    }
    if i == 0 {
        assert(s =~= es);
    }
}

/// Saving twice in a row writes the same bytes both times: the second save
/// serializes the same plaintext under the same key, and leaves the
/// entries as the first save left them.
pub proof fn lemma_save_idempotent(a: ArchiveView)
    requires
        archive_ok(a),
        savable(a),
    ensures
        archive_ok(saved(a)),
        savable(saved(a)),
        serialized(saved(a)) == serialized(a),
        saved(saved(a)) == saved(a),
        aes_cbc_encrypt_of(saved(a).key, IV@, serialized(saved(a))) == aes_cbc_encrypt_of(
            a.key,
            IV@,
            serialized(a),
        ),
{
    let items = items_of(a.buffer, a.entries);
    let b = saved(a);
    assert(items_of(b.buffer, b.entries) =~= items);
    assert forall|j: int| 0 <= j < b.entries.len() implies entry_ok(#[trigger] b.entries[j]) by {
        assert(entry_ok(a.entries[j]));
    }
    assert(saved(b) =~= b) by {
        assert(saved(b).entries =~= b.entries);
    }
}

} // verus!
