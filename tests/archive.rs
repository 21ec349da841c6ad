use fs2file::crypto::{decrypt_buffer, encrypt_buffer, pass_to_hash, strip_padding};
use fs2file::datafile::{ArchiveError, Datafile};
use fs2file::format::MAGIC;

fn open(bytes: &Vec<u8>, pass: &str) -> Datafile {
    Datafile::checked_new(bytes, pass.to_string()).expect("archive opens")
}

fn new_archive(pass: &str) -> Datafile {
    let ct = Datafile::setup_new(pass.to_string()).expect("encryption works");
    open(&ct, pass)
}

fn listing(d: &Datafile) -> Vec<(Vec<u8>, usize)> {
    d.files().iter().map(|f| (f.get_fname(), f.get_fsize())).collect()
}

fn plaintext_of(ct: &Vec<u8>, pass: &str) -> Vec<u8> {
    let key = pass_to_hash(pass.to_string());
    strip_padding(decrypt_buffer(&key, ct).unwrap()).unwrap()
}

fn le8(x: u64) -> Vec<u8> {
    x.to_le_bytes().to_vec()
}

#[test]
fn round_trip_two_entries() {
    let mut d = new_archive("secret");
    let bin: Vec<u8> = (0..=255u8).collect();
    d.add_file(b"a.txt".to_vec(), b"hello".to_vec());
    d.add_file(b"b.bin".to_vec(), bin.clone());
    let ct = d.save().unwrap();
    let d2 = open(&ct, "secret");
    assert_eq!(
        listing(&d2),
        vec![(b"a.txt".to_vec(), 5), (b"b.bin".to_vec(), 256)]
    );
    assert_eq!(d2.save_to_file(&d2.files()[0]).unwrap(), b"hello".to_vec());
    assert_eq!(d2.save_to_file(&d2.files()[1]).unwrap(), bin);
}

#[test]
fn wrong_passphrase_rejected() {
    let ct = Datafile::setup_new("right horse".to_string()).unwrap();
    for i in 0..100 {
        let wrong = format!("wrong-{}-{}", i, i * 7919);
        let r = Datafile::checked_new(&ct, wrong);
        assert!(matches!(r, Err(ArchiveError::Format)));
    }
    assert!(Datafile::checked_new(&ct, "right horse".to_string()).is_ok());
}

#[test]
fn empty_archive() {
    let ct = Datafile::setup_new("pw".to_string()).unwrap();
    let d = open(&ct, "pw");
    assert_eq!(d.num_files(), 0);
    assert!(d.files().is_empty());
    let plain = plaintext_of(&ct, "pw");
    assert_eq!(plain.len(), 24);
    assert_eq!(&plain[..16], &MAGIC[..]);
    assert_eq!(&plain[16..], &[0u8; 8][..]);
    assert_eq!(d.dump_self(), plain);
}

#[test]
fn add_then_remove_by_reference() {
    let mut d = new_archive("pw");
    d.add_file(b"one".to_vec(), b"111".to_vec());
    d.add_file(b"two".to_vec(), b"22".to_vec());
    let ct = d.save().unwrap();
    let mut d1 = open(&ct, "pw");
    let mut d2 = open(&ct, "pw");
    let before = listing(&d1);
    assert_eq!(d1.num_files(), 2);
    d1.add_file(b"three".to_vec(), b"3333".to_vec());
    d2.add_file(b"three".to_vec(), b"3333".to_vec());
    assert_eq!(d1.num_files(), 3);
    d1.remove_file(&d2.files()[2]);
    assert_eq!(d1.num_files(), 2);
    assert_eq!(listing(&d1), before);
}

#[test]
fn remove_by_reference_takes_first_match() {
    let mut d = new_archive("pw");
    d.add_file(b"x".to_vec(), b"abc".to_vec());
    d.add_file(b"y".to_vec(), b"de".to_vec());
    let ct = d.save().unwrap();
    let mut d1 = open(&ct, "pw");
    let d2 = open(&ct, "pw");
    d1.remove_file(&d2.files()[1]);
    assert_eq!(listing(&d1), vec![(b"x".to_vec(), 3)]);
}

#[test]
fn remove_by_index() {
    let mut d = new_archive("pw");
    d.add_file(b"a".to_vec(), b"1".to_vec());
    d.add_file(b"b".to_vec(), b"22".to_vec());
    d.add_file(b"c".to_vec(), b"333".to_vec());
    d.remove_file_idx(1);
    assert_eq!(listing(&d), vec![(b"a".to_vec(), 1), (b"c".to_vec(), 3)]);
}

#[test]
fn save_twice_is_identical() {
    let mut d = new_archive("pw");
    d.add_file(b"a.txt".to_vec(), b"hello".to_vec());
    let ct = d.save().unwrap();
    let mut d2 = open(&ct, "pw");
    d2.add_file(b"z".to_vec(), vec![9u8; 40]);
    let first = d2.save().unwrap();
    let second = d2.save().unwrap();
    assert_eq!(first, second);
}

#[test]
fn name_boundary_lengths() {
    let mut d = new_archive("pw");
    let long: Vec<u8> = (0..255).map(|i| b'a' + (i % 26) as u8).collect();
    d.add_file(vec![b'q'], b"short".to_vec());
    d.add_file(long.clone(), b"long one".to_vec());
    d.add_file(b"after".to_vec(), b"tail".to_vec());
    let ct = d.save().unwrap();
    let d2 = open(&ct, "pw");
    assert_eq!(
        listing(&d2),
        vec![(vec![b'q'], 5), (long, 8), (b"after".to_vec(), 4)]
    );
    assert_eq!(d2.save_to_file(&d2.files()[0]).unwrap(), b"short".to_vec());
    assert_eq!(d2.save_to_file(&d2.files()[1]).unwrap(), b"long one".to_vec());
    assert_eq!(d2.save_to_file(&d2.files()[2]).unwrap(), b"tail".to_vec());
}

#[test]
fn serialized_layout_is_exact() {
    let mut d = new_archive("pw");
    d.add_file(b"a".to_vec(), b"xy".to_vec());
    d.add_file(b"bc".to_vec(), b"z".to_vec());
    let ct = d.save().unwrap();
    let plain = plaintext_of(&ct, "pw");
    let mut want: Vec<u8> = MAGIC.to_vec();
    want.extend(le8(2));
    // table: 24 + (1 + 17) + (2 + 17) = 61
    want.extend(b"a\0");
    want.extend(le8(2));
    want.extend(le8(61));
    want.extend(b"bc\0");
    want.extend(le8(1));
    want.extend(le8(63));
    want.extend(b"xyz");
    assert_eq!(plain, want);
    assert_eq!(d.files()[0].get_foffset(), 61);
    assert_eq!(d.files()[1].get_foffset(), 63);
}

#[test]
fn added_entry_offset_follows_last() {
    let mut d = new_archive("pw");
    d.add_file(b"a".to_vec(), b"12345".to_vec());
    assert_eq!(d.files()[0].get_foffset(), 0);
    d.add_file(b"b".to_vec(), b"67".to_vec());
    assert_eq!(d.files()[1].get_foffset(), 5);
    assert_eq!(d.files()[1].get_fsize(), 2);
}

#[test]
fn count_reads_low_four_bytes() {
    let mut plain: Vec<u8> = MAGIC.to_vec();
    plain.extend([0, 0, 0, 0, 0xff, 0xff, 0xff, 0xff]);
    let d = Datafile::from_plaintext(plain, [0u8; 32]).unwrap();
    assert_eq!(d.num_files(), 0);
}

#[test]
fn short_header_with_zero_count_loads() {
    let mut plain: Vec<u8> = MAGIC.to_vec();
    plain.extend([0, 0, 0, 0]);
    let d = Datafile::from_plaintext(plain, [0u8; 32]).unwrap();
    assert_eq!(d.num_files(), 0);
}

#[test]
fn missing_magic_is_format_error() {
    let mut plain: Vec<u8> = MAGIC.to_vec();
    plain[3] ^= 1;
    plain.extend(le8(0));
    assert!(matches!(
        Datafile::from_plaintext(plain, [0u8; 32]),
        Err(ArchiveError::Format)
    ));
    assert!(matches!(
        Datafile::from_plaintext(vec![1, 2, 3], [0u8; 32]),
        Err(ArchiveError::Format)
    ));
}

#[test]
fn truncated_table_is_format_error() {
    let mut plain: Vec<u8> = MAGIC.to_vec();
    plain.extend(le8(1));
    plain.extend(b"name-without-terminator");
    assert!(matches!(
        Datafile::from_plaintext(plain, [0u8; 32]),
        Err(ArchiveError::Format)
    ));
    let mut plain2: Vec<u8> = MAGIC.to_vec();
    plain2.extend(le8(1));
    plain2.extend(b"n\0");
    plain2.extend(le8(3));
    assert!(matches!(
        Datafile::from_plaintext(plain2, [0u8; 32]),
        Err(ArchiveError::Format)
    ));
}

#[test]
fn parsed_entries_stay_in_buffer() {
    let mut plain: Vec<u8> = MAGIC.to_vec();
    plain.extend(le8(1));
    plain.extend(b"f\0");
    plain.extend(le8(3));
    plain.extend(le8(42));
    plain.extend(b"abc");
    let d = Datafile::from_plaintext(plain, [0u8; 32]).unwrap();
    assert_eq!(listing(&d), vec![(b"f".to_vec(), 3)]);
    assert_eq!(d.files()[0].get_foffset(), 42);
    assert_eq!(d.save_to_file(&d.files()[0]).unwrap(), b"abc".to_vec());
}

#[test]
fn entry_outside_buffer_fails_save_and_fetch() {
    let mut plain: Vec<u8> = MAGIC.to_vec();
    plain.extend(le8(1));
    plain.extend(b"f\0");
    plain.extend(le8(10));
    plain.extend(le8(1000));
    let mut d = Datafile::from_plaintext(plain, [7u8; 32]).unwrap();
    assert!(matches!(d.save_to_file(&d.files()[0]), Err(ArchiveError::Format)));
    assert!(matches!(d.save(), Err(ArchiveError::Format)));
    assert_eq!(d.files()[0].get_foffset(), 1000);
}

#[test]
fn bad_ciphertext_length_is_cipher_error() {
    let ct = Datafile::setup_new("pw".to_string()).unwrap();
    let mut cut = ct.clone();
    cut.pop();
    assert!(matches!(
        Datafile::checked_new(&cut, "pw".to_string()),
        Err(ArchiveError::Cipher)
    ));
}

#[test]
fn update_pass_takes_effect_on_save() {
    let mut d = new_archive("old");
    d.add_file(b"k".to_vec(), b"v".to_vec());
    d.update_pass("new".to_string());
    let ct = d.save().unwrap();
    assert!(matches!(
        Datafile::checked_new(&ct, "old".to_string()),
        Err(ArchiveError::Format)
    ));
    let d2 = open(&ct, "new");
    assert_eq!(listing(&d2), vec![(b"k".to_vec(), 1)]);
}

#[test]
fn load_new_replaces_or_keeps() {
    let mut a = new_archive("pa");
    a.add_file(b"in-a".to_vec(), b"A".to_vec());
    let mut b = new_archive("pb");
    b.add_file(b"in-b".to_vec(), b"BB".to_vec());
    let ct_b = b.save().unwrap();
    assert!(matches!(a.load_new(&ct_b, "nope".to_string()), Err(ArchiveError::Format)));
    assert_eq!(listing(&a), vec![(b"in-a".to_vec(), 1)]);
    a.load_new(&ct_b, "pb".to_string()).unwrap();
    assert_eq!(listing(&a), vec![(b"in-b".to_vec(), 2)]);
}

#[test]
fn key_is_sha256_of_passphrase() {
    let k = pass_to_hash("abc".to_string());
    let want: [u8; 32] = [
        0xba, 0x78, 0x16, 0xbf, 0x8f, 0x01, 0xcf, 0xea, 0x41, 0x41, 0x40, 0xde, 0x5d, 0xae, 0x22,
        0x23, 0xb0, 0x03, 0x61, 0xa3, 0x96, 0x17, 0x7a, 0x9c, 0xb4, 0x10, 0xff, 0x61, 0xf2, 0x00,
        0x15, 0xad,
    ];
    assert_eq!(k, want);
}

#[test]
fn cipher_round_trip_and_padding() {
    let key = pass_to_hash("k".to_string());
    let plain = b"sixteen byte msg".to_vec();
    let ct = encrypt_buffer(&key, &plain).unwrap();
    assert_eq!(ct.len(), 32);
    assert_ne!(&ct[..16], &plain[..]);
    let raw = decrypt_buffer(&key, &ct).unwrap();
    assert_eq!(raw.len(), 32);
    assert_eq!(&raw[16..], &[16u8; 16][..]);
    assert_eq!(strip_padding(raw).unwrap(), plain);
}

#[test]
fn strip_padding_rejects_malformed() {
    assert_eq!(strip_padding(vec![1, 2, 3, 2, 2]), Some(vec![1, 2, 3]));
    assert_eq!(strip_padding(vec![1, 2, 3, 1, 2]), None);
    assert_eq!(strip_padding(vec![5, 0]), None);
    assert_eq!(strip_padding(vec![]), None);
    assert_eq!(strip_padding(vec![17; 17]), None);
}

#[test]
fn from_decrypted_checks_magic_then_padding() {
    let mut good: Vec<u8> = MAGIC.to_vec();
    good.extend(le8(0));
    good.extend([8u8; 8]);
    let d = Datafile::from_decrypted(good.clone(), [1u8; 32]).unwrap();
    assert_eq!(d.num_files(), 0);
    assert_eq!(d.dump_self().len(), 24);

    let mut bad_pad = good.clone();
    let last = bad_pad.len() - 1;
    bad_pad[last] = 0;
    assert!(matches!(
        Datafile::from_decrypted(bad_pad, [1u8; 32]),
        Err(ArchiveError::Cipher)
    ));

    let mut no_magic = good.clone();
    no_magic[0] ^= 0xff;
    no_magic[23] = 0;
    assert!(matches!(
        Datafile::from_decrypted(no_magic, [1u8; 32]),
        Err(ArchiveError::Format)
    ));

    let mut bad_table: Vec<u8> = MAGIC.to_vec();
    bad_table.extend(le8(1));
    bad_table.extend([8u8; 8]);
    assert!(matches!(
        Datafile::from_decrypted(bad_table, [1u8; 32]),
        Err(ArchiveError::Format)
    ));
}
