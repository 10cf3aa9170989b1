use storage_engine::slotted_page::{SlotId, SlottedPage};
use storage_engine::PAGE_SIZE;

fn fresh() -> SlottedPage {
    SlottedPage::init([0u8; PAGE_SIZE])
}

fn live(sp: &SlottedPage) -> Vec<(u16, Vec<u8>)> {
    let mut out = Vec::new();
    let mut it = sp.iter();
    while let Some((id, data)) = it.next() {
        out.push((id.0, data.to_vec()));
    }
    out
}

#[test]
fn init_writes_header() {
    let sp = SlottedPage::init([7u8; PAGE_SIZE]);
    assert_eq!(sp.free_start(), 6);
    assert_eq!(sp.free_end(), 4096);
    assert_eq!(sp.num_slots(), 0);
    assert_eq!(&sp.as_bytes()[..6], &[6, 0, 0, 16, 0, 0]);
    assert_eq!(sp.as_bytes()[6], 7);
    assert!(SlottedPage::is_well_formed(sp.as_bytes()));
}

#[test]
fn basic_insert_read() {
    let mut sp = fresh();
    let a = sp.insert(b"hello world").unwrap();
    let b = sp.insert(b"database systems are fun").unwrap();
    assert_eq!(a, SlotId(0));
    assert_eq!(b, SlotId(1));
    assert_eq!(sp.read(a).unwrap(), b"hello world");
    assert_eq!(sp.read(b).unwrap(), b"database systems are fun");
    assert_eq!(sp.free_start(), 41);
    assert_eq!(sp.free_end(), 4088);
    assert_eq!(sp.num_slots(), 2);
    // slot 0's entry: offset 6, length 11, little-endian at 4092..4096
    assert_eq!(&sp.as_bytes()[4092..4096], &[6, 0, 11, 0]);
    assert_eq!(&sp.as_bytes()[4088..4092], &[17, 0, 24, 0]);
}

#[test]
fn delete_and_iterate() {
    let mut sp = fresh();
    sp.insert(b"hello world").unwrap();
    sp.insert(b"database systems are fun").unwrap();
    let c = sp.insert(b"another tuple").unwrap();
    assert_eq!(c, SlotId(2));
    assert!(sp.delete(SlotId(1)));
    assert_eq!(
        live(&sp),
        vec![(0, b"hello world".to_vec()), (2, b"another tuple".to_vec())]
    );
    assert_eq!(sp.num_slots(), 3);
    assert_eq!(sp.read(SlotId(1)), None);
}

#[test]
fn update_requiring_compaction() {
    let mut sp = fresh();
    let a = sp.insert(b"short").unwrap();
    assert_eq!(a, SlotId(0));
    assert!(sp.update(a, b"this is much longer than short"));
    assert_eq!(sp.read(a).unwrap(), b"this is much longer than short");
    sp.compact();
    assert_eq!(sp.free_start(), 36);
    assert_eq!(&sp.as_bytes()[6..36], b"this is much longer than short");
    assert_eq!(&sp.as_bytes()[4092..4096], &[6, 0, 30, 0]);
    assert_eq!(sp.read(a).unwrap(), b"this is much longer than short");
}

#[test]
fn zero_length_payload_is_present() {
    let mut sp = fresh();
    let a = sp.insert(b"").unwrap();
    assert_eq!(sp.read(a), Some(&b""[..]));
    assert_eq!(sp.free_start(), 6);
    assert_eq!(sp.free_end(), 4092);
    assert_eq!(sp.read(SlotId(1)), None);
}

#[test]
fn largest_payload_fits_fresh_page() {
    let mut sp = fresh();
    let big = vec![0xABu8; 4086];
    let a = sp.insert(&big).unwrap();
    assert_eq!(sp.read(a).unwrap(), &big[..]);
    assert_eq!(sp.free_start(), sp.free_end());
    assert_eq!(sp.largest_contiguous_free(), 0);
    assert_eq!(sp.insert(b""), None);
}

#[test]
fn too_large_payload_fails() {
    let mut sp = fresh();
    let big = vec![1u8; 4087];
    assert_eq!(sp.insert(&big), None);
    assert_eq!(sp.num_slots(), 0);
    assert_eq!(sp.free_start(), 6);
}

#[test]
fn shrinking_update_is_in_place() {
    let mut sp = fresh();
    let a = sp.insert(b"abcdefgh").unwrap();
    sp.insert(b"xyz").unwrap();
    let before = sp.free_start();
    assert!(sp.update(a, b"AB"));
    assert_eq!(sp.free_start(), before);
    assert_eq!(sp.read(a).unwrap(), b"AB");
    assert_eq!(&sp.as_bytes()[4092..4096], &[6, 0, 2, 0]);
    assert_eq!(sp.read(SlotId(1)).unwrap(), b"xyz");
}

#[test]
fn growing_update_without_compaction_appends() {
    let mut sp = fresh();
    let a = sp.insert(b"ab").unwrap();
    assert!(sp.update(a, b"abcd"));
    assert_eq!(sp.free_start(), 12);
    assert_eq!(&sp.as_bytes()[4092..4096], &[8, 0, 4, 0]);
}

#[test]
fn growing_update_after_compaction() {
    let mut sp = fresh();
    // fill the page: two 2000-byte tuples and one small one
    let a = sp.insert(&vec![1u8; 2000]).unwrap();
    let b = sp.insert(&vec![2u8; 2000]).unwrap();
    let c = sp.insert(b"tail").unwrap();
    assert!(sp.delete(a));
    // 4096 - 12 - 2010 = 74 free bytes; 100 does not fit without compaction
    assert_eq!(sp.largest_contiguous_free(), 74);
    let newer = vec![9u8; 100];
    assert!(sp.update(c, &newer));
    // compaction moved b to 6 and c to 2006; the new copy went to 2010
    assert_eq!(sp.free_start(), 2010 + 100);
    assert_eq!(sp.read(c).unwrap(), &newer[..]);
    assert_eq!(sp.read(b).unwrap(), &vec![2u8; 2000][..]);
    assert_eq!(sp.read(a), None);
}

#[test]
fn growing_update_that_cannot_fit_fails() {
    let mut sp = fresh();
    let a = sp.insert(&vec![1u8; 4000]).unwrap();
    assert!(!sp.update(a, &vec![2u8; 4087]));
    assert_eq!(sp.read(a).unwrap(), &vec![1u8; 4000][..]);
}

#[test]
fn update_of_deleted_or_missing_slot_fails() {
    let mut sp = fresh();
    let a = sp.insert(b"x").unwrap();
    assert!(sp.delete(a));
    assert!(!sp.update(a, b"y"));
    assert!(!sp.update(SlotId(5), b"y"));
}

#[test]
fn double_delete_returns_false() {
    let mut sp = fresh();
    let a = sp.insert(b"gone").unwrap();
    assert!(sp.delete(a));
    assert!(!sp.delete(a));
    assert!(!sp.delete(SlotId(9)));
    assert!(!sp.delete(SlotId(0xFFFF)));
}

#[test]
fn compact_keeps_live_tuples_and_ids() {
    let mut sp = fresh();
    sp.insert(b"one").unwrap();
    sp.insert(b"two").unwrap();
    sp.insert(b"three").unwrap();
    sp.insert(b"four").unwrap();
    assert!(sp.delete(SlotId(1)));
    assert!(sp.update(SlotId(0), b"ONE!!"));
    let before = live(&sp);
    sp.compact();
    assert_eq!(live(&sp), before);
    assert_eq!(sp.num_slots(), 4);
    assert_eq!(sp.free_end(), 4096 - 16);
    // live bytes: 5 + 5 + 4, laid out from 6 in offset order: three, four, ONE!!
    assert_eq!(sp.free_start(), 6 + 14);
    assert_eq!(&sp.as_bytes()[6..20], b"threefourONE!!");
}

#[test]
fn compact_twice_same_image() {
    let mut sp = fresh();
    sp.insert(b"alpha").unwrap();
    sp.insert(b"beta").unwrap();
    sp.insert(b"gamma").unwrap();
    assert!(sp.delete(SlotId(1)));
    sp.compact();
    let once = *sp.as_bytes();
    sp.compact();
    assert_eq!(&once[..], &sp.as_bytes()[..]);
}

#[test]
fn untouched_slot_survives_other_operations() {
    let mut sp = fresh();
    let keep = sp.insert(b"keep me").unwrap();
    let other = sp.insert(b"other").unwrap();
    sp.insert(b"third").unwrap();
    assert!(sp.update(other, b"a longer replacement"));
    assert!(sp.delete(SlotId(2)));
    sp.compact();
    sp.insert(b"more").unwrap();
    assert_eq!(sp.read(keep).unwrap(), b"keep me");
}

#[test]
fn from_buffer_reads_existing_page() {
    let mut sp = fresh();
    sp.insert(b"persisted").unwrap();
    let buf = sp.into_buffer();
    let again = SlottedPage::from_buffer(buf);
    assert_eq!(again.read(SlotId(0)).unwrap(), b"persisted");
}

#[test]
fn malformed_buffer_is_detected() {
    assert!(!SlottedPage::is_well_formed(&[0u8; PAGE_SIZE]));
    let mut sp = fresh();
    sp.insert(b"abc").unwrap();
    let mut buf = sp.into_buffer();
    // point slot 0 past free_start
    buf[4092] = 200;
    assert!(!SlottedPage::is_well_formed(&buf));
}
