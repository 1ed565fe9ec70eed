use const_sorted_lut::const_i64;
use core::cmp::Ordering;
use const_sorted_lut::const_str::{ConstCmp, ConstSortedLut, LutEntry};
use const_sorted_lut::const_u64;

fn entry(k: &'static str, v: u32) -> LutEntry<u32> {
    LutEntry {
        key: ConstCmp(k),
        value: v,
    }
}

#[test]
fn round_trip_any_order() {
    let forward: ConstSortedLut<u32, 4> =
        ConstSortedLut::new([entry("b", 1), entry("a", 0), entry("d", 3), entry("c", 2)]);
    let backward: ConstSortedLut<u32, 4> =
        ConstSortedLut::new([entry("d", 3), entry("c", 2), entry("b", 1), entry("a", 0)]);
    for (k, v) in [("a", 0), ("b", 1), ("c", 2), ("d", 3)] {
        assert_eq!(*forward.get(k).unwrap(), v);
        assert_eq!(*backward.get(k).unwrap(), v);
    }
}

#[test]
fn absent_key_not_found() {
    let lut: ConstSortedLut<u32, 3> =
        ConstSortedLut::new([entry("one", 1), entry("two", 2), entry("three", 3)]);
    assert!(lut.get("four").is_none());
    assert!(lut.get("").is_none());
    assert!(lut.get("on").is_none());
    assert!(lut.get("ones").is_none());
}

#[test]
fn duplicate_keys_rejected() {
    let dup: Option<ConstSortedLut<u32, 3>> =
        ConstSortedLut::try_new([entry("x", 0), entry("y", 1), entry("x", 2)]);
    assert!(dup.is_none());
    let adjacent_dup: Option<ConstSortedLut<u32, 2>> =
        ConstSortedLut::try_new([entry("same", 7), entry("same", 7)]);
    assert!(adjacent_dup.is_none());
}

#[test]
fn try_new_accepts_distinct_keys() {
    let lut: Option<ConstSortedLut<u32, 2>> =
        ConstSortedLut::try_new([entry("right", 1), entry("left", 0)]);
    let lut = lut.unwrap();
    assert_eq!(*lut.get("left").unwrap(), 0);
    assert_eq!(*lut.get("right").unwrap(), 1);
}

#[test]
fn strict_prefix_orders_before() {
    // One key a strict prefix of another: a valid build, not a duplicate.
    let lut: ConstSortedLut<u32, 3> =
        ConstSortedLut::new([entry("abc", 2), entry("ab", 1), entry("abcd", 3)]);
    assert_eq!(*lut.get("ab").unwrap(), 1);
    assert_eq!(*lut.get("abc").unwrap(), 2);
    assert_eq!(*lut.get("abcd").unwrap(), 3);
    assert!(lut.get("a").is_none());
}

#[test]
fn wrapper_and_view_lookups_agree() {
    let lut: ConstSortedLut<u32, 3> =
        ConstSortedLut::new([entry("k1", 10), entry("k2", 20), entry("k3", 30)]);
    for k in ["k1", "k2", "k3", "k4", ""] {
        assert_eq!(lut.get(k), lut.get_key(&ConstCmp(k)));
    }
}

#[test]
fn single_entry_table() {
    let lut: ConstSortedLut<u32, 1> = ConstSortedLut::new([entry("only", 42)]);
    assert_eq!(*lut.get("only").unwrap(), 42);
    assert!(lut.get("other").is_none());
}

#[test]
fn u64_keys() {
    let lut: const_u64::ConstSortedLut<&'static str, 3> = const_u64::ConstSortedLut::new([
        const_u64::LutEntry {
            key: const_u64::ConstCmp(99),
            value: "big",
        },
        const_u64::LutEntry {
            key: const_u64::ConstCmp(0),
            value: "zero",
        },
        const_u64::LutEntry {
            key: const_u64::ConstCmp(7),
            value: "seven",
        },
    ]);
    assert_eq!(*lut.get(&0).unwrap(), "zero");
    assert_eq!(*lut.get(&7).unwrap(), "seven");
    assert_eq!(*lut.get(&99).unwrap(), "big");
    assert!(lut.get(&1).is_none());
    let dup: Option<const_u64::ConstSortedLut<&'static str, 2>> = const_u64::ConstSortedLut::try_new([
        const_u64::LutEntry {
            key: const_u64::ConstCmp(5),
            value: "a",
        },
        const_u64::LutEntry {
            key: const_u64::ConstCmp(5),
            value: "b",
        },
    ]);
    assert!(dup.is_none());
}

#[test]
fn i64_keys() {
    let lut: const_i64::ConstSortedLut<u32, 3> = const_i64::ConstSortedLut::new([
        const_i64::LutEntry {
            key: const_i64::ConstCmp(10),
            value: 2,
        },
        const_i64::LutEntry {
            key: const_i64::ConstCmp(-10),
            value: 0,
        },
        const_i64::LutEntry {
            key: const_i64::ConstCmp(0),
            value: 1,
        },
    ]);
    assert_eq!(*lut.get(&-10).unwrap(), 0);
    assert_eq!(*lut.get(&0).unwrap(), 1);
    assert_eq!(*lut.get(&10).unwrap(), 2);
    assert!(lut.get(&-1).is_none());
    assert_eq!(lut.get(&-10), lut.get_key(&const_i64::ConstCmp(-10)));
}

#[test]
fn order_normalization() {
    // The same logical key/value set, fed in three different orders, yields
    // tables that answer every query identically.
    let t1: ConstSortedLut<u32, 3> =
        ConstSortedLut::new([entry("m", 0), entry("z", 1), entry("a", 2)]);
    let t2: ConstSortedLut<u32, 3> =
        ConstSortedLut::new([entry("z", 1), entry("a", 2), entry("m", 0)]);
    let t3: ConstSortedLut<u32, 3> =
        ConstSortedLut::new([entry("a", 2), entry("m", 0), entry("z", 1)]);
    for k in ["a", "m", "z", "b", "zz", ""] {
        assert_eq!(t1.get(k), t2.get(k));
        assert_eq!(t2.get(k), t3.get(k));
    }
}

#[test]
fn const_cmp_three_way() {
    assert_eq!(ConstCmp("ab").const_cmp(&ConstCmp("abc")), Ordering::Less);
    assert_eq!(ConstCmp("abc").const_cmp(&ConstCmp("ab")), Ordering::Greater);
    assert_eq!(ConstCmp("abc").const_cmp(&ConstCmp("abc")), Ordering::Equal);
    assert_eq!(ConstCmp("abd").const_cmp(&ConstCmp("abc")), Ordering::Greater);
    assert_eq!(ConstCmp("").const_cmp(&ConstCmp("a")), Ordering::Less);
    assert_eq!(ConstCmp("").const_cmp(&ConstCmp("")), Ordering::Equal);
    assert_eq!(
        const_u64::ConstCmp(3).const_cmp(&const_u64::ConstCmp(4)),
        Ordering::Less
    );
    assert_eq!(
        const_i64::ConstCmp(-3).const_cmp(&const_i64::ConstCmp(-4)),
        Ordering::Greater
    );
}
