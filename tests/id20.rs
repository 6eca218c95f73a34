use dht::{Id20, InvalidLength};
use std::cmp::Ordering;

fn id_ending_in(last: u8) -> Id20 {
    let mut b = [0u8; 20];
    b[19] = last;
    Id20(b)
}

fn sample(seed: u8) -> Id20 {
    let mut b = [0u8; 20];
    for (i, x) in b.iter_mut().enumerate() {
        *x = seed.wrapping_mul(31).wrapping_add((i as u8).wrapping_mul(17));
    }
    Id20(b)
}

#[test]
fn distance_scenario() {
    let a = id_ending_in(0x01);
    let b = id_ending_in(0x03);
    let d = a.distance(&b);
    assert_eq!(d.0, id_ending_in(0x02).0);
    assert_eq!(a.compare(&b), Ordering::Less);
    assert_eq!(b.compare(&a), Ordering::Greater);
}

#[test]
fn distance_exact_bytes() {
    let mut x = [0u8; 20];
    let mut y = [0u8; 20];
    x[0] = 0xf0;
    y[0] = 0x3c;
    x[10] = 0xaa;
    y[10] = 0x55;
    let d = Id20(x).distance(&Id20(y));
    let mut expected = [0u8; 20];
    expected[0] = 0xcc;
    expected[10] = 0xff;
    assert_eq!(d.0, expected);
}

#[test]
fn distance_is_symmetric() {
    let a = sample(3);
    let b = sample(200);
    assert_eq!(a.distance(&b).0, b.distance(&a).0);
}

#[test]
fn distance_to_self_is_zero() {
    let a = sample(77);
    assert_eq!(a.distance(&a).0, [0u8; 20]);
}

#[test]
fn distances_compose_by_xor() {
    let a = sample(1);
    let b = sample(2);
    let c = sample(9);
    let ab = a.distance(&b);
    let bc = b.distance(&c);
    assert_eq!(ab.distance(&bc).0, a.distance(&c).0);
}

#[test]
fn compare_with_self_is_equal() {
    let a = sample(42);
    assert_eq!(a.compare(&a), Ordering::Equal);
    assert_eq!(a.partial_cmp(&a), Some(Ordering::Equal));
}

#[test]
fn compare_is_antisymmetric() {
    let pairs = [(sample(1), sample(2)), (sample(5), sample(5)), (id_ending_in(9), sample(0))];
    for (a, b) in pairs.iter() {
        assert_eq!(a.compare(b), b.compare(a).reverse());
        assert_eq!(a.compare(b) == Ordering::Equal, a == b);
    }
}

#[test]
fn compare_is_unsigned_big_endian() {
    let mut hi = [0u8; 20];
    hi[0] = 0x80;
    let mut lo = [0xffu8; 20];
    lo[0] = 0x7f;
    assert_eq!(Id20(hi).compare(&Id20(lo)), Ordering::Greater);
    assert!(Id20(lo) < Id20(hi));
    assert_eq!(Id20(lo).cmp(&Id20(hi)), Ordering::Less);
}

#[test]
fn compare_is_transitive() {
    let a = id_ending_in(1);
    let b = id_ending_in(2);
    let mut c_bytes = [0u8; 20];
    c_bytes[3] = 1;
    let c = Id20(c_bytes);
    assert_eq!(a.compare(&b), Ordering::Less);
    assert_eq!(b.compare(&c), Ordering::Less);
    assert_eq!(a.compare(&c), Ordering::Less);
}

#[test]
fn equality_is_bytewise() {
    assert!(sample(4) == sample(4));
    assert!(sample(4) != sample(5));
    assert!(id_ending_in(1) != id_ending_in(2));
}

#[test]
fn new_wraps_bytes() {
    let b = sample(8).0;
    assert_eq!(Id20::new(b).0, b);
}

#[test]
fn serialize_emits_raw_bytes() {
    let a = sample(11);
    let bytes = a.serialize();
    assert_eq!(bytes.len(), 20);
    assert_eq!(bytes.as_slice(), &a.0[..]);
}

#[test]
fn round_trip() {
    for seed in [0u8, 1, 128, 255] {
        let a = sample(seed);
        let back = Id20::deserialize(&a.serialize()).unwrap();
        assert!(back == a);
    }
    let ones = Id20([0xff; 20]);
    assert!(Id20::deserialize(&ones.serialize()).unwrap() == ones);
}

#[test]
fn deserialize_copies_twenty_bytes() {
    let v: Vec<u8> = (0u8..20).collect();
    let id = Id20::deserialize(&v).unwrap();
    assert_eq!(&id.0[..], &v[..]);
}

#[test]
fn deserialize_rejects_wrong_lengths() {
    for n in [0usize, 1, 19, 21, 40] {
        let v = vec![7u8; n];
        assert_eq!(
            Id20::deserialize(&v).err(),
            Some(InvalidLength { expected: 20, actual: n })
        );
    }
}

#[test]
fn debug_string_all_zero() {
    let s = Id20([0u8; 20]).to_debug_string();
    assert_eq!(s, format!("<{}>", "0".repeat(40)));
}

#[test]
fn debug_string_all_ff() {
    let s = Id20([0xffu8; 20]).to_debug_string();
    assert_eq!(s, format!("<{}>", "f".repeat(40)));
}

#[test]
fn debug_string_pads_and_lowercases() {
    let mut b = [0u8; 20];
    b[0] = 0x0a;
    b[1] = 0xb3;
    b[19] = 0x05;
    let s = Id20(b).to_debug_string();
    let expected = format!("<0ab3{}05>", "0".repeat(34));
    assert_eq!(s, expected);
}
