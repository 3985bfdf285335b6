use measurements::aggregate::{aggregate, AggregateMap};
use measurements::key::{order_keys, KeyOrder};
use measurements::reduce::{Entry, GlobalResult};
use measurements::stats::Stats;

fn stats(min: i16, max: i16, sum: i128, count: u64) -> Stats {
    Stats { min, max, sum, count }
}

fn merged<'a>(maps: &[&AggregateMap<'a>]) -> Vec<Entry<'a>> {
    let mut result = GlobalResult::new();
    for map in maps {
        assert!(result.can_absorb(map));
        result.absorb(map);
    }
    result.entries().to_vec()
}

const A: &[u8] = b"Hamburg;12.0\nOslo;-3.2\nCracow;12.6\n";
const B: &[u8] = b"Oslo;4.0\nHamburg;14.4\nIstanbul;6.2\nOslo;-9.9\n";
const C: &[u8] = b"Istanbul;23.0\nAbha;1.0\nHamburg;-1.5";

#[test]
fn keys_order_byte_by_byte() {
    assert_eq!(order_keys(b"abc", b"abd"), KeyOrder::Before);
    assert_eq!(order_keys(b"abd", b"abc"), KeyOrder::After);
    assert_eq!(order_keys(b"abc", b"abc"), KeyOrder::Same);
    assert_eq!(order_keys(b"", b""), KeyOrder::Same);
    assert_eq!(order_keys(b"", b"a"), KeyOrder::Before);
    assert_eq!(order_keys(b"a", b""), KeyOrder::After);
    assert_eq!(order_keys(b"ab", b"abc"), KeyOrder::Before);
    assert_eq!(order_keys(b"abc", b"ab"), KeyOrder::After);
    assert_eq!(order_keys(b"Z", b"a"), KeyOrder::Before);
    assert_eq!(order_keys(b"b", b"abc"), KeyOrder::After);
    assert_eq!(order_keys(b"\x7f", b"\x80"), KeyOrder::Before);
    assert_eq!(order_keys(b"a\xff", b"b"), KeyOrder::Before);
}

#[test]
fn keys_order_as_byte_slices_do() {
    let keys: [&[u8]; 8] = [b"", b"a", b"ab", b"abc", b"b", b"B", b"\xff", b"a\x00"];
    for a in keys {
        for b in keys {
            let expected = if a < b {
                KeyOrder::Before
            } else if a == b {
                KeyOrder::Same
            } else {
                KeyOrder::After
            };
            assert_eq!(order_keys(a, b), expected, "{:?} {:?}", a, b);
        }
    }
}

#[test]
fn new_result_is_empty() {
    let result = GlobalResult::new();
    assert_eq!(result.len(), 0);
    assert!(result.entries().is_empty());
    assert_eq!(result.get(b"a"), None);
}

#[test]
fn absorb_merges_key_by_key() {
    let a = aggregate(A).unwrap();
    let b = aggregate(B).unwrap();
    let mut result = GlobalResult::new();
    result.absorb(&a);
    assert_eq!(
        result.entries().to_vec(),
        vec![
            Entry { key: b"Cracow", stats: stats(126, 126, 126, 1) },
            Entry { key: b"Hamburg", stats: stats(120, 120, 120, 1) },
            Entry { key: b"Oslo", stats: stats(-32, -32, -32, 1) },
        ]
    );
    result.absorb(&b);
    assert_eq!(
        result.entries().to_vec(),
        vec![
            Entry { key: b"Cracow", stats: stats(126, 126, 126, 1) },
            Entry { key: b"Hamburg", stats: stats(120, 144, 264, 2) },
            Entry { key: b"Istanbul", stats: stats(62, 62, 62, 1) },
            Entry { key: b"Oslo", stats: stats(-99, 40, -91, 3) },
        ]
    );
    assert_eq!(result.len(), 4);
    assert_eq!(result.get(b"Oslo"), Some(stats(-99, 40, -91, 3)));
    assert_eq!(result.get(b"Osl"), None);
    assert_eq!(result.get(b"Oslo "), None);
}

#[test]
fn merge_order_does_not_matter() {
    let a = aggregate(A).unwrap();
    let b = aggregate(B).unwrap();
    let c = aggregate(C).unwrap();
    let abc = merged(&[&a, &b, &c]);
    assert_eq!(abc, merged(&[&a, &c, &b]));
    assert_eq!(abc, merged(&[&b, &a, &c]));
    assert_eq!(abc, merged(&[&b, &c, &a]));
    assert_eq!(abc, merged(&[&c, &a, &b]));
    assert_eq!(abc, merged(&[&c, &b, &a]));
    assert_eq!(
        abc,
        vec![
            Entry { key: b"Abha", stats: stats(10, 10, 10, 1) },
            Entry { key: b"Cracow", stats: stats(126, 126, 126, 1) },
            Entry { key: b"Hamburg", stats: stats(-15, 144, 249, 3) },
            Entry { key: b"Istanbul", stats: stats(62, 230, 292, 2) },
            Entry { key: b"Oslo", stats: stats(-99, 40, -91, 3) },
        ]
    );
}

#[test]
fn merging_parts_equals_folding_the_whole() {
    let mut whole = Vec::new();
    whole.extend_from_slice(A);
    whole.extend_from_slice(B);
    whole.extend_from_slice(C);
    let one = aggregate(&whole).unwrap();
    let a = aggregate(A).unwrap();
    let b = aggregate(B).unwrap();
    let c = aggregate(C).unwrap();
    let parts = merged(&[&c, &a, &b]);
    let single = merged(&[&one]);
    assert_eq!(parts.len(), single.len());
    for (p, s) in parts.iter().zip(single.iter()) {
        assert_eq!(p.key, s.key);
        assert_eq!(p.stats, s.stats);
    }
}

#[test]
fn result_is_in_ascending_byte_order() {
    let text = b"b;1.0\nB;1.0\nab;1.0\na;1.0\n\xc3\x85;1.0\nabc;1.0\n~;1.0\n A;1.0\n";
    let map = aggregate(text).unwrap();
    let keys: Vec<&[u8]> = merged(&[&map]).iter().map(|e| e.key).collect();
    let expected: Vec<&[u8]> =
        vec![b" A", b"B", b"a", b"ab", b"abc", b"b", b"~", b"\xc3\x85"];
    assert_eq!(keys, expected);
}

#[test]
fn absorbing_an_empty_aggregate_changes_nothing() {
    let a = aggregate(A).unwrap();
    let none = aggregate(b"").unwrap();
    assert_eq!(merged(&[&a, &none]), merged(&[&a]));
    assert_eq!(merged(&[&none, &a]), merged(&[&a]));
    assert!(merged(&[&none]).is_empty());
}

#[test]
fn get_finds_keys_at_every_place() {
    let map = aggregate(b"b;1.0\nd;2.0\nf;3.0\nh;4.0\n").unwrap();
    let mut result = GlobalResult::new();
    result.absorb(&map);
    assert_eq!(result.get(b"b"), Some(stats(10, 10, 10, 1)));
    assert_eq!(result.get(b"d"), Some(stats(20, 20, 20, 1)));
    assert_eq!(result.get(b"f"), Some(stats(30, 30, 30, 1)));
    assert_eq!(result.get(b"h"), Some(stats(40, 40, 40, 1)));
    for missing in ["", "a", "c", "e", "g", "i", "bb", "B"] {
        assert_eq!(result.get(missing.as_bytes()), None, "{:?}", missing);
    }
}

#[test]
fn absorb_inserts_before_between_and_after() {
    let first = aggregate(b"m;5.0\n").unwrap();
    let second = aggregate(b"a;1.0\nz;-9.0\nm;-7.0\nn;0.0\nc;2.0\n").unwrap();
    let mut result = GlobalResult::new();
    result.absorb(&first);
    result.absorb(&second);
    assert_eq!(
        result.entries().to_vec(),
        vec![
            Entry { key: b"a", stats: stats(10, 10, 10, 1) },
            Entry { key: b"c", stats: stats(20, 20, 20, 1) },
            Entry { key: b"m", stats: stats(-70, 50, -20, 2) },
            Entry { key: b"n", stats: stats(0, 0, 0, 1) },
            Entry { key: b"z", stats: stats(-90, -90, -90, 1) },
        ]
    );
}
