use quack::riblt::decoder::Decoder;
use quack::riblt::mapping::RandomMapping;
use quack::riblt::symbol::{CodedSymbol, ADD, REMOVE};
use quack::IBLTQuackU32;

#[test]
fn test_fixed_encode_and_decode() {
    let sizes = vec![10, 20, 40, 100, 200, u8::MAX.into()];
    for size in sizes {
        let nlocal = size;
        let ncommon = size;

        let mut next_id = 0;
        let mut slocal = IBLTQuackU32::new(nlocal * 3);
        let mut sremote = IBLTQuackU32::new(nlocal * 3);
        for _ in 0..nlocal {
            next_id += 1;
            slocal.insert(next_id);
        }
        for _ in 0..ncommon {
            next_id += 1;
            slocal.insert(next_id);
            sremote.insert(next_id);
        }

        slocal.sub_assign(&sremote);
        let res = slocal.decode();
        assert!(res.is_some(), "(size={}) failed to decode at all", size);
        let res = res.unwrap();
        assert_eq!(res.len(), nlocal, "(size={}) missing symbols: {} local", size, res.len());
    }
}

#[test]
fn test_serialize_and_deserialize() {
    let mut buf = [0u8; 1500];
    let mut q1 = IBLTQuackU32::new(10);
    q1.insert(1);
    q1.insert(2);
    q1.insert(3);
    let len = q1.serialize(&mut buf);
    assert_eq!(len, 8 + 5 * 10);
    let q2 = IBLTQuackU32::deserialize(&buf[..len]);
    assert_eq!(q1.count(), q2.count());
    assert_eq!(q1.last_value(), q2.last_value());
    assert_eq!(q1.sketch(), q2.sketch());
}

#[test]
fn test_serialize_with_hint() {
    let mut buf = [0u8; 1500];
    let mut q1 = IBLTQuackU32::new(10);
    q1.insert(1);
    q1.insert(2);

    assert_eq!(q1.serialize_with_hint(&mut buf, 0), 8 + 5 * 0);
    assert_eq!(q1.serialize_with_hint(&mut buf, 1), 8 + 5 * 4);
    assert_eq!(q1.serialize_with_hint(&mut buf, 2), 8 + 5 * 2 * 4);
    assert_eq!(q1.serialize_with_hint(&mut buf, 3), 8 + 5 * 10);

    let num_missing = 2;
    let len = q1.serialize_with_hint(&mut buf, num_missing);
    let q2 = IBLTQuackU32::deserialize(&buf[..len]);
    assert_eq!(q1.count(), q2.count());
    assert_eq!(q1.last_value(), q2.last_value());
    assert_eq!(q1.sketch().len(), 10);
    assert_eq!(q2.sketch().len(), 2 * 4);
}

#[test]
fn equal_sets_decode_to_nothing() {
    let mut a = IBLTQuackU32::new(30);
    let mut b = IBLTQuackU32::new(30);
    for x in 1..=10 {
        a.insert(x);
        b.insert(x);
    }
    assert_eq!(a.sub(&b).decode(), Some(vec![]));
}

#[test]
fn subset_difference_decodes() {
    let mut a = IBLTQuackU32::new(30);
    let mut b = IBLTQuackU32::new(30);
    for x in 1..=10 {
        a.insert(x);
    }
    for x in 1..=7 {
        b.insert(x);
    }
    let mut got = a.sub(&b).decode().unwrap();
    got.sort();
    assert_eq!(got, vec![8, 9, 10]);
}

#[test]
fn insert_then_remove_restores_sketch() {
    let mut a = IBLTQuackU32::new(50);
    a.insert(5);
    a.insert(6);
    let before = a.sketch().clone();
    a.insert(1234567);
    assert_ne!(a.sketch(), &before);
    a.remove(1234567);
    assert_eq!(a.sketch(), &before);
    assert_eq!(a.count(), 2);
}

#[test]
fn every_symbol_covers_cell_zero() {
    let mut a = IBLTQuackU32::new(4);
    a.insert(99);
    assert_eq!(a.sketch()[0], CodedSymbol { hash: 99, count: 1 });
}

#[test]
fn mapping_strides_are_exact() {
    // image 1: the generator gives 0xe4dd58b5, and the first strides are
    // ceil(1.5 * (2^16 / sqrt(0xe4dd58b5 + 1) - 1)) = 1, then 1, 2, 2
    let mut m = RandomMapping::new(1);
    assert_eq!(m.last_index, 0);
    assert_eq!(m.next_index(), 1);
    assert_eq!(m.prng, 0xe4dd58b5);
    assert_eq!(m.next_index(), 2);
    assert_eq!(m.next_index(), 4);
    assert_eq!(m.next_index(), 6);
    // image 0 keeps the generator at 0: s = 1, a stride past the last cell
    let mut z = RandomMapping::new(0);
    assert_eq!(z.next_index(), u16::MAX);
    // the whole image seeds the generator
    let mut a = RandomMapping::new(1);
    let mut b = RandomMapping::new(257);
    a.next_index();
    b.next_index();
    assert_ne!(a.prng, b.prng);
}

#[test]
fn coded_symbol_apply() {
    let mut c = CodedSymbol { hash: 0b1010, count: 0 };
    let r = c.apply(0b0110, ADD);
    assert_eq!(r, CodedSymbol { hash: 0b1100, count: 1 });
    c.apply(0b0110, REMOVE);
    c.apply(0b0110, REMOVE);
    assert_eq!(c, CodedSymbol { hash: 0b1100, count: 255 });
}

#[test]
fn two_way_difference_decodes() {
    let mut a = IBLTQuackU32::new(40);
    let mut b = IBLTQuackU32::new(40);
    for x in 1..=10 {
        a.insert(x);
    }
    for x in 1..=7 {
        b.insert(x);
    }
    b.insert(100);
    let (remote, local) = a.sub(&b).decode_two_way().unwrap();
    // a symbol peeled both ways cancels out
    let mut only_a: Vec<u32> = remote.iter().copied().filter(|x| !local.contains(x)).collect();
    let only_b: Vec<u32> = local.iter().copied().filter(|x| !remote.contains(x)).collect();
    only_a.sort();
    assert_eq!(only_a, vec![8, 9, 10]);
    assert_eq!(only_b, vec![100]);
}

#[test]
fn decoder_added_symbols() {
    let mut a = IBLTQuackU32::new(8);
    a.insert(42);
    let mut dec = Decoder::new(vec![]);
    for c in a.sketch() {
        dec._add_coded_symbol(*c);
    }
    dec.try_decode();
    assert!(dec.decoded());
    assert_eq!(dec.remote(), vec![42]);
}

#[test]
fn fresh_decoder_is_not_decoded() {
    let mut a = IBLTQuackU32::new(4);
    a.insert(7);
    let dec = Decoder::new(a.sketch().clone());
    assert!(!dec.decoded());
    let empty = Decoder::new(vec![]);
    assert!(empty.decoded());
    let zeros = Decoder::new(vec![CodedSymbol { hash: 0, count: 0 }; 3]);
    assert!(!zeros.decoded());
}

#[test]
fn empty_sketch_decodes_to_nothing() {
    assert_eq!(IBLTQuackU32::new(12).decode(), Some(vec![]));
}
