use microkelvin::annotation::{combine_all, Annotation};
use microkelvin::canon::Canon;
use microkelvin::cardinality::Cardinality;
use microkelvin::compound::{Child, Compound};
use microkelvin::generic::{GenericChild, GenericTree};
use microkelvin::link::Link;
use microkelvin::max::Max;
use microkelvin::store::{hash_bytes, Id, Store};
use microkelvin::Error;

#[test]
fn u64_wire_form() {
    let v: u64 = 0x0102030405060708;
    let mut sink: Vec<u8> = Vec::new();
    v.encode(&mut sink);
    assert_eq!(sink, vec![8, 7, 6, 5, 4, 3, 2, 1]);
    assert_eq!(v.encoded_len(), sink.len());
    let mut pos: usize = 0;
    assert_eq!(u64::decode(&sink, &mut pos).unwrap(), v);
    assert_eq!(pos, 8);
}

#[test]
fn u16_wire_form() {
    let v: u16 = 0xbeef;
    let mut sink: Vec<u8> = Vec::new();
    v.encode(&mut sink);
    assert_eq!(sink, vec![0xef, 0xbe]);
    assert_eq!(v.encoded_len(), 2);
    let mut pos: usize = 0;
    assert_eq!(u16::decode(&sink, &mut pos).unwrap(), v);
    let short: Vec<u8> = vec![1];
    let mut p2: usize = 0;
    assert_eq!(u16::decode(&short, &mut p2).err(), Some(Error::MalformedData));
    assert_eq!(p2, 0);
}

#[test]
fn id_wire_form() {
    let id = Id { hash: 0xdeadbeef, len: 40 };
    let mut sink: Vec<u8> = Vec::new();
    id.encode(&mut sink);
    assert_eq!(sink.len(), 16);
    assert_eq!(id.encoded_len(), 16);
    let mut pos: usize = 0;
    assert_eq!(Id::decode(&sink, &mut pos).unwrap(), id);
    assert_eq!(id.size(), 40);
}

#[test]
fn compound_wire_round_trip() {
    let mut c: Compound<u64, Cardinality> = Compound::new();
    c.push(Child::Empty);
    c.push(Child::Leaf(77));
    let mut store = Store::new();
    let mut sub = Link::new({
        let mut s: Compound<u64, Cardinality> = Compound::new();
        s.push(Child::Leaf(5));
        s
    });
    sub.persist(&mut store);
    c.push(Child::Node(sub));

    let mut wire: Vec<u8> = Vec::new();
    c.encode(&mut wire);
    assert_eq!(c.encoded_len(), wire.len());

    let mut pos: usize = 0;
    let d: Compound<u64, Cardinality> = Compound::decode(&wire, &mut pos).unwrap();
    assert_eq!(pos, wire.len());
    assert_eq!(d.len(), 3);
    assert!(matches!(d.child(0), Child::Empty));
    match d.child(1) {
        Child::Leaf(v) => assert_eq!(*v, 77),
        _ => panic!("expected a leaf"),
    }
    match d.child(2) {
        Child::Node(link) => {
            assert_eq!(link.cached_annotation(), Some(&Cardinality(1)));
        },
        _ => panic!("expected a link"),
    }
}

#[test]
fn hash_is_a_pure_function_of_bytes() {
    let a: Vec<u8> = vec![1, 2, 3];
    let b: Vec<u8> = vec![1, 2, 3];
    let c: Vec<u8> = vec![3, 2, 1];
    assert_eq!(hash_bytes(&a), hash_bytes(&b));
    assert_ne!(hash_bytes(&a), hash_bytes(&c));
}

#[test]
fn store_round_trip() {
    let mut store = Store::new();
    let bytes: Vec<u8> = vec![9, 8, 7];
    let id = store.put(&bytes);
    assert_eq!(id.len, 3);
    assert_eq!(id.hash, hash_bytes(&bytes));
    assert_eq!(store.get(&id).unwrap(), bytes);
    let other = Id { hash: id.hash + 1, len: 3 };
    assert_eq!(store.get(&other).err(), Some(Error::NotFound));
}

#[test]
fn cardinality_algebra() {
    let a = <Cardinality as Annotation<u64>>::from_leaf(&7);
    assert_eq!(a, Cardinality(1));
    let e = <Cardinality as Annotation<u64>>::identity();
    assert_eq!(e, Cardinality(0));
    assert_eq!(<Cardinality as Annotation<u64>>::combine(&a, &Cardinality(4)), Cardinality(5));
    assert!(<Cardinality as Annotation<u64>>::equal(&a, &Cardinality(1)));
    assert!(!<Cardinality as Annotation<u64>>::equal(&a, &Cardinality(2)));
}

#[test]
fn max_algebra() {
    let e: Max<u64> = <Max<u64> as Annotation<u64>>::identity();
    assert_eq!(e, Max::NegativeInfinity);
    let m: Max<u64> = <Max<u64> as Annotation<u64>>::from_leaf(&9);
    assert_eq!(m, Max::Maximum(9));
    assert_eq!(<Max<u64> as Annotation<u64>>::combine(&e, &m), Max::Maximum(9));
    assert_eq!(<Max<u64> as Annotation<u64>>::combine(&m, &e), Max::Maximum(9));
    assert_eq!(
        <Max<u64> as Annotation<u64>>::combine(&Max::Maximum(3), &Max::Maximum(8)),
        Max::Maximum(8)
    );
    assert_eq!(
        <Max<u64> as Annotation<u64>>::combine(&Max::Maximum(8), &Max::Maximum(3)),
        Max::Maximum(8)
    );
    assert!(<Max<u64> as Annotation<u64>>::equal(&m, &Max::Maximum(9)));
    assert!(!<Max<u64> as Annotation<u64>>::equal(&m, &e));
}

#[test]
fn generic_mirror() {
    let mut store = Store::new();
    let mut sub = Link::new({
        let mut s: Compound<u64, Cardinality> = Compound::new();
        s.push(Child::Leaf(1));
        s.push(Child::Leaf(2));
        s
    });
    let id = sub.persist(&mut store);

    let mut c: Compound<u64, Cardinality> = Compound::new();
    c.push(Child::Leaf(77));
    c.push(Child::Empty);
    c.push(Child::Node(sub));

    let g = GenericTree::mirror(&c);
    assert_eq!(g.len(), 3);
    match g.child(0) {
        GenericChild::Leaf(gl) => {
            let mut expect: Vec<u8> = Vec::new();
            77u64.encode(&mut expect);
            assert_eq!(gl.bytes, expect);
        },
        _ => panic!("expected leaf bytes"),
    }
    assert!(matches!(g.child(1), GenericChild::Empty));
    match g.child(2) {
        GenericChild::Link(gid, ga) => {
            assert_eq!(*gid, id);
            let mut expect: Vec<u8> = Vec::new();
            Cardinality(2).encode(&mut expect);
            assert_eq!(ga.bytes, expect);
        },
        _ => panic!("expected a link slot"),
    }
}

#[test]
fn generic_wire_round_trip() {
    let mut store = Store::new();
    let mut sub = Link::new({
        let mut s: Compound<u64, Cardinality> = Compound::new();
        s.push(Child::Leaf(6));
        s
    });
    sub.persist(&mut store);

    let mut c: Compound<u64, Cardinality> = Compound::new();
    c.push(Child::Leaf(5));
    c.push(Child::Empty);
    c.push(Child::Node(sub));
    let g = GenericTree::mirror(&c);

    let mut wire: Vec<u8> = Vec::new();
    g.encode(&mut wire);
    assert_eq!(g.encoded_len(), wire.len());
    let mut pos: usize = 0;
    let d = GenericTree::decode(&wire, &mut pos).unwrap();
    assert_eq!(pos, wire.len());
    assert_eq!(d.len(), 3);
    match (g.child(0), d.child(0)) {
        (GenericChild::Leaf(a), GenericChild::Leaf(b)) => assert_eq!(a.bytes, b.bytes),
        _ => panic!("expected leaf bytes on both sides"),
    }
    assert!(matches!(d.child(1), GenericChild::Empty));
    match (g.child(2), d.child(2)) {
        (GenericChild::Link(ia, aa), GenericChild::Link(ib, ab)) => {
            assert_eq!(ia, ib);
            assert_eq!(aa.bytes, ab.bytes);
        },
        _ => panic!("expected link slots on both sides"),
    }
}

#[test]
fn generic_decode_rejects_unknown_tag() {
    let mut wire: Vec<u8> = vec![1, 0, 0, 0, 0, 0, 0, 0];
    wire.push(7);
    let mut pos: usize = 0;
    let r = GenericTree::decode(&wire, &mut pos);
    assert_eq!(r.err(), Some(Error::MalformedData));
    assert_eq!(pos, 0);
}

#[test]
fn combine_all_folds_in_order() {
    let empty: Vec<Cardinality> = vec![];
    assert_eq!(combine_all::<u64, Cardinality>(&empty), Cardinality(0));
    let one = vec![Cardinality(7)];
    assert_eq!(combine_all::<u64, Cardinality>(&one), Cardinality(7));
    let several = vec![Cardinality(1), Cardinality(2), Cardinality(3)];
    assert_eq!(combine_all::<u64, Cardinality>(&several), Cardinality(6));
}
