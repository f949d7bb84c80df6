use microkelvin::cardinality::Cardinality;
use microkelvin::compound::{Child, Compound};
use microkelvin::link::Link;
use microkelvin::max::Max;
use microkelvin::store::Store;
use microkelvin::walk::{Step, Walk, WalkResult};
use microkelvin::Error;

fn flat(values: &[u64]) -> Compound<u64, Cardinality> {
    let mut c = Compound::new();
    for v in values {
        c.push(Child::Leaf(*v));
    }
    c
}

#[test]
fn nth() {
    let n: u64 = 16;
    let mut c: Compound<u64, Cardinality> = Compound::new();
    for i in 0..n {
        c.push(Child::Leaf(i));
    }
    for i in 0..n {
        assert_eq!(*c.nth(i).unwrap(), i);
    }
}

#[test]
fn nth_mut() {
    let n: u64 = 16;
    let mut c: Compound<u64, Cardinality> = Compound::new();
    for i in 0..n {
        c.push(Child::Leaf(i));
    }
    for i in 0..n {
        let v = *c.nth(i).expect("Some");
        assert!(c.nth_mut(i, v + 1));
    }
    for i in 0..n {
        assert_eq!(*c.nth(i).unwrap(), i + 1);
    }
    assert_eq!(c.annotation(), Cardinality(16));
}

#[test]
fn maximum() {
    let n: u64 = 1024;

    let mut keys = vec![];

    for i in 0..n {
        keys.push((i * 389) % n)
    }

    let mut c: Compound<u64, Max<u64>> = Compound::new();

    for key in keys {
        c.push(Child::Leaf(key));
    }

    let max = c.max_key().unwrap();

    assert_eq!(*max, 1023);
}

#[test]
fn cardinality_flat_list() {
    let c = flat(&[10, 20, 30, 40]);
    let mut link = Link::new(c);
    assert_eq!(*link.annotation(), Cardinality(4));
    let inner = link.compound_mut();
    inner.push(Child::Leaf(50));
    assert_eq!(*link.annotation(), Cardinality(5));
}

#[test]
fn empty_compound() {
    let c: Compound<u64, Cardinality> = Compound::new();
    assert_eq!(c.annotation(), Cardinality(0));
    assert!(c.nth(0).is_none());
    let m: Compound<u64, Max<u64>> = Compound::new();
    assert_eq!(m.annotation(), Max::NegativeInfinity);
    assert!(m.max_key().is_none());
}

#[test]
fn nested_annotation_matches_leaf_count() {
    // A node with a subtree link, a plain leaf, another subtree and a
    // hole: the derivation folds contributions in child order.
    let mut root: Compound<u64, Cardinality> = Compound::new();
    root.push(Child::Node(Link::new(flat(&[0, 1, 2, 3]))));
    root.push(Child::Leaf(4));
    root.push(Child::Node(Link::new(flat(&[5, 6]))));
    root.push(Child::Empty);
    assert_eq!(root.annotation(), Cardinality(7));
    for i in 0..7 {
        assert_eq!(*root.nth(i).unwrap(), i);
    }
    assert!(root.nth(7).is_none());
}

#[test]
fn nested_nth_mut_reaggregates() {
    let mut root: Compound<u64, Cardinality> = Compound::new();
    root.push(Child::Node(Link::new(flat(&[0, 1, 2]))));
    root.push(Child::Leaf(3));
    assert!(root.nth_mut(1, 100));
    assert_eq!(root.annotation(), Cardinality(4));
    assert_eq!(*root.nth(0).unwrap(), 0);
    assert_eq!(*root.nth(1).unwrap(), 100);
    assert_eq!(*root.nth(2).unwrap(), 2);
    assert_eq!(*root.nth(3).unwrap(), 3);
    assert!(!root.nth_mut(4, 0));
}

#[test]
fn nested_maximum() {
    let mut root: Compound<u64, Max<u64>> = Compound::new();
    let mut left: Compound<u64, Max<u64>> = Compound::new();
    for k in [3u64, 99, 7] {
        left.push(Child::Leaf(k));
    }
    let mut right: Compound<u64, Max<u64>> = Compound::new();
    for k in [42u64, 8] {
        right.push(Child::Leaf(k));
    }
    root.push(Child::Node(Link::new(left)));
    root.push(Child::Leaf(55));
    root.push(Child::Node(Link::new(right)));
    assert_eq!(*root.max_key().unwrap(), 99);
    assert_eq!(root.annotation(), Max::Maximum(99));
}

#[test]
fn annotation_read_is_stable() {
    let mut link = Link::new(flat(&[1, 2, 3]));
    assert_eq!(*link.annotation(), Cardinality(3));
    assert_eq!(*link.annotation(), Cardinality(3));
    assert_eq!(link.subtree_annotation(), Cardinality(3));
}

#[test]
fn link_round_trip() {
    // Persist a subtree, serialize the link, read it back: the
    // annotation and address survive the trip without materializing,
    // and materializing from the store restores the children.
    let mut store = Store::new();
    let mut link = Link::new(flat(&[11, 22, 33]));
    let id = link.persist(&mut store);
    assert_eq!(link.cached_id(), Some(id));

    let mut wire: Vec<u8> = Vec::new();
    link.serialize(&mut wire);
    assert_eq!(link.encoded_len(), wire.len());

    let mut pos: usize = 0;
    let mut read_back: Link<u64, Cardinality> = Link::deserialize(&wire, &mut pos).unwrap();
    assert_eq!(pos, wire.len());
    assert_eq!(read_back.cached_id(), Some(id));
    assert_eq!(read_back.cached_annotation(), Some(&Cardinality(3)));

    let c = read_back.compound(&store).unwrap();
    assert_eq!(c.len(), 3);
    let expected = [11u64, 22, 33];
    for (i, want) in expected.iter().enumerate() {
        match c.child(i) {
            Child::Leaf(v) => assert_eq!(v, want),
            _ => panic!("expected a leaf"),
        }
    }
}

#[test]
fn deserialize_rejects_truncated() {
    let wire: Vec<u8> = vec![1, 2, 3];
    let mut pos: usize = 0;
    let r: Result<Link<u64, Cardinality>, Error> = Link::deserialize(&wire, &mut pos);
    assert_eq!(r.err(), Some(Error::MalformedData));
    assert_eq!(pos, 0);
}

#[test]
fn decode_rejects_unknown_tag() {
    // count = 1, then a record with tag 9.
    let mut wire: Vec<u8> = vec![1, 0, 0, 0, 0, 0, 0, 0];
    wire.push(9);
    let mut pos: usize = 0;
    let r: Result<Compound<u64, Cardinality>, Error> = Compound::decode(&wire, &mut pos);
    assert_eq!(r.err(), Some(Error::MalformedData));
    assert_eq!(pos, 0);
}

#[test]
fn store_not_found() {
    let store = Store::new();
    let mut link: Link<u64, Cardinality> =
        Link::stored(microkelvin::store::Id { hash: 7, len: 9 }, Cardinality(1));
    assert_eq!(link.compound(&store).err(), Some(Error::NotFound));
}

#[test]
fn materialize_checks_annotation() {
    // Store a three-leaf subtree but claim a wrong cached cardinality:
    // materialization must reject the blob as malformed.
    let mut store = Store::new();
    let mut link = Link::new(flat(&[1, 2, 3]));
    let id = link.persist(&mut store);
    let mut bad: Link<u64, Cardinality> = Link::stored(id, Cardinality(2));
    assert_eq!(bad.compound(&store).err(), Some(Error::MalformedData));
}

#[test]
fn guided_walk_finds_first_match() {
    let mut root: Compound<u64, Cardinality> = Compound::new();
    root.push(Child::Node(Link::new(flat(&[2, 4, 11, 6]))));
    root.push(Child::Leaf(20));
    let r = root.walk(&|w| match w {
        Walk::Leaf(l) => {
            if *l > 10 {
                Step::Found
            } else {
                Step::Next
            }
        },
        Walk::Node(_) => Step::Into,
    });
    match r {
        WalkResult::Found(l) => assert_eq!(*l, 11),
        _ => panic!("expected a hit"),
    }
}

#[test]
fn guided_walk_abort_and_exhaust() {
    let root = flat(&[1, 2, 3]);
    let aborted = root.walk(&|w| match w {
        Walk::Leaf(l) => {
            if *l == 2 {
                Step::Abort
            } else {
                Step::Next
            }
        },
        Walk::Node(_) => Step::Into,
    });
    assert!(matches!(aborted, WalkResult::Aborted));
    let exhausted = root.walk(&|_| Step::Next);
    assert!(matches!(exhausted, WalkResult::Exhausted));
}

#[test]
fn deep_and_cached_annotation_agree() {
    let mut root: Compound<u64, Cardinality> = Compound::new();
    let mut inner = flat(&[0, 1, 2]);
    inner.push(Child::Node(Link::new(flat(&[3, 4]))));
    root.push(Child::Node(Link::new(inner)));
    root.push(Child::Leaf(5));
    assert_eq!(root.deep_annotation(), root.annotation());
    assert_eq!(root.deep_annotation(), Cardinality(6));
}

#[test]
fn clone_gives_an_independent_tree() {
    let mut original: Compound<u64, Cardinality> = Compound::new();
    original.push(Child::Node(Link::new(flat(&[1, 2]))));
    original.push(Child::Leaf(3));
    let mut copy = original.clone();
    assert!(copy.nth_mut(0, 100));
    copy.push(Child::Leaf(4));
    assert_eq!(original.annotation(), Cardinality(3));
    assert_eq!(*original.nth(0).unwrap(), 1);
    assert_eq!(copy.annotation(), Cardinality(4));
    assert_eq!(*copy.nth(0).unwrap(), 100);
}

#[test]
fn deep_materialize_restores_traversal() {
    // Persist a two-level tree, ship the root link over the wire, then
    // materialize everything back and walk it.
    let mut store = Store::new();
    let mut inner_node: Compound<u64, Cardinality> = Compound::new();
    inner_node.push(Child::Node(Link::new(flat(&[0, 1]))));
    inner_node.push(Child::Leaf(2));
    let mut root = Link::new(inner_node);
    root.persist(&mut store);

    let mut wire: Vec<u8> = Vec::new();
    root.serialize(&mut wire);
    let mut pos: usize = 0;
    let mut shipped: Link<u64, Cardinality> = Link::deserialize(&wire, &mut pos).unwrap();

    assert_eq!(shipped.deep_materialize(&store, 8), Ok(true));
    let c = shipped.compound_ref();
    assert_eq!(c.annotation(), Cardinality(3));
    for i in 0..3 {
        assert_eq!(*c.nth(i).unwrap(), i);
    }
    assert!(c.nth(3).is_none());

    // With no depth to descend, materialization reports it ran out.
    let mut pos2: usize = 0;
    let mut shallow: Link<u64, Cardinality> = Link::deserialize(&wire, &mut pos2).unwrap();
    assert_eq!(shallow.deep_materialize(&store, 0), Ok(false));
}
