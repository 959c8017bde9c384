use kas::{next_from_bits, BitsIter, WidgetId};

fn bits_vec(x: u64) -> Vec<usize> {
    let mut it = BitsIter::new(x);
    let mut v = Vec::new();
    while let Some(i) = it.next() {
        v.push(i);
    }
    v
}

fn collect_path(id: &WidgetId) -> Vec<usize> {
    let mut it = id.iter_path();
    let mut v = Vec::new();
    while let Some(i) = it.next() {
        v.push(i);
    }
    v
}

#[test]
fn size_of_option_widget_id() {
    assert_eq!(
        std::mem::size_of::<WidgetId>(),
        std::mem::size_of::<Option<WidgetId>>()
    );
}

#[test]
fn test_partial_eq() {
    assert!(WidgetId::root().eq(&WidgetId::root()));
    let c1 = WidgetId::root().make_child(0).make_child(15);
    let c2 = WidgetId::root().make_child(1).make_child(15);
    let c3 = WidgetId::root().make_child(0).make_child(14);
    let c4 = WidgetId::root().make_child(0).make_child(15);
    println!("c1: {}", c1.to_string());
    assert!(!c1.eq(&c2));
    assert!(!c1.eq(&c3));
    assert!(!c2.eq(&c3));
    assert!(c1.eq(&c4));
    assert!(!c1.eq(&WidgetId::root()));

    let d1 = WidgetId::from_path(&[0, 15]);
    let d2 = WidgetId::from_path(&[1, 15]);
    assert!(c1.eq(&d1));
    assert!(c2.eq(&d2));
    assert!(!d1.eq(&d2));
    assert!(!d1.eq(&WidgetId::root()));
}

#[test]
#[should_panic]
fn test_partial_eq_invalid_1() {
    let a = WidgetId::default();
    let b = WidgetId::default();
    assert!(a.eq(&b));
}

#[test]
#[should_panic]
fn test_partial_eq_invalid_2() {
    let a = WidgetId::root();
    let b = WidgetId::default();
    assert!(a.eq(&b));
}

#[test]
#[should_panic]
fn test_partial_eq_invalid_3() {
    let a = WidgetId::default();
    let b = WidgetId::root();
    assert!(a.eq(&b));
}

#[test]
fn test_next_from_bits() {
    let rest: u64 = 0x0FFF_FFFF_FFFF_FFFF;
    assert_eq!(next_from_bits(0), (0, 1));
    assert_eq!(next_from_bits(rest), (0, 1));
    assert_eq!(next_from_bits((7 << 60) | rest), (7, 1));
    assert_eq!(next_from_bits((0xB << 60) | (3 << 56)), (27, 2));
    assert_eq!(
        next_from_bits(0xC9A4_F300_0000_0000),
        ((4 << 9) + (1 << 6) + (2 << 3) + 4, 4)
    );
}

#[test]
fn text_bits_iter() {
    assert_eq!(bits_vec(1), Vec::<usize>::new());
    assert_eq!(bits_vec(0x3100_0000_0000_0011), vec![3]);
    assert_eq!(bits_vec(0x1A93_007F_0000_0071), vec![1, 139, 0, 0, 7]);
}

fn check_make_child(seq: &[usize], x: u64) {
    let mut id = WidgetId::root();
    for index in seq {
        id = id.make_child(*index);
    }
    let v = id.as_u64();
    if v != x {
        panic!("test({:?}, {:x}): found {:x}", seq, x, v);
    }

    // Every id is its own ancestor:
    assert!(id.is_ancestor_of(&id));
}

#[test]
fn test_make_child() {
    check_make_child(&[], 1);
    check_make_child(&[0, 0, 0], (3 << 4) | 1);
    check_make_child(&[0, 1, 0], (3 << 4) | (1 << 56) | 1);
    check_make_child(&[9, 0, 1, 300], 0x9101cd4000000071);
    check_make_child(&[1, 2, 3, 4, 5, 6, 7, 8, 9, 10, 0], 0x12345679091920e1);
}

fn from_seq(seq: &[usize]) -> String {
    let mut id = WidgetId::root();
    for x in seq {
        id = id.make_child(*x);
    }
    id.to_string()
}

#[test]
fn test_display() {
    assert_eq!(from_seq(&[]), "#");
    assert_eq!(from_seq(&[0]), "#0");
    assert_eq!(from_seq(&[1, 2, 3]), "#123");
    assert_eq!(from_seq(&[5, 9, 13]), "#59195");
    assert_eq!(from_seq(&[321]), "#d81");
    assert_eq!(
        from_seq(&[313553, 13513, 13511631]),
        "#99ccba1bab91ebcadf97"
    )
}

fn check_is_ancestor(seq: &[usize], seq2: &[usize]) {
    let mut id = WidgetId::root();
    for x in seq {
        id = id.make_child(*x);
    }
    println!("id={} val={:x} from {:?}", id.to_string(), id.as_u64(), seq);
    let mut id2 = id.clone();
    for x in seq2 {
        id2 = id2.make_child(*x);
    }
    println!("id2={} val={:x} from {:?}", id2.to_string(), id2.as_u64(), seq2);
    let next = seq2.iter().next().cloned();
    assert_eq!(id.is_ancestor_of(&id2), next.is_some() || id.eq(&id2));
    assert_eq!(id.index_of_child(&id2), next);
}

#[test]
fn test_is_ancestor() {
    check_is_ancestor(&[], &[]);
    check_is_ancestor(&[], &[1]);
    check_is_ancestor(&[], &[51930, 2, 18]);
    check_is_ancestor(&[5, 6, 0, 1, 1], &[]);
    check_is_ancestor(&[5, 6, 0, 1, 1], &[1, 1]);
    check_is_ancestor(&[8, 26], &[0]);
    check_is_ancestor(&[9, 9, 9, 9, 9, 9, 9], &[]);
    check_is_ancestor(&[9, 9, 9, 9, 9, 9, 9], &[6]);
    check_is_ancestor(&[9, 9, 9, 9, 9, 9, 9, 9], &[3]);
    check_is_ancestor(&[0, 2, 2, 0, 17], &[0]);
}

fn check_not_ancestor(seq: &[usize], seq2: &[usize]) {
    let mut id = WidgetId::root();
    for x in seq {
        id = id.make_child(*x);
    }
    println!("id={} val={:x} from {:?}", id.to_string(), id.as_u64(), seq);
    let mut id2 = WidgetId::root();
    for x in seq2 {
        id2 = id2.make_child(*x);
    }
    println!("id2={} val={:x} from {:?}", id2.to_string(), id2.as_u64(), seq2);
    assert_eq!(id.is_ancestor_of(&id2), false);
    assert_eq!(id.index_of_child(&id2), None);
}

#[test]
fn test_not_ancestor() {
    check_not_ancestor(&[0], &[]);
    check_not_ancestor(&[2, 10, 1], &[2, 10]);
}

#[test]
fn path_round_trip() {
    let cases: Vec<Vec<usize>> = vec![
        vec![],
        vec![0],
        vec![1, 2, 3],
        vec![321],
        vec![9, 9, 9, 9, 9, 9, 9, 9],
        vec![313553, 13513, 13511631, 0, 5],
    ];
    for s in &cases {
        let id = WidgetId::from_path(s);
        assert_eq!(&collect_path(&id), s);
        let mut built = WidgetId::root();
        for x in s {
            built = built.make_child(*x);
        }
        assert_eq!(&collect_path(&built), s);
        assert!(built.eq(&id));
    }
}

#[test]
fn ancestry_scenarios() {
    let a = WidgetId::root().make_child(5).make_child(6);
    let b = a.make_child(0).make_child(1);
    assert!(a.is_ancestor_of(&b));
    assert!(!b.is_ancestor_of(&a));
    assert_eq!(a.index_of_child(&b), Some(0));

    let l = WidgetId::root().make_child(0);
    let r = WidgetId::root().make_child(1);
    assert!(!l.is_ancestor_of(&r));
    assert_eq!(l.index_of_child(&r), None);
}

#[test]
fn invalid_handling() {
    let invalid = WidgetId::default();
    assert!(!invalid.is_valid());
    assert!(WidgetId::root().is_valid());
    assert!(!WidgetId::root().is_ancestor_of(&invalid));
    assert!(!invalid.is_ancestor_of(&WidgetId::root()));
    assert_eq!(WidgetId::root().index_of_child(&invalid), None);
    assert_eq!(invalid.index_of_child(&WidgetId::root()), None);
    assert_eq!(invalid.as_u64(), !0u64);
    assert_eq!(invalid.to_string(), "#INVALID");
}

#[test]
fn overflow_packing_boundary() {
    // Seven indices of two blocks each fill the inline word exactly; the
    // eighth append must move out of line with no observable change.
    let inline = WidgetId::from_path(&[9, 9, 9, 9, 9, 9, 9]);
    assert_eq!(inline.as_u64() & 3, 1);
    let spilled = inline.make_child(9);
    assert_eq!(spilled.as_u64() & 3, 2);
    assert_ne!(spilled.as_u64(), 0);
    assert!(spilled.eq(&WidgetId::from_path(&[9, 9, 9, 9, 9, 9, 9, 9])));
    assert!(inline.is_ancestor_of(&spilled));
    assert_eq!(inline.index_of_child(&spilled), Some(9));
    assert_eq!(collect_path(&spilled), vec![9, 9, 9, 9, 9, 9, 9, 9]);
    assert_eq!(spilled.to_string(), "#9191919191919191");
}

#[test]
fn raw_round_trip() {
    let cases: Vec<Vec<usize>> = vec![vec![], vec![0], vec![1, 2, 3], vec![321, 7]];
    for s in &cases {
        let id = WidgetId::from_path(s);
        let raw = id.as_u64();
        assert_ne!(raw, 0);
        let back = WidgetId::opt_from_u64(raw).unwrap();
        assert!(back.eq(&id));
        assert_eq!(WidgetId::opt_to_u64(Some(&id)), raw);
    }
    assert_eq!(WidgetId::opt_to_u64(None), 0);
    assert!(WidgetId::opt_from_u64(0).is_none());
}

#[test]
fn shared_clones_stay_usable() {
    let long = WidgetId::from_path(&[100, 200, 300, 400, 500, 600]);
    assert_eq!(long.as_u64() & 3, 2);
    {
        let c1 = long.clone();
        let c2 = long.clone();
        let c3 = c2.clone();
        assert!(c1.eq(&long));
        assert!(c3.eq(&long));
        assert_eq!(collect_path(&c3), vec![100, 200, 300, 400, 500, 600]);
    }
    // All clones dropped: the first handle still reads its path.
    assert_eq!(collect_path(&long), vec![100, 200, 300, 400, 500, 600]);
    assert!(long.is_ancestor_of(&long));
}
