use kas::{block_len, encode, Align, Class, PassId, PassType, SharedConst};

#[test]
fn class_text() {
    assert_eq!(Class::Container.text(), None);
    assert_eq!(Class::Label("hello").text(), Some("hello"));
    assert_eq!(Class::Entry("typed").text(), Some("typed"));
    assert_eq!(Class::Button("ok").text(), Some("ok"));
    assert_eq!(Class::CheckBox("tick").text(), Some("tick"));
    assert_eq!(Class::Frame.text(), None);
    assert_eq!(Class::Window.text(), None);
}

#[test]
fn class_alignments() {
    assert_eq!(Class::Container.alignments(), (Align::Justify, Align::Justify));
    assert_eq!(Class::Label("x").alignments(), (Align::Begin, Align::Center));
    assert_eq!(Class::Entry("x").alignments(), (Align::Begin, Align::Begin));
    assert_eq!(Class::Button("x").alignments(), (Align::Center, Align::Center));
    assert_eq!(Class::CheckBox("x").alignments(), (Align::Center, Align::Center));
    assert_eq!(Class::Frame.alignments(), (Align::Justify, Align::Justify));
    assert_eq!(Class::Window.alignments(), (Align::Justify, Align::Justify));
}

#[test]
fn encode_single_indices() {
    // One block for a small index, chained flagged blocks for larger ones.
    assert_eq!(encode(0), (0x0, 4));
    assert_eq!(encode(7), (0x7, 4));
    assert_eq!(encode(8), (0x90, 8));
    assert_eq!(encode(27), (0xb3, 8));
    assert_eq!(encode(321), (0xd81, 12));
}

#[test]
fn block_len_reads_length_field() {
    assert_eq!(block_len(1), 0);
    assert_eq!(block_len((3 << 4) | 1), 3);
    assert_eq!(block_len(0x9101cd4000000071), 7);
}

#[test]
fn pass_id_number() {
    let p = PassId::new(0);
    assert_eq!(p.pass(), 0);
    let q = PassId::new(71);
    assert_eq!(q.pass(), 71);
    let copy = q;
    assert_eq!(copy.pass(), 71);
}

#[test]
fn pass_type_variants() {
    let c = PassType::Clip;
    let o = PassType::Overlay;
    assert_eq!(c, PassType::Clip);
    assert_ne!(c, o);
    assert!(matches!(o, PassType::Overlay));
}

#[test]
fn shared_const_holds_data() {
    let s = SharedConst::new(7usize);
    assert_eq!(*s.get(), 7);
    let words = SharedConst::new(vec!["a", "b"]);
    assert_eq!(words.get().len(), 2);
}
