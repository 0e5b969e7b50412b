use locales::ops::{BinaryOperation, UnaryOperation};
use locales::span::Span;
use locales::theme::{Theme, ThemeStore};

#[test]
fn theme_get_after_set() {
    let mut store = ThemeStore::new();
    assert_eq!(locales::theme::get(&store), Theme::System);
    locales::theme::set(&mut store, Theme::Dark);
    assert_eq!(locales::theme::get(&store), Theme::Dark);
    locales::theme::set(&mut store, Theme::Light);
    assert_eq!(locales::theme::get(&store), Theme::Light);
}

#[test]
fn theme_from_number() {
    assert_eq!(Theme::from(0u8), Theme::System);
    assert_eq!(Theme::from(1u8), Theme::Light);
    assert_eq!(Theme::from(2u8), Theme::Dark);
    assert_eq!(Theme::from(7u8), Theme::System);
    assert_eq!(Theme::Dark.code(), 2);
    assert_eq!(Theme::default(), Theme::System);
}

#[test]
fn operation_codes() {
    assert_eq!(UnaryOperation::Not.code(), b'!');
    assert_eq!(UnaryOperation::Minus.code(), b'-');
    assert_eq!(UnaryOperation::from_code(b'!'), Some(UnaryOperation::Not));
    assert_eq!(UnaryOperation::from_code(b'?'), None);
    assert_eq!(BinaryOperation::Add.code(), u16::from_be_bytes(*b"\0+"));
    assert_eq!(BinaryOperation::And.code(), u16::from_be_bytes(*b"&&"));
    assert_eq!(BinaryOperation::Le.code(), u16::from_be_bytes(*b"<="));
    for op in BinaryOperation::all() {
        assert_eq!(BinaryOperation::from_code(op.code()), Some(op));
    }
    assert_eq!(BinaryOperation::from_code(1), None);
    assert_eq!(BinaryOperation::all().len(), 13);
}

#[test]
fn span_join() {
    let a = Span::new(3, 5);
    let b = Span::new(1, 4);
    assert_eq!(a.join(b), Span::new(1, 5));
    assert_eq!(b.join(a), Span::new(1, 5));
    assert_eq!(a.with_end(9), Span::new(3, 9));
}
