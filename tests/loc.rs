use source_span::{Loc, Position, Span};

fn at(l: usize, c: usize) -> Span {
    Position::new(l, c).into()
}

#[test]
fn loc_keeps_span_through_maps() {
    let l = Loc::new(3u8, at(1, 2));
    assert_eq!(l.span(), at(1, 2));
    let m = l.map(|v| v as u32 * 10);
    assert_eq!(*m.as_ref(), 30u32);
    let i: Loc<u64> = m.inner_into();
    assert_eq!(i.span(), at(1, 2));
    let (v, s) = i.into_raw_parts();
    assert_eq!(v, 30);
    assert_eq!(s, at(1, 2));
}

#[test]
fn loc_try_map_and_transpose() {
    let l = Loc::new(-4i32, at(0, 0));
    let r: Result<Loc<u32>, &str> = l.try_map(|v| if v < 0 { Err("negative") } else { Ok(v as u32) });
    assert!(matches!(r, Err("negative")));
    let t = Loc::transposed(None::<Loc<u8>>, at(2, 2));
    assert_eq!(t.span(), at(2, 2));
    assert_eq!(t.into_inner(), None);
    let u = Loc::transposed(Some(Loc::new(5u8, at(3, 1))), at(9, 9));
    assert_eq!(u.span(), at(3, 1));
    let w: Result<Loc<u8>, _> = Loc::new(300u32, at(0, 0)).inner_try_into();
    assert!(w.is_err());
}
