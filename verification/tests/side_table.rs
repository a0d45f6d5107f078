use rs_tip::hash::RefMap;
use rs_tip::ty::Ty;

#[test]
fn side_table_keeps_last_value_per_key() {
    let mut m = RefMap::new();
    assert_eq!(m.get(7), None);
    assert_eq!(m.insert(7, Ty::new(1)), None);
    assert_eq!(m.insert(9, Ty::new(2)), None);
    assert_eq!(m.insert(7, Ty::new(3)), Some(Ty::new(1)));
    assert_eq!(m.get(7), Some(Ty::new(3)));
    assert_eq!(m.get(9), Some(Ty::new(2)));
    assert_eq!(m.get(8), None);
}
