use plurtfm::flags::{var_flags, VarFlags};

#[test]
fn flag_bits() {
    assert_eq!(VarFlags::Cut.b0(), 1);
    assert_eq!(VarFlags::HalfLeds.b0(), 2);
    assert_eq!(VarFlags::Controller.b0(), 4);
    assert_eq!(VarFlags::Power.b0(), 8);
    assert_eq!(
        var_flags().0,
        [VarFlags::Cut, VarFlags::HalfLeds, VarFlags::Controller, VarFlags::Power]
    );
}

#[test]
fn add_rm_switch() {
    let mut v = 0b1001usize;
    VarFlags::Controller.add(&mut v);
    assert_eq!(v, 0b1101);
    assert!(VarFlags::Controller.has(v));
    assert!(VarFlags::Cut.has(v));
    assert!(!VarFlags::HalfLeds.has(v));
    VarFlags::Cut.rm(&mut v);
    assert_eq!(v, 0b1100);
    assert!(!VarFlags::Cut.has(v));
    VarFlags::Cut.rm(&mut v);
    assert_eq!(v, 0b1100);
    VarFlags::Power.switch(&mut v);
    assert_eq!(v, 0b0100);
    VarFlags::Power.switch(&mut v);
    assert_eq!(v, 0b1100);
    let mut big = 0b110000usize;
    VarFlags::HalfLeds.add(&mut big);
    assert_eq!(big, 0b110010);
}
