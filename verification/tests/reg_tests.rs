use lancy::tir::reg::Reg;
use lancy::tir::reg::RegClass;
use lancy::tir::reg::RegType;

#[test]
fn test_reg() {
    let reg = Reg::new(RegType::Physical, RegClass::Float(8), 12);
    assert_eq!(reg.get_type(), RegType::Physical);
    assert_eq!(reg.get_class(), RegClass::Float(8));
    assert_eq!(reg.get_id(), 12);
    let reg = Reg::new(RegType::Virtual, RegClass::Int(4), 48);
    assert_eq!(reg.get_type(), RegType::Virtual);
    assert_eq!(reg.get_class(), RegClass::Int(4));
    assert_eq!(reg.get_id(), 48);
    let reg = Reg::new(RegType::Spill, RegClass::Vec(32), 61);
    assert_eq!(reg.get_type(), RegType::Spill);
    assert_eq!(reg.get_class(), RegClass::Vec(32));
    assert_eq!(reg.get_id(), 61);
}

#[test]
fn test_reg_edge_cases() {
    let reg = Reg::new(RegType::Physical, RegClass::Int(1), 0);
    assert_eq!(reg.get_type(), RegType::Physical);
    assert_eq!(reg.get_class(), RegClass::Int(1));
    assert_eq!(reg.get_id(), 0);

    let max_id = lancy::tir::reg::ID_MASK;
    let reg = Reg::new(RegType::Virtual, RegClass::Vec(16), max_id);
    assert_eq!(reg.get_type(), RegType::Virtual);
    assert_eq!(reg.get_class(), RegClass::Vec(16));
    assert_eq!(reg.get_id(), max_id);

    let id = 7;
    let class = RegClass::Float(2);
    let reg_phys = Reg::new(RegType::Physical, class, id);
    let reg_virt = Reg::new(RegType::Virtual, class, id);
    let reg_spill = Reg::new(RegType::Spill, class, id);
    assert_eq!(reg_phys.get_type(), RegType::Physical);
    assert_eq!(reg_virt.get_type(), RegType::Virtual);
    assert_eq!(reg_spill.get_type(), RegType::Spill);

    let id = 3;
    let reg_int = Reg::new(RegType::Physical, RegClass::Int(8), id);
    let reg_float = Reg::new(RegType::Physical, RegClass::Float(8), id);
    let reg_vec = Reg::new(RegType::Physical, RegClass::Vec(8), id);
    assert_eq!(reg_int.get_class(), RegClass::Int(8));
    assert_eq!(reg_float.get_class(), RegClass::Float(8));
    assert_eq!(reg_vec.get_class(), RegClass::Vec(8));
}

#[test]
fn test_reg_class_size_encoding() {
    for &size in &[1u8, 2, 4, 8, 16, 32, 64, 128] {
        let reg = Reg::new(RegType::Physical, RegClass::Vec(size), 5);
        assert_eq!(reg.get_class(), RegClass::Vec(size));
    }
}
