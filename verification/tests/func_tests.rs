use lancy::tir::Block;
use lancy::tir::BlockData;
use lancy::tir::Func;
use lancy::tir::TirError;
use lancy::tir::reg_name;
use lancy::x64::inst::X64Inst;
use lancy::x64::regs::RAX;

#[test]
fn construct_cfg_rejects_empty_function() {
    let mut func = Func::<X64Inst>::new("foo".to_string());
    assert_eq!(func.construct_cfg(), Err(TirError::EmptyFunctionBody));
}

#[test]
fn construct_cfg_rejects_unterminated_block() {
    let mut func = Func::<X64Inst>::new("foo".to_string());
    let b0 = func.add_empty_block();
    let v0 = func.new_vreg();
    {
        let bd = func.get_block_data_mut(b0);
        bd.push(X64Inst::Mov64rr { dst: v0, src: RAX });
    }
    assert_eq!(func.construct_cfg(), Err(TirError::BlockNotTerminated(b0)));
}

#[test]
fn vregs_are_monotonic() {
    let mut func = Func::<X64Inst>::new("foo".to_string());
    let v0 = func.new_vreg();
    let v1 = func.new_vreg();
    assert_eq!(v0, 16);
    assert_eq!(v1, 17);
    assert_eq!(func.get_regs_count(), 18);
}

#[test]
fn terminator_is_last_branch_or_ret() {
    let mut bd: BlockData<X64Inst> = BlockData::new();
    assert_eq!(bd.get_terminator(), None);
    bd.push(X64Inst::Mov64rr { dst: 16, src: RAX });
    assert_eq!(bd.get_terminator(), None);
    bd.push(X64Inst::Ret);
    assert_eq!(bd.get_terminator(), Some(X64Inst::Ret));
}

#[test]
fn register_names() {
    assert_eq!(reg_name::<X64Inst>(0), "rax");
    assert_eq!(reg_name::<X64Inst>(3), "rdx");
    assert_eq!(reg_name::<X64Inst>(15), "r15");
    assert_eq!(reg_name::<X64Inst>(16), "v0");
    assert_eq!(reg_name::<X64Inst>(33), "v17");
}

#[test]
fn entry_block_is_block_zero() {
    let mut func = Func::<X64Inst>::new("foo".to_string());
    assert_eq!(func.get_entry_block(), None);
    let b0 = func.add_empty_block();
    assert_eq!(func.get_entry_block(), Some(b0));
    assert_eq!(b0, Block(0));
}

#[test]
fn block_iter_yields_instructions_in_order() {
    let mut bd: BlockData<X64Inst> = BlockData::new();
    bd.push(X64Inst::Mov64rr { dst: 16, src: RAX });
    bd.push(X64Inst::Ret);
    let insts = bd.iter();
    assert_eq!(insts.len(), 2);
    assert_eq!(insts[0], X64Inst::Mov64rr { dst: 16, src: RAX });
    assert_eq!(insts[1], X64Inst::Ret);
}

#[test]
fn argument_and_result_lists_start_empty_and_are_kept() {
    let mut func = Func::<X64Inst>::new("foo".to_string());
    assert!(func.get_args().is_empty());
    assert!(func.get_rets().is_empty());
    let v0 = func.new_vreg();
    let v1 = func.new_vreg();
    func.set_args(vec![v0, v1]);
    func.set_rets(vec![v0]);
    assert_eq!(func.get_args().as_slice(), &[v0, v1]);
    assert_eq!(func.get_rets().as_slice(), &[v0]);
}
