use lancy::analysis::LiveRange;
use lancy::analysis::LivenessAnalysis;
use lancy::analysis::ProgramPoint;
use lancy::regalloc::apply_regalloc_result;
use lancy::regalloc::AllocatedSlot;
use lancy::regalloc::RegAlloc;
use lancy::regalloc::RegAllocResult;
use lancy::tir::BlockData;
use lancy::tir::Func;
use lancy::x64::inst::X64Inst;
use lancy::x64::regs::RAX;
use lancy::x64::regs::RBX;

fn two_block_func() -> (Func<X64Inst>, u32, lancy::tir::Block, lancy::tir::Block) {
    let mut func = Func::<X64Inst>::new("foo".to_string());
    let b0 = func.add_empty_block();
    let v0 = func.new_vreg();
    let b1 = {
        let mut block_data = BlockData::new();
        block_data.push(X64Inst::Mov64rr { dst: RAX, src: v0 });
        block_data.push(X64Inst::Ret);
        func.add_block(block_data)
    };
    {
        let block_data = func.get_block_data_mut(b0);
        block_data.push(X64Inst::Mov64rr { dst: v0, src: RAX });
        block_data.push(X64Inst::Jmp { dst: b1 });
    }
    (func, v0, b0, b1)
}

#[test]
fn regalloc_simple_test() {
    let (mut func, v0, b0, b1) = two_block_func();
    func.construct_cfg().unwrap();
    let analysis = LivenessAnalysis::new(&func, &func.get_cfg());

    let mut regalloc = RegAlloc::new(&func, &func.get_cfg(), &analysis);

    assert_eq!(
        regalloc.run(),
        vec![RegAllocResult {
            range: LiveRange {
                reg: v0,
                start: ProgramPoint { block: b0, inst_index: 0 },
                end: ProgramPoint { block: b1, inst_index: 0 },
            },
            allocated_slot: AllocatedSlot::Reg(RBX),
        }]
    );
}

#[test]
fn regalloc_applies_to_both_references() {
    let (mut func, v0, b0, b1) = two_block_func();
    func.construct_cfg().unwrap();
    let analysis = LivenessAnalysis::new(&func, &func.get_cfg());
    let results = {
        let mut regalloc = RegAlloc::new(&func, &func.get_cfg(), &analysis);
        regalloc.run()
    };
    assert_eq!(results.len(), 1);
    assert_eq!(results[0].range.reg, v0);
    apply_regalloc_result(&mut func, results);
    assert_eq!(
        *func.get_block_data(b0).get(0),
        X64Inst::Mov64rr { dst: RBX, src: RAX }
    );
    assert_eq!(*func.get_block_data(b0).get(1), X64Inst::Jmp { dst: b1 });
    assert_eq!(
        *func.get_block_data(b1).get(0),
        X64Inst::Mov64rr { dst: RAX, src: RBX }
    );
    assert_eq!(*func.get_block_data(b1).get(1), X64Inst::Ret);
}
