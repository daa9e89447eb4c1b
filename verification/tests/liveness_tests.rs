use lancy::analysis::LiveRange;
use lancy::analysis::LivenessAnalysis;
use lancy::analysis::ProgramPoint;
use lancy::tir::BlockData;
use lancy::tir::Func;
use lancy::x64::inst::X64Inst;
use lancy::x64::regs::RAX;

#[test]
fn liveness_simple_test() {
    // foo:
    // @0
    //     mov v0 rax
    //     jmp @1
    // @1
    //     mov rax v0
    //     ret
    let mut func = Func::<X64Inst>::new("foo".to_string());

    let b0 = func.add_empty_block();
    let v0 = func.new_vreg();

    let b1 = {
        let mut block_data = BlockData::new();

        block_data.push(X64Inst::Mov64rr { dst: RAX, src: v0 });
        block_data.push(X64Inst::Ret);

        func.add_block(block_data)
    };

    {
        let block_data = func.get_block_data_mut(b0);
        block_data.push(X64Inst::Mov64rr { dst: v0, src: RAX });
        block_data.push(X64Inst::Jmp { dst: b1 });
    }

    func.construct_cfg().unwrap();
    let analysis = LivenessAnalysis::new(&func, &func.get_cfg());

    let v0_ranges = analysis.get_life_ranges(v0);
    let rax_ranges = analysis.get_life_ranges(RAX);

    assert_eq!(
        *rax_ranges,
        [LiveRange {
            reg: RAX,
            start: ProgramPoint { block: b0, inst_index: 0 },
            end: ProgramPoint { block: b1, inst_index: 0 },
        }]
    );

    assert_eq!(
        *v0_ranges,
        [LiveRange {
            reg: v0,
            start: ProgramPoint { block: b0, inst_index: 0 },
            end: ProgramPoint { block: b1, inst_index: 0 },
        }]
    );
}

#[test]
fn test_loop() {
    // foo:
    // @0
    //     mov v0 rax
    //     jmp @1
    // @1
    //     mov v1 v0
    //     jmp @2
    // @2
    //     mov rax v1
    //     jmp @0
    let mut func = Func::<X64Inst>::new("foo".to_string());
    let b0 = func.add_empty_block();
    let v0 = func.new_vreg();
    let v1 = func.new_vreg();
    let b1 = func.add_empty_block();
    let b2 = func.add_empty_block();

    {
        let block_data = func.get_block_data_mut(b0);
        block_data.push(X64Inst::Mov64rr { dst: v0, src: RAX });
        block_data.push(X64Inst::Jmp { dst: b1 });
    }

    {
        let block_data = func.get_block_data_mut(b1);
        block_data.push(X64Inst::Mov64rr { dst: v1, src: v0 });
        block_data.push(X64Inst::Jmp { dst: b2 });
    }

    {
        let block_data = func.get_block_data_mut(b2);
        block_data.push(X64Inst::Mov64rr { dst: RAX, src: v1 });
        block_data.push(X64Inst::Jmp { dst: b0 });
    }

    func.construct_cfg().unwrap();
    let analysis = LivenessAnalysis::new(&func, &func.get_cfg());
    let v0_ranges = analysis.get_life_ranges(v0);
    let v1_ranges = analysis.get_life_ranges(v1);
    let rax_ranges = analysis.get_life_ranges(RAX);

    assert_eq!(analysis.live_in(b0).iter_ones(), vec![RAX as usize]);

    assert_eq!(analysis.live_out(b2).iter_ones(), vec![RAX as usize]);

    assert_eq!(
        *rax_ranges,
        [LiveRange {
            reg: RAX,
            start: ProgramPoint { block: b0, inst_index: 0 },
            end: ProgramPoint { block: b2, inst_index: 2 },
        }]
    );

    assert_eq!(
        *v0_ranges,
        [LiveRange {
            reg: v0,
            start: ProgramPoint { block: b0, inst_index: 0 },
            end: ProgramPoint { block: b1, inst_index: 0 },
        }]
    );

    assert_eq!(
        *v1_ranges,
        [LiveRange {
            reg: v1,
            start: ProgramPoint { block: b1, inst_index: 0 },
            end: ProgramPoint { block: b2, inst_index: 0 },
        }]
    );
}

#[test]
fn liveness_runs_identically_twice() {
    let mut func = Func::<X64Inst>::new("foo".to_string());
    let b0 = func.add_empty_block();
    let v0 = func.new_vreg();
    let v1 = func.new_vreg();
    let b1 = func.add_empty_block();
    let b2 = func.add_empty_block();

    {
        let block_data = func.get_block_data_mut(b0);
        block_data.push(X64Inst::Mov64rr { dst: v0, src: RAX });
        block_data.push(X64Inst::Jmp { dst: b1 });
    }
    {
        let block_data = func.get_block_data_mut(b1);
        block_data.push(X64Inst::Mov64rr { dst: v1, src: v0 });
        block_data.push(X64Inst::Jmp { dst: b2 });
    }
    {
        let block_data = func.get_block_data_mut(b2);
        block_data.push(X64Inst::Mov64rr { dst: RAX, src: v1 });
        block_data.push(X64Inst::Jmp { dst: b0 });
    }
    func.construct_cfg().unwrap();

    let first = LivenessAnalysis::new(&func, &func.get_cfg());
    let second = LivenessAnalysis::new(&func, &func.get_cfg());
    for b in [b0, b1, b2] {
        assert!(first.live_in(b).equals(second.live_in(b)));
        assert!(first.live_out(b).equals(second.live_out(b)));
    }
}

#[test]
fn liveness_equation_holds() {
    let mut func = Func::<X64Inst>::new("foo".to_string());
    let b0 = func.add_empty_block();
    let v0 = func.new_vreg();
    let b1 = {
        let mut bd = BlockData::new();
        bd.push(X64Inst::Mov64rr { dst: RAX, src: v0 });
        bd.push(X64Inst::Ret);
        func.add_block(bd)
    };
    {
        let bd = func.get_block_data_mut(b0);
        bd.push(X64Inst::Mov64rr { dst: v0, src: RAX });
        bd.push(X64Inst::Jmp { dst: b1 });
    }
    func.construct_cfg().unwrap();
    let analysis = LivenessAnalysis::new(&func, &func.get_cfg());
    // live-in(@0) must equal (live-out(@0) - defs(@0)) + uses(@0):
    // rax is read before any write, v0 is written, so only rax is live in.
    assert_eq!(analysis.live_in(b0).iter_ones(), vec![RAX as usize]);
    // v0 flows into @1 where it is read.
    assert!(analysis.live_out(b0).has(v0 as usize));
    assert!(analysis.live_in(b1).has(v0 as usize));
    assert!(!analysis.live_out(b1).has(v0 as usize));
}
