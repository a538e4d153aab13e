//! Lowering a program unit: splitting its code and flattening every block.

use vstd::prelude::*;
use crate::basic_block::{flatten, BasicBlock, BasicBlockView, FlattenError};
use crate::ir::texts;
use crate::splitter::{
    blocks_view, BasicBlocksBuilder, Builder, FunctionBlocksView, SplitError,
};
use crate::ssa_block::{Block as SSABlock, BlockView as SSABlockView};

verus! {

/// Why a program unit cannot be lowered.
#[derive(Clone, Copy, Debug, PartialEq, Eq, Structural)]
pub enum LowerError {
    /// The unit cannot be split into basic blocks.
    Split(SplitError),
    /// A basic block cannot be flattened.
    Flatten(FlattenError),
}

/// The blocks of one function in three-address form.
#[derive(Debug, PartialEq, Eq)]
pub struct LoweredFunction {
    pub name: String,
    pub blocks: Vec<SSABlock>,
}

/// A program unit in three-address form: the blocks of its top-level
/// code, and those of each of its functions, in the order in which the
/// functions are defined.
#[derive(Debug, PartialEq, Eq)]
pub struct LoweredUnit {
    pub blocks: Vec<SSABlock>,
    pub functions: Vec<LoweredFunction>,
}

/// The mathematical value of a `LoweredFunction`.
pub ghost struct LoweredFunctionView {
    pub name: Seq<char>,
    pub blocks: Seq<SSABlockView>,
}

/// The mathematical value of a `LoweredUnit`.
pub ghost struct LoweredUnitView {
    pub blocks: Seq<SSABlockView>,
    pub functions: Seq<LoweredFunctionView>,
}

/// The values of a list of blocks in three-address form.
pub open spec fn ssa_blocks_view(v: Seq<SSABlock>) -> Seq<SSABlockView> {
    Seq::new(v.len(), |i: int| v[i]@)
}

impl View for LoweredFunction {
    type V = LoweredFunctionView;

    open spec fn view(&self) -> LoweredFunctionView {
        LoweredFunctionView { name: self.name@, blocks: ssa_blocks_view(self.blocks@) }
    }
}

impl View for LoweredUnit {
    type V = LoweredUnitView;

    open spec fn view(&self) -> LoweredUnitView {
        LoweredUnitView {
            blocks: ssa_blocks_view(self.blocks@),
            functions: Seq::new(self.functions.len() as nat, |i: int| self.functions[i]@),
        }
    }
}

/// `acc`, and behind it the three-address forms of the blocks from index
/// `k` on.
pub open spec fn flatten_all(blocks: Seq<BasicBlockView>, k: int, acc: Seq<SSABlockView>) -> Result<
    Seq<SSABlockView>,
    FlattenError,
>
    decreases blocks.len() - k,
{
    if k < 0 || k >= blocks.len() {
        Ok(acc)
    } else {
        match flatten(blocks[k]) {
            Ok(b) => flatten_all(blocks, k + 1, acc.push(b)),
            Err(e) => Err(e),
        }
    }
}

/// `acc`, and behind it the functions from index `k` on with their blocks
/// in three-address form.
pub open spec fn flatten_functions(
    functions: Seq<FunctionBlocksView>,
    k: int,
    acc: Seq<LoweredFunctionView>,
) -> Result<Seq<LoweredFunctionView>, FlattenError>
    decreases functions.len() - k,
{
    if k < 0 || k >= functions.len() {
        Ok(acc)
    } else {
        match flatten_all(functions[k].blocks, 0, Seq::empty()) {
            Ok(blocks) => flatten_functions(
                functions,
                k + 1,
                acc.push(LoweredFunctionView { name: functions[k].name, blocks }),
            ),
            Err(e) => Err(e),
        }
    }
}

/// A program unit lowered: its code is split into basic blocks from an
/// empty stack, and every block is flattened, those of the top-level code
/// first.
pub open spec fn lowered(code: crate::ir::BlockView) -> Result<LoweredUnitView, LowerError> {
    match Builder::new(Seq::empty()).block(code) {
        Err(e) => Err(LowerError::Split(e)),
        Ok(split) => match flatten_all(split.basic_blocks, 0, Seq::empty()) {
            Err(e) => Err(LowerError::Flatten(e)),
            Ok(blocks) => match flatten_functions(split.functions, 0, Seq::empty()) {
                Err(e) => Err(LowerError::Flatten(e)),
                Ok(functions) => Ok(LoweredUnitView { blocks, functions }),
            },
        },
    }
}

/// The three-address forms of a list of basic blocks, in order.
pub fn flatten_blocks(blocks: Vec<BasicBlock>) -> (r: Result<Vec<SSABlock>, FlattenError>)
    ensures
        match r {
            Ok(flat) => flatten_all(blocks_view(blocks@), 0, Seq::empty()) == Ok::<
                Seq<SSABlockView>,
                FlattenError,
            >(ssa_blocks_view(flat@)),
            Err(e) => flatten_all(blocks_view(blocks@), 0, Seq::empty()) == Err::<
                Seq<SSABlockView>,
                FlattenError,
            >(e),
        },
{
    let ghost all = blocks_view(blocks@);
    let mut rest = blocks;
    let mut flat: Vec<SSABlock> = Vec::new();
    assert(ssa_blocks_view(flat@) =~= Seq::empty());
    let ghost mut k: int = 0;
    while rest.len() > 0
        invariant
            0 <= k,
            all == blocks_view(blocks@),
            k + rest.len() == all.len(),
            forall|j: int| 0 <= j < rest.len() ==> rest[j]@ == all[k + j],
            flatten_all(all, 0, Seq::empty()) == flatten_all(all, k, ssa_blocks_view(flat@)),
        decreases rest.len(),
    {
        let ghost before = ssa_blocks_view(flat@);
        let bb = rest.remove(0);
        assert(bb@ == all[k]);
        match bb.flatten_to() {
            Ok(b) => {
                flat.push(b);
                assert(ssa_blocks_view(flat@) =~= before.push(b@));
            },
            Err(e) => {
                return Err(e);
            },
        }
        proof {
            k = k + 1;
        }
    }
    Ok(flat)
}

/// Lower a program unit: its code is split into basic blocks from an
/// empty stack, and every block is flattened, those of the top-level code
/// first. Fails where the splitting fails, and else where the flattening
/// of the first block that cannot be flattened fails.
#[verifier::loop_isolation(false)]
pub fn lower_unit(code: &crate::ir::Block) -> (r: Result<LoweredUnit, LowerError>)
    ensures
        match r {
            Ok(unit) => lowered(code@) == Ok::<LoweredUnitView, LowerError>(unit@),
            Err(e) => lowered(code@) == Err::<LoweredUnitView, LowerError>(e),
        },
{
    let start: Vec<String> = Vec::new();
    assert(texts(start@) =~= Seq::empty());
    let mut builder = BasicBlocksBuilder::new(&start);
    match builder.split_block_ref(code) {
        Ok(_) => {},
        Err(e) => {
            return Err(LowerError::Split(e));
        },
    }
    let ghost split = builder@;
    let blocks = match flatten_blocks(builder.basic_blocks) {
        Ok(blocks) => blocks,
        Err(e) => {
            return Err(LowerError::Flatten(e));
        },
    };
    let mut rest = builder.functions;
    let mut functions: Vec<LoweredFunction> = Vec::new();
    let ghost mut acc: Seq<LoweredFunctionView> = Seq::empty();
    let ghost mut k: int = 0;
    while rest.len() > 0
        invariant
            0 <= k,
            k + rest.len() == split.functions.len(),
            forall|j: int| 0 <= j < rest.len() ==> rest[j]@ == split.functions[k + j],
            acc.len() == functions.len(),
            forall|j: int| 0 <= j < functions.len() ==> functions[j]@ == acc[j],
            flatten_functions(split.functions, 0, Seq::empty()) == flatten_functions(
                split.functions,
                k,
                acc,
            ),
        decreases rest.len(),
    {
        let f = rest.remove(0);
        assert(f@ == split.functions[k]);
        let name = f.name;
        match flatten_blocks(f.blocks) {
            Ok(flat) => {
                let lowered_function = LoweredFunction { name, blocks: flat };
                proof {
                    acc = acc.push(lowered_function@);
                }
                functions.push(lowered_function);
            },
            Err(e) => {
                return Err(LowerError::Flatten(e));
            },
        }
        proof {
            k = k + 1;
        }
    }
    let unit = LoweredUnit { blocks, functions };
    assert(unit@.functions =~= acc);
    Ok(unit)
}

/// Lowering goes by structure alone: two programs of the same value are
/// lowered to the same blocks, with the same intermediate names, or fail
/// in the same way, whatever strings hold the names.
pub proof fn lemma_lowering_goes_by_structure(a: crate::ir::Block, b: crate::ir::Block)
    requires
        a@ == b@,
    ensures
        lowered(a@) == lowered(b@),
{
}

} // verus!
